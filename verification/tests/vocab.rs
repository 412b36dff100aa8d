use oscar_tokenize::{render_line, BpeState, LoadError, MergeRule, RemoveError, Token};

#[test]
fn empty_state_holds_byte_tokens() {
    let state = BpeState::empty();
    assert_eq!(state.additional_vocab_size(), 0);
    assert_eq!(state.at_token(Token::new(0)).as_slice(), &[0u8]);
    assert_eq!(state.at_token(Token::new(65)).as_slice(), b"A");
    assert_eq!(state.at_token(Token::new(255)).as_slice(), &[255u8]);
    assert_eq!(state.tokens().len(), 256);
    assert_eq!(state.vocab().len(), 256);
}

#[test]
fn add_token_concatenates_and_appends() {
    let mut state = BpeState::empty();
    let t = state.add_token(Token::new(97), Token::new(98));
    assert_eq!(t.into_inner(), 256);
    assert_eq!(state.at_token(t).as_slice(), b"ab");
    assert_eq!(state.additional_vocab_size(), 1);
    let t2 = state.add_token(t, Token::new(99));
    assert_eq!(t2.into_inner(), 257);
    assert_eq!(state.at_token(t2).as_slice(), b"abc");
}

#[test]
fn split_token_returns_operands() {
    let mut state = BpeState::empty();
    let t = state.add_token(Token::new(97), Token::new(98));
    assert_eq!(state.split_token(t), Some((Token::new(97), Token::new(98))));
    assert_eq!(state.split_token(Token::new(97)), None);
    assert_eq!(state.split_token(Token::new(999)), None);
}

#[test]
fn render_line_is_three_ids_and_newline() {
    let rule = MergeRule { left: Token::new(97), right: Token::new(98), result: Token::new(256) };
    assert_eq!(render_line(&rule), b"97 98 256\n".to_vec());
}

#[test]
fn log_round_trip_preserves_every_byte_string() {
    let mut state = BpeState::empty();
    state.add_token(Token::new(104), Token::new(105));
    state.add_token(Token::new(256), Token::new(33));
    state.add_token(Token::new(105), Token::new(104));
    let log = state.render_log();
    let reloaded = BpeState::from_log(&log).expect("rendered log must replay");
    assert_eq!(reloaded.additional_vocab_size(), state.additional_vocab_size());
    for token in state.tokens() {
        assert_eq!(reloaded.at_token(token), state.at_token(token));
    }
}

#[test]
fn from_log_accepts_empty_log() {
    let state = BpeState::from_log(&Vec::new()).expect("empty log is an empty state");
    assert_eq!(state.additional_vocab_size(), 0);
}

#[test]
fn from_log_rejects_malformed_lines() {
    assert!(matches!(BpeState::from_log(&b"97 98\n".to_vec()), Err(LoadError::Malformed)));
    assert!(matches!(BpeState::from_log(&b"97 xx 256\n".to_vec()), Err(LoadError::Malformed)));
    assert!(matches!(BpeState::from_log(&b"97 98 99999\n".to_vec()), Err(LoadError::Malformed)));
    assert!(matches!(BpeState::from_log(&b"\n".to_vec()), Err(LoadError::Malformed)));
}

#[test]
fn from_log_rejects_out_of_sequence_results() {
    // First result id must be 256.
    assert!(matches!(
        BpeState::from_log(&b"97 98 257\n".to_vec()),
        Err(LoadError::OutOfSequence)
    ));
    // Operands must already exist.
    assert!(matches!(
        BpeState::from_log(&b"300 98 256\n".to_vec()),
        Err(LoadError::OutOfSequence)
    ));
    // Second result id must be 257.
    assert!(matches!(
        BpeState::from_log(&b"97 98 256\n97 99 300\n".to_vec()),
        Err(LoadError::OutOfSequence)
    ));
}

#[test]
fn remove_token_renumbers_later_rules() {
    let mut state = BpeState::empty();
    state.add_token(Token::new(97), Token::new(98)); // 256 "ab"
    state.add_token(Token::new(99), Token::new(100)); // 257 "cd"
    state.add_token(Token::new(257), Token::new(101)); // 258 "cde"
    assert_eq!(state.remove_token_unsynced(Token::new(256)), Ok(()));
    assert_eq!(state.additional_vocab_size(), 2);
    assert_eq!(state.at_token(Token::new(256)).as_slice(), b"cd");
    assert_eq!(state.at_token(Token::new(257)).as_slice(), b"cde");
    assert_eq!(state.split_token(Token::new(257)), Some((Token::new(256), Token::new(101))));
}

#[test]
fn remove_token_on_referenced_token_fails_unchanged() {
    let mut state = BpeState::empty();
    state.add_token(Token::new(97), Token::new(98)); // 256
    state.add_token(Token::new(256), Token::new(99)); // 257 references 256
    let before_log = state.render_log();
    let before_vocab = state.vocab();
    assert_eq!(state.remove_token_unsynced(Token::new(256)), Err(RemoveError::Referenced));
    assert_eq!(state.render_log(), before_log);
    assert_eq!(state.vocab(), before_vocab);
}

#[test]
fn remove_token_rejects_bad_ids() {
    let mut state = BpeState::empty();
    state.add_token(Token::new(97), Token::new(98));
    assert_eq!(state.remove_token_unsynced(Token::new(999)), Err(RemoveError::NotInVocab));
    assert_eq!(state.remove_token_unsynced(Token::new(97)), Err(RemoveError::ByteToken));
    assert_eq!(state.additional_vocab_size(), 1);
}

#[test]
fn render_log_lists_rules_in_order() {
    let mut state = BpeState::empty();
    state.add_token(Token::new(97), Token::new(98));
    state.add_token(Token::new(256), Token::new(99));
    assert_eq!(state.render_log(), b"97 98 256\n256 99 257\n".to_vec());
}

#[test]
fn from_log_accepts_missing_trailing_newline() {
    let state = BpeState::from_log(&b"97 98 256\n256 99 257".to_vec()).expect("valid log");
    assert_eq!(state.additional_vocab_size(), 2);
    assert_eq!(state.at_token(Token::new(257)).as_slice(), b"abc");
}

#[test]
fn from_log_accepts_leading_zeros() {
    let state = BpeState::from_log(&b"097 098 0256\n".to_vec()).expect("valid log");
    assert_eq!(state.at_token(Token::new(256)).as_slice(), b"ab");
}
