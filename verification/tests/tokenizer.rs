use oscar_tokenize::{BpeState, MergeRule, Token, Tokenizer};

fn rule(left: u16, right: u16, result: u16) -> MergeRule {
    MergeRule { left: Token::new(left), right: Token::new(right), result: Token::new(result) }
}

fn ids(tokens: &[Token]) -> Vec<u16> {
    tokens.iter().map(|t| t.into_inner()).collect()
}

#[test]
fn tokenize_empty_input() {
    let tok = Tokenizer::from_rules(vec![rule(97, 97, 256)]);
    assert_eq!(tok.tokenize_bytes(&Vec::new()), Vec::new());
}

#[test]
fn tokenize_bytes_maps_bytes_without_rules() {
    let tok = Tokenizer::from_rules(Vec::new());
    let out = tok.tokenize_bytes(&b"ab".to_vec());
    assert_eq!(ids(&out), vec![97, 98]);
}

#[test]
fn single_pass_is_greedy_left_to_right() {
    // "aaa" with (a, a) -> 256 merges the first two tokens only.
    let tok = Tokenizer::from_rules(vec![rule(97, 97, 256)]);
    let out = tok.tokenize_bytes(&b"aaa".to_vec());
    assert_eq!(ids(&out), vec![256, 97]);
}

#[test]
fn rules_apply_in_storage_order() {
    // (a, b) -> 256, then (256, c) -> 257: "abc" collapses to one token.
    let tok = Tokenizer::from_rules(vec![rule(97, 98, 256), rule(256, 99, 257)]);
    let out = tok.tokenize_bytes(&b"abc".to_vec());
    assert_eq!(ids(&out), vec![257]);
}

#[test]
fn set_new_limits_applied_rules() {
    let mut tok = Tokenizer::from_rules(vec![rule(97, 98, 256), rule(256, 99, 257)]);
    // Only the last rule counts as new: raw bytes never see (a, b) -> 256.
    tok.set_new(Some(1));
    let out = tok.tokenize_bytes(&b"abc".to_vec());
    assert_eq!(ids(&out), vec![97, 98, 99]);
    // None restores a full pass.
    tok.set_new(None);
    let out = tok.tokenize_bytes(&b"abc".to_vec());
    assert_eq!(ids(&out), vec![257]);
}

#[test]
fn idempotence_on_fully_merged_sequence() {
    // Tokenizing an already-fully-merged sequence again with all rules new
    // leaves it unchanged.
    let mut state = BpeState::empty();
    state.add_token(Token::new(97), Token::new(98));
    state.add_token(Token::new(256), Token::new(99));
    state.add_token(Token::new(98), Token::new(99));
    let tok = state.tokenizer();
    let once = tok.tokenize_bytes(&b"abcabbc".to_vec());
    let twice = tok.tokenize(&once);
    assert_eq!(once, twice);
}

#[test]
fn incremental_equivalence_matches_full_pass() {
    // One full pass over raw bytes equals: old rules first, then only the
    // new rules over the intermediate result.
    let rules = vec![rule(97, 98, 256), rule(256, 99, 257), rule(99, 99, 258)];
    let full = Tokenizer::from_rules(rules.clone());
    let older = Tokenizer::from_rules(rules[..1].to_vec());
    let mut newer = Tokenizer::from_rules(rules.clone());
    newer.set_new(Some(2));
    let input = b"abccc abc".to_vec();
    let one_pass = full.tokenize_bytes(&input);
    let staged = newer.tokenize(&older.tokenize_bytes(&input));
    assert_eq!(one_pass, staged);
}

#[test]
fn token_accessors() {
    let t = Token::new(300);
    assert_eq!(t.index(), 300usize);
    assert_eq!(t.into_inner(), 300u16);
}
