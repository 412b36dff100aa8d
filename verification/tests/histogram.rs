use oscar_tokenize::{
    BpeState, Count, EtaScheduler, ForbiddenPatterns, Token, TokenHistogram, TrainConfig, SCALE,
};

fn config_with_eta(eta: u64) -> TrainConfig {
    TrainConfig {
        eta: EtaScheduler::constant(eta),
        max_token_length: None,
        target_vocab_size: 1000,
        forbidden_patterns: ForbiddenPatterns::empty(),
    }
}

fn pair_ids(merges: &[(Token, Token)]) -> Vec<(u16, u16)> {
    merges.iter().map(|(l, r)| (l.into_inner(), r.into_inner())).collect()
}

#[test]
fn register_and_get_counts() {
    let mut h = TokenHistogram::new();
    assert_eq!(h.get_token(Token::new(97)), Count::new(0));
    assert_eq!(h.get_pair(Token::new(97), Token::new(98)), Count::new(0));
    h.register(Token::new(97));
    h.register_n(Token::new(97), 4);
    h.register_pair(Token::new(97), Token::new(98));
    h.register_pair(Token::new(97), Token::new(98));
    h.register_pair(Token::new(98), Token::new(97));
    assert_eq!(h.get_token(Token::new(97)).into_inner(), 5);
    assert_eq!(h.get_pair(Token::new(97), Token::new(98)).into_inner(), 2);
    assert_eq!(h.get_pair(Token::new(98), Token::new(97)).into_inner(), 1);
    assert_eq!(h.len_pairs().into_inner(), 2);
}

#[test]
fn combine_sums_counts() {
    let mut a = TokenHistogram::new();
    let mut b = TokenHistogram::new();
    a.register_pair(Token::new(1), Token::new(2));
    a.register(Token::new(1));
    b.register_pair(Token::new(1), Token::new(2));
    b.register_pair(Token::new(3), Token::new(4));
    b.register_n(Token::new(1), 9);
    a.combine(b);
    assert_eq!(a.get_pair(Token::new(1), Token::new(2)).into_inner(), 2);
    assert_eq!(a.get_pair(Token::new(3), Token::new(4)).into_inner(), 1);
    assert_eq!(a.get_token(Token::new(1)).into_inner(), 10);
}

#[test]
fn combine_is_order_insensitive() {
    // Any grouping or order of combination yields identical totals.
    let make = |pairs: &[(u16, u16)]| {
        let mut h = TokenHistogram::new();
        for &(l, r) in pairs {
            h.register_pair(Token::new(l), Token::new(r));
            h.register(Token::new(l));
        }
        h
    };
    let parts: [&[(u16, u16)]; 3] = [&[(1, 2), (2, 3)], &[(1, 2)], &[(9, 9), (2, 3), (1, 2)]];

    let mut left_grouped = make(parts[0]);
    left_grouped.combine(make(parts[1]));
    left_grouped.combine(make(parts[2]));

    let mut right_grouped = make(parts[2]);
    let mut inner = make(parts[1]);
    inner.combine(make(parts[0]));
    right_grouped.combine(inner);

    let mut sequential = make(parts[0]);
    for &(l, r) in parts[1].iter().chain(parts[2]) {
        sequential.register_pair(Token::new(l), Token::new(r));
        sequential.register(Token::new(l));
    }

    for h in [&left_grouped, &right_grouped] {
        for l in 0u16..10 {
            for r in 0u16..10 {
                assert_eq!(
                    h.get_pair(Token::new(l), Token::new(r)),
                    sequential.get_pair(Token::new(l), Token::new(r))
                );
            }
            assert_eq!(h.get_token(Token::new(l)), sequential.get_token(Token::new(l)));
        }
    }
}

#[test]
fn merges_sorted_by_descending_count() {
    let mut h = TokenHistogram::new();
    for _ in 0..5 {
        h.register_pair(Token::new(97), Token::new(98));
    }
    for _ in 0..3 {
        h.register_pair(Token::new(99), Token::new(100));
    }
    let vocab = BpeState::empty().vocab();
    let merges = h.merges_to_add(&vocab, &config_with_eta(0), 0);
    assert_eq!(pair_ids(&merges), vec![(97, 98), (99, 100)]);
}

#[test]
fn equal_counts_tie_break_on_smaller_ids() {
    let mut h = TokenHistogram::new();
    h.register_pair(Token::new(120), Token::new(121));
    h.register_pair(Token::new(97), Token::new(98));
    let vocab = BpeState::empty().vocab();
    let merges = h.merges_to_add(&vocab, &config_with_eta(0), 0);
    assert_eq!(pair_ids(&merges), vec![(97, 98), (120, 121)]);
}

#[test]
fn threshold_cuts_batch_at_eta_of_top_count() {
    let mut h = TokenHistogram::new();
    for _ in 0..10 {
        h.register_pair(Token::new(97), Token::new(98));
    }
    for _ in 0..6 {
        h.register_pair(Token::new(99), Token::new(100));
    }
    for _ in 0..4 {
        h.register_pair(Token::new(101), Token::new(102));
    }
    let vocab = BpeState::empty().vocab();
    // eta = 0.5: counts >= 5 stay; the batch stops at the first count below.
    let merges = h.merges_to_add(&vocab, &config_with_eta(SCALE / 2), 0);
    assert_eq!(pair_ids(&merges), vec![(97, 98), (99, 100)]);
}

#[test]
fn no_token_is_right_of_one_and_left_of_another() {
    // (b, c) is the top pair; (a, b) may not reuse b as a right member once
    // b is blocked as left... the blocked sets forbid a position being
    // claimed twice: c blocked as left, b blocked as right.
    let mut h = TokenHistogram::new();
    for _ in 0..10 {
        h.register_pair(Token::new(98), Token::new(99));
    }
    for _ in 0..9 {
        h.register_pair(Token::new(99), Token::new(100));
    }
    for _ in 0..8 {
        h.register_pair(Token::new(97), Token::new(98));
    }
    let vocab = BpeState::empty().vocab();
    let merges = h.merges_to_add(&vocab, &config_with_eta(0), 0);
    // (99, 100) is skipped: 99 is blocked as a left member by (98, 99).
    // (97, 98) is skipped: 98 is blocked as a right member by (98, 99).
    assert_eq!(pair_ids(&merges), vec![(98, 99)]);
    for (i, a) in merges.iter().enumerate() {
        for (j, b) in merges.iter().enumerate() {
            if i != j {
                assert_ne!(a.1, b.0);
            }
        }
    }
}

#[test]
fn skipped_candidates_do_not_block_their_tokens() {
    // The top pair (a, b) is over the length cap and is skipped without
    // blocking, so (b, c) and even a later (a, d) stay eligible.
    let mut state = BpeState::empty();
    let ab = state.add_token(Token::new(97), Token::new(98)); // "ab", length 2
    let mut h = TokenHistogram::new();
    for _ in 0..10 {
        h.register_pair(ab, ab); // would give "abab", length 4
    }
    for _ in 0..9 {
        h.register_pair(ab, Token::new(99)); // "abc", length 3
    }
    let mut config = config_with_eta(0);
    config.max_token_length = Some(3);
    let merges = h.merges_to_add(&state.vocab(), &config, 0);
    assert_eq!(pair_ids(&merges), vec![(256, 99)]);
}

#[test]
fn forbidden_pattern_skips_highest_pair_but_keeps_lower_one() {
    // The merge result containing byte 0xFF is disqualified even as the
    // highest-count pair; a lower-count eligible pair above eta stays.
    let mut h = TokenHistogram::new();
    for _ in 0..10 {
        h.register_pair(Token::new(97), Token::new(255));
    }
    for _ in 0..8 {
        h.register_pair(Token::new(97), Token::new(98));
    }
    let patterns = ForbiddenPatterns::new(vec![r"(?-u)\xff".to_string()])
        .expect("pattern must compile");
    let config = TrainConfig {
        eta: EtaScheduler::constant(SCALE / 2),
        max_token_length: None,
        target_vocab_size: 1000,
        forbidden_patterns: patterns,
    };
    let vocab = BpeState::empty().vocab();
    let merges = h.merges_to_add(&vocab, &config, 0);
    assert_eq!(pair_ids(&merges), vec![(97, 98)]);
}

#[test]
fn forbidden_patterns_match_their_haystacks() {
    let patterns = ForbiddenPatterns::new(vec![r"(?-u)\xff".to_string(), "casino".to_string()])
        .expect("patterns must compile");
    assert!(patterns.is_match(&b"a\xFFb".to_vec()));
    assert!(patterns.is_match(&b"grand casino hall".to_vec()));
    assert!(!patterns.is_match(&b"plain text".to_vec()));
    assert!(!ForbiddenPatterns::empty().is_match(&b"anything".to_vec()));
    assert!(ForbiddenPatterns::new(vec!["(unclosed".to_string()]).is_none());
}

#[test]
fn empty_histogram_selects_nothing() {
    let h = TokenHistogram::new();
    let vocab = BpeState::empty().vocab();
    assert_eq!(h.merges_to_add(&vocab, &config_with_eta(0), 0), Vec::new());
}

#[test]
fn count_helpers() {
    let c = Count::new(7);
    assert_eq!(c.into_inner(), 7);
    assert_eq!(c.by_key_desc(), u64::MAX - 7);
    assert_eq!(c.by_desc(&Count::new(9)), std::cmp::Ordering::Greater);
    assert_eq!(c.by_desc(&Count::new(7)), std::cmp::Ordering::Equal);
    assert_eq!(c.by_desc(&Count::new(5)), std::cmp::Ordering::Less);
    assert_eq!(c.plus(Count::new(2)), Count::new(9));
    assert_eq!(Count::new(u64::MAX).plus(Count::new(1)), Count::new(u64::MAX));
    assert_eq!(Count::default(), Count::new(0));
}
