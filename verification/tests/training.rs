use oscar_tokenize::{
    BpeState, DatasetIterator, EtaScheduler, ForbiddenPatterns, InMemoryDataset, Token,
    TokenHistogram, Tokenizer, TrainConfig, SCALE,
};

fn byte_tokens(text: &[u8]) -> Vec<Token> {
    text.iter().map(|&b| Token::new(b as u16)).collect()
}

fn plain_config(target: usize) -> TrainConfig {
    TrainConfig {
        eta: EtaScheduler::constant(SCALE / 2),
        max_token_length: None,
        target_vocab_size: target,
        forbidden_patterns: ForbiddenPatterns::empty(),
    }
}

#[test]
fn counting_covers_every_document() {
    let dataset = InMemoryDataset::new(vec![byte_tokens(b"aba"), byte_tokens(b"ab")]);
    let mut hist = TokenHistogram::new();
    dataset.iter().for_each_token_pair(&mut hist);
    assert_eq!(hist.get_pair(Token::new(97), Token::new(98)).into_inner(), 2);
    assert_eq!(hist.get_pair(Token::new(98), Token::new(97)).into_inner(), 1);
    // Left members: every window start counts; no window spans documents.
    assert_eq!(hist.get_token(Token::new(97)).into_inner(), 2);
    assert_eq!(hist.get_token(Token::new(98)).into_inner(), 1);
}

#[test]
fn split_work_preserves_documents_and_counts() {
    let docs: Vec<Vec<Token>> =
        (0u16..10).map(|i| vec![Token::new(i), Token::new(i + 1)]).collect();
    let dataset = InMemoryDataset::new(docs);
    let parts = dataset.iter().split_work(3);
    assert!(parts.len() >= 2);
    let mut combined = TokenHistogram::new();
    for part in parts {
        let mut partial = TokenHistogram::new();
        part.for_each_token_pair(&mut partial);
        combined.combine(partial);
    }
    let mut sequential = TokenHistogram::new();
    dataset.iter().for_each_token_pair(&mut sequential);
    for i in 0u16..11 {
        for j in 0u16..11 {
            assert_eq!(
                combined.get_pair(Token::new(i), Token::new(j)),
                sequential.get_pair(Token::new(i), Token::new(j))
            );
        }
        assert_eq!(combined.get_token(Token::new(i)), sequential.get_token(Token::new(i)));
    }
}

#[test]
fn update_tokenizer_retokenizes_in_place() {
    let mut dataset = InMemoryDataset::new(vec![byte_tokens(b"abab")]);
    let mut state = BpeState::empty();
    state.add_token(Token::new(97), Token::new(98));
    dataset.update_tokenizer(state.tokenizer());
    let mut hist = TokenHistogram::new();
    dataset.iter().for_each_token_pair(&mut hist);
    assert_eq!(hist.get_pair(Token::new(256), Token::new(256)).into_inner(), 1);
    assert_eq!(hist.get_pair(Token::new(97), Token::new(98)).into_inner(), 0);
}

#[test]
fn top_pair_scenario_aaaa() {
    // Vocabulary: the 256 byte tokens. Corpus: "aaaa" repeated 100 times.
    // The top candidate is (a, a); add_token yields 256 = "aa"; and
    // re-tokenizing "aaaa" with the new rule gives [256, 256].
    let docs: Vec<Vec<Token>> = (0..100).map(|_| byte_tokens(b"aaaa")).collect();
    let dataset = InMemoryDataset::new(docs);
    let mut hist = TokenHistogram::new();
    dataset.iter().for_each_token_pair(&mut hist);
    let mut state = BpeState::empty();
    let merges = hist.merges_to_add(&state.vocab(), &plain_config(1000), 0);
    assert_eq!(merges[0], (Token::new(97), Token::new(97)));
    let new_token = state.add_token(merges[0].0, merges[0].1);
    assert_eq!(new_token.into_inner(), 256);
    assert_eq!(state.at_token(new_token).as_slice(), b"aa");
    let out = state.tokenizer().tokenize_bytes(&b"aaaa".to_vec());
    assert_eq!(out, vec![Token::new(256), Token::new(256)]);
}

#[test]
fn train_step_adds_selected_rules() {
    let docs: Vec<Vec<Token>> = (0..50).map(|_| byte_tokens(b"the cat")).collect();
    let dataset = InMemoryDataset::new(docs);
    let mut state = BpeState::empty();
    let result = dataset.train_step(&mut state, &plain_config(100));
    let added = result.new_token_count.into_inner();
    assert!(added > 0);
    assert_eq!(state.additional_vocab_size() as u64, added);
}

#[test]
fn train_vocabulary_reaches_target_or_stalls() {
    let docs: Vec<Vec<Token>> = (0..20).map(|_| byte_tokens(b"mississippi")).collect();
    let mut dataset = InMemoryDataset::new(docs);
    let mut state = BpeState::empty();
    let config = plain_config(3);
    dataset.train_vocabulary(&mut state, &config);
    assert!(state.additional_vocab_size() > 3);
    // Every added token decodes to a concatenation of its operands.
    for token in state.tokens() {
        if let Some((l, r)) = state.split_token(token) {
            let mut expected = state.at_token(l).clone();
            expected.extend_from_slice(state.at_token(r));
            assert_eq!(state.at_token(token), &expected);
        }
    }
}

#[test]
fn train_step_stalls_on_empty_corpus() {
    let dataset = InMemoryDataset::new(Vec::new());
    let mut state = BpeState::empty();
    let result = dataset.train_step(&mut state, &plain_config(10));
    assert_eq!(result.new_token_count.into_inner(), 0);
    assert_eq!(state.additional_vocab_size(), 0);
}

#[test]
fn eta_scheduler_values() {
    assert_eq!(EtaScheduler::constant(300_000).for_t(0), 300_000);
    assert_eq!(EtaScheduler::constant(300_000).for_t(SCALE), 300_000);
    let linear = EtaScheduler::linear_transition(200_000, 600_000);
    assert_eq!(linear.for_t(0), 200_000);
    assert_eq!(linear.for_t(SCALE / 2), 400_000);
    assert_eq!(linear.for_t(SCALE), 600_000);
    let down = EtaScheduler::linear_transition(600_000, 200_000);
    assert_eq!(down.for_t(SCALE / 2), 400_000);
    let pw = EtaScheduler::piecewise_linear_two(300_000, [800_000, 800_000, 900_000]);
    assert_eq!(pw.for_t(0), 800_000);
    assert_eq!(pw.for_t(150_000), 800_000);
    assert_eq!(pw.for_t(300_000), 800_000);
    assert_eq!(pw.for_t(650_000), 850_000);
    assert_eq!(pw.for_t(SCALE), 900_000);
    let split_at_end = EtaScheduler::piecewise_linear_two(SCALE, [100_000, 500_000, 900_000]);
    assert_eq!(split_at_end.for_t(SCALE), 500_000);
}

#[test]
fn default_config_is_half_eta_and_no_filters() {
    let config = TrainConfig::default();
    assert_eq!(config.eta.for_t(0), SCALE / 2);
    assert_eq!(config.max_token_length, None);
    assert_eq!(config.target_vocab_size, 50_000);
    assert!(!config.forbidden_patterns.is_match(&b"\xFF".to_vec()));
}

#[test]
fn from_raw_bytes_splits_and_tokenizes() {
    let data = b"ab\xFF\xFFcd\xFF".to_vec();
    let dataset = InMemoryDataset::from_raw_bytes(&data, &Tokenizer::from_rules(Vec::new()));
    let mut hist = TokenHistogram::new();
    dataset.iter().for_each_token_pair(&mut hist);
    assert_eq!(hist.get_pair(Token::new(97), Token::new(98)).into_inner(), 1);
    assert_eq!(hist.get_pair(Token::new(99), Token::new(100)).into_inner(), 1);
    assert_eq!(hist.get_pair(Token::new(98), Token::new(99)).into_inner(), 0);
}
