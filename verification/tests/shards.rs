use oscar_tokenize::{decode_shard, encode_shard, split_on_byte, Token};

#[test]
fn split_on_byte_drops_empty_spans() {
    let data = b"\xFFab\xFF\xFFc\xFF".to_vec();
    let segs = split_on_byte(&data, 0xFF);
    assert_eq!(segs, vec![b"ab".to_vec(), b"c".to_vec()]);
}

#[test]
fn split_on_byte_keeps_trailing_segment() {
    let segs = split_on_byte(&b"ab\xFFcd".to_vec(), 0xFF);
    assert_eq!(segs, vec![b"ab".to_vec(), b"cd".to_vec()]);
    assert_eq!(split_on_byte(&Vec::new(), 0xFF), Vec::<Vec<u8>>::new());
}

#[test]
fn encode_shard_writes_big_endian_with_sentinel() {
    let docs = vec![vec![Token::new(0x0102), Token::new(97)], vec![Token::new(3)]];
    let bytes = encode_shard(&docs);
    assert_eq!(bytes, vec![0x01, 0x02, 0x00, 97, 0xFF, 0xFF, 0x00, 0x03, 0xFF, 0xFF]);
}

#[test]
fn decode_shard_round_trips_nonempty_documents() {
    let docs = vec![vec![Token::new(300), Token::new(5)], vec![Token::new(65534)]];
    let bytes = encode_shard(&docs);
    let decoded = decode_shard(&bytes).expect("even length");
    assert_eq!(decoded, docs);
}

#[test]
fn decode_shard_skips_empty_spans_between_sentinels() {
    let bytes = vec![0xFF, 0xFF, 0x00, 0x07, 0xFF, 0xFF, 0xFF, 0xFF];
    let decoded = decode_shard(&bytes).expect("even length");
    assert_eq!(decoded, vec![vec![Token::new(7)]]);
}

#[test]
fn decode_shard_rejects_odd_length() {
    assert_eq!(decode_shard(&vec![0x00]), None);
}
