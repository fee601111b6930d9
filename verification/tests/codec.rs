use orderbook::codec::{
    decode_binance, decode_bitstamp, encode_binance, encode_bitstamp, parse_number,
};
use orderbook::exchanges::{Bitstamp, DecodeError, FeedSnapshot};

const SCALE: u64 = 100_000_000;

#[test]
fn test_parse_number_exact() {
    let s: Vec<u8> = b"10.5".to_vec();
    assert_eq!(parse_number(&s, 0, 4), Ok(10 * SCALE + 5 * SCALE / 10));
    let s: Vec<u8> = b"0.00000001".to_vec();
    assert_eq!(parse_number(&s, 0, 10), Ok(1));
    let s: Vec<u8> = b"7".to_vec();
    assert_eq!(parse_number(&s, 0, 1), Ok(7 * SCALE));
}

#[test]
fn test_parse_number_rejects() {
    let s: Vec<u8> = b"1.123456789".to_vec();
    assert_eq!(parse_number(&s, 0, s.len()), Err(DecodeError::BadNumber));
    let s: Vec<u8> = b"abc".to_vec();
    assert_eq!(parse_number(&s, 0, 3), Err(DecodeError::BadNumber));
    let s: Vec<u8> = b"".to_vec();
    assert_eq!(parse_number(&s, 0, 0), Err(DecodeError::BadNumber));
    // more than u64::MAX / 10^8 whole units cannot be represented
    let s: Vec<u8> = b"184467440738".to_vec();
    assert_eq!(parse_number(&s, 0, s.len()), Err(DecodeError::BadNumber));
    let s: Vec<u8> = b"1.".to_vec();
    assert_eq!(parse_number(&s, 0, 2), Err(DecodeError::BadNumber));
}

#[test]
fn test_decode_binance_basic() {
    let raw: Vec<u8> = br#"{"bids":[["10.0","1.0"],["9.5","1.0"]],"asks":[["11.0","2.0"]]}"#.to_vec();
    let snap = decode_binance(&raw).unwrap();
    assert_eq!(snap.bids, vec![(10 * SCALE, SCALE), (9 * SCALE + SCALE / 2, SCALE)]);
    assert_eq!(snap.asks, vec![(11 * SCALE, 2 * SCALE)]);
}

#[test]
fn test_decode_binance_unknown_keys() {
    let raw: Vec<u8> = br#"{"lastUpdateId":160,"bids":[["0.0024","10"]],"asks":[["0.0026","100"]]}"#
        .to_vec();
    let snap = decode_binance(&raw).unwrap();
    assert_eq!(snap.bids, vec![(24 * SCALE / 10000, 10 * SCALE)]);
    assert_eq!(snap.asks, vec![(26 * SCALE / 10000, 100 * SCALE)]);
}

#[test]
fn test_decode_binance_empty_sides() {
    let raw: Vec<u8> = br#"{"bids":[],"asks":[]}"#.to_vec();
    let snap = decode_binance(&raw).unwrap();
    assert!(snap.bids.is_empty());
    assert!(snap.asks.is_empty());
}

#[test]
fn test_decode_bad_number() {
    let raw: Vec<u8> = br#"{"bids":[["x","1"]],"asks":[]}"#.to_vec();
    assert_eq!(decode_binance(&raw), Err(DecodeError::BadNumber));
}

#[test]
fn test_decode_bad_frame() {
    let raw: Vec<u8> = br#"{"bids":[[1,2]],"asks":[]}"#.to_vec();
    assert_eq!(decode_binance(&raw), Err(DecodeError::BadFrame));
    let raw: Vec<u8> = br#"{"bids":[["1","2"]]"#.to_vec();
    assert_eq!(decode_binance(&raw), Err(DecodeError::BadFrame));
    let raw: Vec<u8> = br#"{"asks":[]}"#.to_vec();
    assert_eq!(decode_binance(&raw), Err(DecodeError::BadFrame));
    let raw: Vec<u8> = b"not json".to_vec();
    assert_eq!(decode_binance(&raw), Err(DecodeError::BadFrame));
}

#[test]
fn test_decode_bitstamp_basic() {
    let raw: Vec<u8> =
        br#"{"data":{"timestamp":"1652104891","bids":[["1.5","2"]],"asks":[["2.5","1"]]},"channel":"order_book_ethbtc","event":"data"}"#
        .to_vec();
    let snap = decode_bitstamp(&raw).unwrap();
    assert_eq!(snap.bids, vec![(15 * SCALE / 10, 2 * SCALE)]);
    assert_eq!(snap.asks, vec![(25 * SCALE / 10, SCALE)]);
}

#[test]
fn test_decode_bitstamp_missing_data() {
    let raw: Vec<u8> = br#"{"event":"data"}"#.to_vec();
    assert_eq!(decode_bitstamp(&raw), Err(DecodeError::BadFrame));
}

#[test]
fn test_roundtrip_binance() {
    let snap = FeedSnapshot {
        bids: vec![(10 * SCALE, SCALE), (9 * SCALE + SCALE / 2, 3 * SCALE), (1, 2)],
        asks: vec![(11 * SCALE, SCALE), (u64::MAX, u64::MAX)],
    };
    let encoded = encode_binance(&snap);
    let decoded = decode_binance(&encoded).unwrap();
    assert_eq!(decoded, snap);
}

#[test]
fn test_roundtrip_binance_empty() {
    let snap = FeedSnapshot { bids: vec![], asks: vec![] };
    let decoded = decode_binance(&encode_binance(&snap)).unwrap();
    assert_eq!(decoded, snap);
}

#[test]
fn test_roundtrip_bitstamp() {
    let snap = FeedSnapshot {
        bids: vec![(2 * SCALE, 7 * SCALE)],
        asks: vec![(3 * SCALE, 12 * SCALE), (4 * SCALE, 1)],
    };
    let decoded = decode_bitstamp(&encode_bitstamp(&snap)).unwrap();
    assert_eq!(decoded, snap);
}

#[test]
fn test_encode_is_canonical_text() {
    let snap = FeedSnapshot { bids: vec![(10 * SCALE, SCALE)], asks: vec![] };
    let encoded = encode_binance(&snap);
    assert_eq!(
        String::from_utf8(encoded).unwrap(),
        r#"{"bids":[["10.00000000","1.00000000"]],"asks":[]}"#
    );
}

#[test]
fn test_bitstamp_ack() {
    let ok: Vec<u8> =
        br#"{"event":"bts:subscription_succeeded","channel":"order_book_ethbtc","data":{}}"#
        .to_vec();
    assert!(Bitstamp::subscription_confirmed(&ok));
    let no: Vec<u8> = br#"{"event":"data"}"#.to_vec();
    assert!(!Bitstamp::subscription_confirmed(&no));
    let junk: Vec<u8> = b"hello".to_vec();
    assert!(!Bitstamp::subscription_confirmed(&junk));
}
