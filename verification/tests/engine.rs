use orderbook::book::{HeapedBook, OrderbookError};
use orderbook::builder::{BuildError, OrderbookBuilder};
use orderbook::exchanges::{AdapterError, DecodeError, ExchangeType, FeedSnapshot};
use orderbook::hash_heap::HashHeap;
use orderbook::levels::{ask_better, bid_better, AskLevel, BidLevel};
use orderbook::server::spread;

const SCALE: u64 = 100_000_000;

#[test]
fn test_ask_ordering() {
    let asks = vec![
        AskLevel { price: SCALE, amount: 7 * SCALE, exchange: ExchangeType::Binance },
        AskLevel { price: 3 * SCALE, amount: 12 * SCALE, exchange: ExchangeType::Binance },
    ];
    assert!(ask_better(&asks[0], &asks[1]));
    assert!(!ask_better(&asks[1], &asks[0]));
}

#[test]
fn test_bids_ordering() {
    let bids = vec![
        BidLevel { price: 4 * SCALE, amount: 2 * SCALE, exchange: ExchangeType::Binance },
        BidLevel { price: SCALE + 4 * SCALE / 10, amount: 8 * SCALE + 4 * SCALE / 10, exchange: ExchangeType::Binance },
    ];
    assert!(bid_better(&bids[0], &bids[1]));
    assert!(!bid_better(&bids[1], &bids[0]));
}

#[test]
fn test_s1_single_venue_single_snapshot() {
    let mut book = HeapedBook::new(2);
    let snap = FeedSnapshot {
        bids: vec![(10 * SCALE, SCALE), (9 * SCALE + SCALE / 2, SCALE), (9 * SCALE, SCALE)],
        asks: vec![(11 * SCALE, SCALE), (11 * SCALE + SCALE / 2, SCALE), (12 * SCALE, SCALE)],
    };
    let (bids, asks) = book.on_snapshot(ExchangeType::Binance, &snap);
    assert_eq!(
        bids,
        vec![
            BidLevel { price: 10 * SCALE, amount: SCALE, exchange: ExchangeType::Binance },
            BidLevel { price: 9 * SCALE + SCALE / 2, amount: SCALE, exchange: ExchangeType::Binance },
        ]
    );
    assert_eq!(
        asks,
        vec![
            AskLevel { price: 11 * SCALE, amount: SCALE, exchange: ExchangeType::Binance },
            AskLevel { price: 11 * SCALE + SCALE / 2, amount: SCALE, exchange: ExchangeType::Binance },
        ]
    );
    assert_eq!(spread(&bids, &asks), SCALE as i128);
}

#[test]
fn test_s2_two_venues_interleave() {
    let mut book = HeapedBook::new(3);
    let first = FeedSnapshot { bids: vec![(10 * SCALE, SCALE), (9 * SCALE, SCALE)], asks: vec![] };
    book.on_snapshot(ExchangeType::Binance, &first);
    let second = FeedSnapshot {
        bids: vec![(10 * SCALE + SCALE / 2, 2 * SCALE), (8 * SCALE + SCALE / 2, SCALE)],
        asks: vec![],
    };
    let (bids, _asks) = book.on_snapshot(ExchangeType::Bitstamp, &second);
    assert_eq!(
        bids,
        vec![
            BidLevel { price: 10 * SCALE + SCALE / 2, amount: 2 * SCALE, exchange: ExchangeType::Bitstamp },
            BidLevel { price: 10 * SCALE, amount: SCALE, exchange: ExchangeType::Binance },
            BidLevel { price: 9 * SCALE, amount: SCALE, exchange: ExchangeType::Binance },
        ]
    );
}

#[test]
fn test_s3_refresh_displaces_stale() {
    let mut book = HeapedBook::new(2);
    let first = FeedSnapshot {
        bids: vec![],
        asks: vec![(11 * SCALE, SCALE), (11 * SCALE + SCALE / 2, SCALE)],
    };
    book.on_snapshot(ExchangeType::Bitstamp, &first);
    let second = FeedSnapshot {
        bids: vec![],
        asks: vec![(12 * SCALE, SCALE), (12 * SCALE + SCALE / 2, SCALE)],
    };
    let (_bids, asks) = book.on_snapshot(ExchangeType::Bitstamp, &second);
    assert_eq!(
        asks,
        vec![
            AskLevel { price: 12 * SCALE, amount: SCALE, exchange: ExchangeType::Bitstamp },
            AskLevel { price: 12 * SCALE + SCALE / 2, amount: SCALE, exchange: ExchangeType::Bitstamp },
        ]
    );
}

#[test]
fn test_s4_disconnect_tolerance() {
    let mut book = HeapedBook::new(2);
    let good = FeedSnapshot { bids: vec![(10 * SCALE, SCALE)], asks: vec![(11 * SCALE, SCALE)] };
    let later = FeedSnapshot { bids: vec![(9 * SCALE, SCALE)], asks: vec![(12 * SCALE, SCALE)] };
    let events = vec![
        (ExchangeType::Binance, Ok(good)),
        (ExchangeType::Binance, Err(AdapterError::Disconnected)),
        (ExchangeType::Bitstamp, Ok(later)),
    ];
    let outs = book.collect_events(events);
    assert_eq!(outs.len(), 3);
    assert!(outs[0].is_ok());
    assert_eq!(
        outs[1],
        Err(OrderbookError::Adapter(AdapterError::Disconnected))
    );
    let (bids, asks) = outs[2].as_ref().unwrap();
    // the Binance levels survive its disconnect; Bitstamp keeps merging
    assert_eq!(bids.len(), 2);
    assert_eq!(asks.len(), 2);
    assert_eq!(bids[0].exchange, ExchangeType::Binance);
    assert_eq!(bids[1].exchange, ExchangeType::Bitstamp);
}

#[test]
fn test_s5_bad_frame_tolerance() {
    let mut book = HeapedBook::new(2);
    let good = FeedSnapshot { bids: vec![(10 * SCALE, SCALE)], asks: vec![(11 * SCALE, SCALE)] };
    let good2 = good.clone();
    let events = vec![
        (ExchangeType::Binance, Ok(good)),
        (ExchangeType::Binance, Err(AdapterError::Decode(DecodeError::BadFrame))),
        (ExchangeType::Binance, Ok(good2)),
    ];
    let outs = book.collect_events(events);
    assert_eq!(outs.len(), 3);
    assert!(outs[0].is_ok());
    assert_eq!(
        outs[1],
        Err(OrderbookError::Adapter(AdapterError::Decode(DecodeError::BadFrame)))
    );
    assert!(outs[2].is_ok());
}

#[test]
fn test_stream_end_cancelled() {
    let mut book = HeapedBook::new(2);
    let snap = FeedSnapshot { bids: vec![(10 * SCALE, SCALE)], asks: vec![(11 * SCALE, SCALE)] };
    let out = book.on_event(Some((ExchangeType::Binance, Ok(snap))));
    assert!(out.is_ok());
    // multiplexer exhaustion: the merged stream ends with a terminal error
    let out = book.on_event(None);
    assert_eq!(out, Err(OrderbookError::StreamCancelled));
    // the book itself is untouched by the terminal event
    let (bids, _) = book.on_snapshot(
        ExchangeType::Bitstamp,
        &FeedSnapshot { bids: vec![(9 * SCALE, SCALE)], asks: vec![] },
    );
    assert_eq!(bids.len(), 2);
}

#[test]
fn test_handshake_error_forwarded() {
    let mut book = HeapedBook::new(2);
    let events = vec![(ExchangeType::Bitstamp, Err(AdapterError::Handshake))];
    let outs = book.collect_events(events);
    assert_eq!(outs, vec![Err(OrderbookError::Adapter(AdapterError::Handshake))]);
}

#[test]
fn test_amount_update_same_price() {
    let mut book = HeapedBook::new(3);
    let first = FeedSnapshot { bids: vec![(10 * SCALE, SCALE)], asks: vec![] };
    book.on_snapshot(ExchangeType::Binance, &first);
    let second = FeedSnapshot { bids: vec![(10 * SCALE, 5 * SCALE)], asks: vec![] };
    let (bids, _) = book.on_snapshot(ExchangeType::Binance, &second);
    assert_eq!(
        bids,
        vec![BidLevel { price: 10 * SCALE, amount: 5 * SCALE, exchange: ExchangeType::Binance }]
    );
}

#[test]
fn test_dedup_within_snapshot_last_wins() {
    let mut book = HeapedBook::new(3);
    let snap = FeedSnapshot {
        bids: vec![(10 * SCALE, SCALE), (10 * SCALE, 4 * SCALE)],
        asks: vec![],
    };
    let (bids, _) = book.on_snapshot(ExchangeType::Binance, &snap);
    assert_eq!(
        bids,
        vec![BidLevel { price: 10 * SCALE, amount: 4 * SCALE, exchange: ExchangeType::Binance }]
    );
}

#[test]
fn test_same_price_both_venues_kept() {
    let mut book = HeapedBook::new(3);
    let a = FeedSnapshot { bids: vec![(10 * SCALE, SCALE)], asks: vec![] };
    let b = FeedSnapshot { bids: vec![(10 * SCALE, 2 * SCALE)], asks: vec![] };
    book.on_snapshot(ExchangeType::Binance, &a);
    let (bids, _) = book.on_snapshot(ExchangeType::Bitstamp, &b);
    assert_eq!(bids.len(), 2);
    assert_eq!(bids[0].exchange, ExchangeType::Binance);
    assert_eq!(bids[1].exchange, ExchangeType::Bitstamp);
}

#[test]
fn test_orderbook() {
    // a full merged book at depth 10 with a positive spread
    let builder = OrderbookBuilder::<orderbook::builder::Empty>::new();
    let venues = vec![ExchangeType::Binance, ExchangeType::Bitstamp];
    let builder = builder
        .with_max_depth(10)
        .with_symbol(b"ethbtc".to_vec())
        .with_exchanges(&venues);
    let mut book = builder.build().unwrap();
    let mut bids: Vec<(u64, u64)> = Vec::new();
    let mut asks: Vec<(u64, u64)> = Vec::new();
    for k in 0..12u64 {
        bids.push((100 * SCALE - k * SCALE, SCALE));
        asks.push((101 * SCALE + k * SCALE, SCALE));
    }
    let snap = FeedSnapshot { bids, asks };
    let (mb, ma) = book.on_snapshot(ExchangeType::Binance, &snap);
    assert!(mb.len() == 10);
    assert!(ma.len() == 10);
    let s = spread(&mb, &ma);
    assert!(s > 0);
    assert_eq!(s, SCALE as i128);
}

#[test]
fn test_builder_rejects_bad_config() {
    let venues = vec![ExchangeType::Binance];
    let b = OrderbookBuilder::<orderbook::builder::Empty>::new()
        .with_max_depth(0)
        .with_symbol(b"ethbtc".to_vec())
        .with_exchanges(&venues);
    assert_eq!(b.build().err(), Some(BuildError::DepthNotPositive));
    let none: Vec<ExchangeType> = Vec::new();
    let b = OrderbookBuilder::<orderbook::builder::Empty>::new()
        .with_max_depth(5)
        .with_symbol(b"ethbtc".to_vec())
        .with_exchanges(&none);
    assert_eq!(b.build().err(), Some(BuildError::NoExchanges));
}

#[test]
fn test_builder_dedups_venues() {
    let venues = vec![ExchangeType::Binance, ExchangeType::Binance, ExchangeType::Bitstamp];
    let b = OrderbookBuilder::<orderbook::builder::Empty>::new()
        .with_max_depth(5)
        .with_symbol(b"ethbtc".to_vec())
        .with_exchanges(&venues);
    assert_eq!(b.exchanges.len(), 2);
}

#[test]
fn test_hash_heap_keeps_best_and_rejects_duplicates() {
    let mut h: HashHeap<u32> = HashHeap::with_capacity(2);
    assert!(h.insert(30, 300));
    assert!(h.insert(10, 100));
    assert!(!h.insert(10, 999));
    assert_eq!(h.into_sorted_vec(), vec![100, 300]);
    assert!(h.insert(20, 200));
    // capacity two: the worst key (30) is dropped
    assert_eq!(h.into_sorted_vec(), vec![100, 200]);
    assert_eq!(h.len(), 2);
}

#[test]
fn test_spread_negative_when_crossed() {
    let bids = vec![BidLevel { price: 12 * SCALE, amount: SCALE, exchange: ExchangeType::Binance }];
    let asks = vec![AskLevel { price: 11 * SCALE, amount: SCALE, exchange: ExchangeType::Bitstamp }];
    assert_eq!(spread(&bids, &asks), -(SCALE as i128));
}
