use ktask::feed::{
    apply_binance_message, apply_binance_snapshot, MessageOutcome, apply_binance_update, apply_okx_update, binance_update_is_new, classify_depth_update,
    LevelError, LevelFault, RawDepth, UpdateSync,
};
use ktask::order_book::{OrderBook, Side};

fn levels(v: &[(&str, &str)]) -> Vec<(String, String)> {
    v.iter().map(|(p, q)| (p.to_string(), q.to_string())).collect()
}

#[test]
fn binance_message_lands_in_the_book() {
    let mut book = OrderBook::new();
    let msg = RawDepth {
        bids: levels(&[("0.03580", "1.5"), ("0.03579", "0.25")]),
        asks: levels(&[("0.03582", "2")]),
    };
    assert_eq!(apply_binance_update(&mut book, &msg), Ok(()));
    assert_eq!(book.get_spread(), Some((3580, 3582, 2)));
    let bids = book.top_n(Side::Bid, 5);
    assert_eq!(bids[0].source_size("BINANCE"), 1500000);
    assert_eq!(bids[1].total, 250000);
    assert_eq!(book.update_count("BINANCE"), 3);
    let remove = RawDepth { bids: levels(&[("0.03580", "0.000")]), asks: vec![] };
    assert_eq!(apply_binance_update(&mut book, &remove), Ok(()));
    assert_eq!(book.top_n(Side::Bid, 5)[0].price, 3579);
}

#[test]
fn bad_levels_stop_the_message() {
    let mut book = OrderBook::new();
    let msg = RawDepth {
        bids: levels(&[("0.01", "1"), ("x", "1"), ("0.02", "1")]),
        asks: levels(&[("0.03", "1")]),
    };
    assert_eq!(
        apply_binance_update(&mut book, &msg),
        Err(LevelError { side: Side::Bid, index: 1, fault: LevelFault::Price })
    );
    assert_eq!(book.top_n(Side::Bid, 5).len(), 1);
    assert!(book.top_n(Side::Ask, 5).is_empty());
    let msg = RawDepth { bids: vec![], asks: levels(&[("0.03", "1"), ("0.04", "1e")]) };
    assert_eq!(
        apply_binance_update(&mut book, &msg),
        Err(LevelError { side: Side::Ask, index: 1, fault: LevelFault::Size })
    );
    assert_eq!(book.top_n(Side::Ask, 5).len(), 1);
    book.apply_update("OKX", Side::Bid, 1000, 2_000_000_000);
    let msg = RawDepth { bids: levels(&[("0.01", "1000.0")]), asks: vec![] };
    assert_eq!(
        apply_binance_update(&mut book, &msg),
        Err(LevelError { side: Side::Bid, index: 0, fault: LevelFault::Overflow })
    );
}

#[test]
fn okx_uses_first_data_entry() {
    let mut book = OrderBook::new();
    assert_eq!(apply_okx_update(&mut book, &vec![]), Ok(false));
    let data = vec![
        RawDepth { bids: levels(&[("0.0358", "0.5")]), asks: vec![] },
        RawDepth { bids: levels(&[("0.0400", "9")]), asks: vec![] },
    ];
    assert_eq!(apply_okx_update(&mut book, &data), Ok(true));
    let bids = book.top_n(Side::Bid, 5);
    assert_eq!(bids.len(), 1);
    assert_eq!(bids[0].price, 3580);
    assert_eq!(bids[0].source_size("OKX"), 500000);
}

#[test]
fn binance_ids_decide_what_applies() {
    assert!(binance_update_is_new(Some(11), 10));
    assert!(!binance_update_is_new(Some(10), 10));
    assert!(!binance_update_is_new(None, 10));
    assert_eq!(classify_depth_update(5, 10, 10), UpdateSync::Outdated);
    assert_eq!(classify_depth_update(12, 15, 10), UpdateSync::OutOfSync);
    assert_eq!(classify_depth_update(11, 15, 10), UpdateSync::Apply);
    assert_eq!(classify_depth_update(3, 15, 10), UpdateSync::Apply);
    assert_eq!(classify_depth_update(0, 0, u64::MAX), UpdateSync::Outdated);
}

#[test]
fn binance_message_text_is_decoded() {
    let mut book = OrderBook::new();
    let text = r#"{"e":"depthUpdate","U":10,"u":12,"b":[["0.03580","1.5"],["0.03579","0.25"]],"a":[["0.03582","2"]]}"#;
    assert_eq!(apply_binance_message(&mut book, text, 11), Ok(MessageOutcome::Applied));
    assert_eq!(book.get_spread(), Some((3580, 3582, 2)));
    assert_eq!(book.top_n(Side::Bid, 5)[1].source_size("BINANCE"), 250000);
    assert_eq!(book.update_count("BINANCE"), 3);
}

#[test]
fn binance_message_skipped_or_unreadable() {
    let mut book = OrderBook::new();
    let stale = r#"{"u":12,"b":[["0.03580","1.5"]],"a":[]}"#;
    assert_eq!(apply_binance_message(&mut book, stale, 12), Ok(MessageOutcome::Skipped));
    let no_id = r#"{"b":[["0.03580","1.5"]],"a":[]}"#;
    assert_eq!(apply_binance_message(&mut book, no_id, 0), Ok(MessageOutcome::Skipped));
    assert_eq!(apply_binance_message(&mut book, "not json", 0), Ok(MessageOutcome::Unreadable));
    assert!(book.top_n(Side::Bid, 5).is_empty());
    assert_eq!(book.update_count("BINANCE"), 0);
}

#[test]
fn binance_message_with_bad_level() {
    let mut book = OrderBook::new();
    let text = r#"{"u":5,"b":[["0.01","1"],["0.02","2147.483648"]],"a":[["0.03","1"]]}"#;
    assert_eq!(
        apply_binance_message(&mut book, text, 0),
        Err(LevelError { side: Side::Bid, index: 1, fault: LevelFault::Size })
    );
    assert_eq!(book.top_n(Side::Bid, 5).len(), 1);
    assert!(book.top_n(Side::Ask, 5).is_empty());
    // a level that is not a [price, size] pair reads as "null"
    let short = r#"{"u":6,"b":[["0.01"]],"a":[]}"#;
    assert_eq!(
        apply_binance_message(&mut book, short, 0),
        Err(LevelError { side: Side::Bid, index: 0, fault: LevelFault::Size })
    );
}

#[test]
fn binance_snapshot_text_is_decoded() {
    let mut book = OrderBook::new();
    let text = r#"{"lastUpdateId":1027024,"bids":[["0.03580","1.5"]],"asks":[["0.03582","2"],["0.03590","0.5"]]}"#;
    assert_eq!(apply_binance_snapshot(&mut book, text), Ok(Some(1027024)));
    assert_eq!(book.get_spread(), Some((3580, 3582, 2)));
    assert_eq!(book.top_n(Side::Ask, 5).len(), 2);
    let mut other = OrderBook::new();
    assert_eq!(apply_binance_snapshot(&mut other, r#"{"bids":[["0.1","1"]],"asks":[]}"#), Ok(None));
    assert_eq!(apply_binance_snapshot(&mut other, "[1, 2"), Ok(None));
    assert!(other.top_n(Side::Bid, 5).is_empty());
}
