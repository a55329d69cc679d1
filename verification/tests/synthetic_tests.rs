use ktask::synthetic::{Side, SyntheticOrderBook};

#[test]
fn test_add_and_remove_levels() {
    let mut book = SyntheticOrderBook::new();
    book.apply_update("A", Side::Bid, 100, 5);
    book.apply_update("B", Side::Bid, 100, 3);
    assert_eq!(book.level(Side::Bid, 100).unwrap().total, 8);

    book.apply_update("A", Side::Bid, 100, 0);
    assert_eq!(book.level(Side::Bid, 100).unwrap().total, 3);

    book.apply_update("B", Side::Bid, 100, 0);
    assert!(book.level(Side::Bid, 100).is_none());
}

#[test]
fn test_spread_calculation() {
    let mut book = SyntheticOrderBook::new();
    book.apply_update("A", Side::Bid, 99, 5);
    book.apply_update("A", Side::Ask, 101, 4);
    let spread = book.get_spread().unwrap();
    assert_eq!(spread, (99, 101, 2));
}

#[test]
fn test_top_n_levels() {
    let mut book = SyntheticOrderBook::new();
    for i in 90..=100 {
        book.apply_update("A", Side::Bid, i, 1);
        book.apply_update("A", Side::Ask, i + 20, 2);
    }
    let top_bids = book.top_n(Side::Bid, 5);
    let top_asks = book.top_n(Side::Ask, 5);
    assert_eq!(top_bids.len(), 5);
    assert_eq!(top_asks.len(), 5);
    assert!(top_bids[0].price > top_bids[4].price);
    assert!(top_asks[0].price < top_asks[4].price);
}

#[test]
fn synthetic_top_n_exact_prices() {
    let mut book = SyntheticOrderBook::new();
    for i in 90..=100 {
        book.apply_update("A", Side::Bid, i, 1);
        book.apply_update("A", Side::Ask, i + 20, 2);
    }
    let bids: Vec<i32> = book.top_n(Side::Bid, 3).iter().map(|l| l.price).collect();
    let asks: Vec<i32> = book.top_n(Side::Ask, 3).iter().map(|l| l.price).collect();
    assert_eq!(bids, vec![100, 99, 98]);
    assert_eq!(asks, vec![110, 111, 112]);
    assert_eq!(book.top_n(Side::Ask, 50).len(), 11);
    assert!(book.can_apply_update("A", Side::Bid, 100, 7));
}

#[test]
fn synthetic_spread_needs_both_sides() {
    let mut book = SyntheticOrderBook::new();
    assert!(book.get_spread().is_none());
    book.apply_update("MarketA", Side::Ask, 110, 3);
    assert!(book.get_spread().is_none());
    book.apply_update("MarketB", Side::Bid, 105, 4);
    book.apply_update("MarketA", Side::Bid, 100, 5);
    assert_eq!(book.get_spread(), Some((105, 110, 5)));
}
