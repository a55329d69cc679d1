use ktask::order_book::{OrderBook, Side};
use ktask::publish::{price_update, topic_allowed, PublishedLevel};

#[test]
fn only_the_prices_topic_is_served() {
    assert!(topic_allowed("prices"));
    assert!(!topic_allowed("news"));
    assert!(!topic_allowed("prices "));
    assert!(!topic_allowed(""));
}

#[test]
fn price_update_lists_asks_high_to_low_above_bids() {
    let mut book = OrderBook::new();
    for i in 0..12 {
        book.apply_update("A", Side::Bid, 100 - i, 1 + i);
        book.apply_update("B", Side::Ask, 101 + i, 2);
    }
    let u = price_update(&book);
    assert_eq!(u.spread, 1);
    assert_eq!(u.bids.len(), 10);
    assert_eq!(u.asks.len(), 10);
    assert_eq!(u.bids[0], PublishedLevel { price: 100, size: 1 });
    assert_eq!(u.bids[9], PublishedLevel { price: 91, size: 10 });
    assert_eq!(u.asks[0], PublishedLevel { price: 110, size: 2 });
    assert_eq!(u.asks[9], PublishedLevel { price: 101, size: 2 });
}
