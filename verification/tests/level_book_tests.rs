use ktask::level_book::{OrderBook, Side};

#[test]
fn add_and_get_levels_bid() {
    let mut ob = OrderBook::new();
    // add bid levels
    assert_eq!(ob.add_level(Side::Bid, 100, 10), None);
    assert_eq!(ob.add_level(Side::Bid, 101, 5), None);
    // best should be 101
    let best = ob.best(Side::Bid).unwrap();
    assert_eq!(best, (101, 5));

    // check ordering
    let levels = ob.levels(Side::Bid);
    assert_eq!(levels, vec![(101, 5), (100, 10)]);

    // update existing level returns previous size
    assert_eq!(ob.add_level(Side::Bid, 100, 15), Some(10));
    assert_eq!(ob.size_at(Side::Bid, 100), Some(15));
}

#[test]
fn add_and_get_levels_ask() {
    let mut ob = OrderBook::new();
    // add ask levels
    assert_eq!(ob.add_level(Side::Ask, 200, 7), None);
    assert_eq!(ob.add_level(Side::Ask, 199, 3), None);
    // best (lowest) should be 199
    let best = ob.best(Side::Ask).unwrap();
    assert_eq!(best, (199, 3));

    // check ordering
    let levels = ob.levels(Side::Ask);
    assert_eq!(levels, vec![(199, 3), (200, 7)]);

    // update existing level returns previous size
    assert_eq!(ob.add_level(Side::Ask, 200, 0), Some(7)); // removing the 200 level
    assert_eq!(ob.size_at(Side::Ask, 200), None);
}

#[test]
fn remove_level_with_zero_size() {
    let mut ob = OrderBook::new();
    ob.add_level(Side::Bid, 50, 12);
    assert_eq!(ob.size_at(Side::Bid, 50), Some(12));
    // remove
    assert_eq!(ob.add_level(Side::Bid, 50, 0), Some(12));
    assert_eq!(ob.size_at(Side::Bid, 50), None);
}

#[test]
fn mixed_sides_independence() {
    let mut ob = OrderBook::new();
    ob.add_level(Side::Bid, 100, 1);
    ob.add_level(Side::Ask, 1000, 2);
    assert_eq!(ob.best(Side::Bid), Some((100, 1)));
    assert_eq!(ob.best(Side::Ask), Some((1000, 2)));
}

#[test]
fn empty_book_has_no_best_and_no_levels() {
    let ob = OrderBook::default();
    assert_eq!(ob.best(Side::Bid), None);
    assert!(ob.levels(Side::Ask).is_empty());
    let mut ob = OrderBook::new();
    assert_eq!(ob.add_level(Side::Ask, 3, 0), None);
    assert!(ob.levels(Side::Ask).is_empty());
}

#[test]
fn levels_walk_many_prices() {
    let mut ob = OrderBook::new();
    for p in [5u32, 1, 9, 3, 7] {
        ob.add_level(Side::Bid, p, p as u64 * 10);
        ob.add_level(Side::Ask, p, 1);
    }
    let bids: Vec<u32> = ob.levels(Side::Bid).iter().map(|l| l.0).collect();
    let asks: Vec<u32> = ob.levels(Side::Ask).iter().map(|l| l.0).collect();
    assert_eq!(bids, vec![9, 7, 5, 3, 1]);
    assert_eq!(asks, vec![1, 3, 5, 7, 9]);
    assert_eq!(ob.best(Side::Bid), Some((9, 90)));
}
