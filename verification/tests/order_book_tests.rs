use ktask::order_book::{OrderBook, Side};
use ktask::snapshot::Fraction;

#[test]
fn example_flow() {
    let mut book = OrderBook::new();

    // Market A posts a bid at 100 size 5
    book.apply_update("MarketA", Side::Bid, 100, 5);
    // Market B posts a bid at same price 100 size 3
    book.apply_update("MarketB", Side::Bid, 100, 3);
    // Combined at 100 should be 8
    let top_bids = book.top_n(Side::Bid, 10);
    assert_eq!(top_bids.len(), 1);
    assert_eq!(top_bids[0].price, 100);
    assert_eq!(top_bids[0].total, 8);

    // Market A deletes its 100 bid (size 0) -> remaining should be MarketB's 3
    book.apply_update("MarketA", Side::Bid, 100, 0);
    let top_bids = book.top_n(Side::Bid, 10);
    assert_eq!(top_bids.len(), 1);
    assert_eq!(top_bids[0].total, 3);

    // Market B deletes too -> book empty
    book.apply_update("MarketB", Side::Bid, 100, 0);
    assert!(book.top_n(Side::Bid, 10).is_empty());

    // add asks
    book.apply_update("MarketA", Side::Ask, 101, 2);
    book.apply_update("MarketB", Side::Ask, 102, 1);
    // no bids yet, so spread should be None
    assert!(book.get_spread().is_none());

    // add a bid to get a spread
    book.apply_update("MarketA", Side::Bid, 100, 1);
    let s = book.get_spread().expect("now both exist");
    assert!(s.2 > 0);
}

fn sample_book() -> OrderBook {
    let mut book = OrderBook::new();
    book.apply_update("A", Side::Bid, 100000, 5);
    book.apply_update("B", Side::Bid, 99960, 3);
    book.apply_update("A", Side::Bid, 99900, 2);
    book.apply_update("A", Side::Ask, 100010, 4);
    book.apply_update("B", Side::Ask, 100040, 6);
    book.apply_update("B", Side::Ask, 100100, 1);
    book
}

#[test]
fn top_n_orders_each_side_from_the_best() {
    let book = sample_book();
    let bids: Vec<i32> = book.top_n(Side::Bid, 10).iter().map(|l| l.price).collect();
    let asks: Vec<i32> = book.top_n(Side::Ask, 2).iter().map(|l| l.price).collect();
    assert_eq!(bids, vec![100000, 99960, 99900]);
    assert_eq!(asks, vec![100010, 100040]);
    assert!(book.top_n(Side::Ask, 0).is_empty());
}

#[test]
fn level_total_sums_sources() {
    let mut book = OrderBook::new();
    book.apply_update("A", Side::Ask, 50, 7);
    book.apply_update("B", Side::Ask, 50, 11);
    book.apply_update("A", Side::Ask, 50, 2);
    let lvl = &book.top_n(Side::Ask, 1)[0];
    assert_eq!(lvl.total, 13);
    assert_eq!(lvl.source_size("A"), 2);
    assert_eq!(lvl.source_size("B"), 11);
    assert_eq!(lvl.source_size("C"), 0);
    assert_eq!(lvl.by_source.len(), 2);
}

#[test]
fn withdrawing_an_absent_source_keeps_the_level() {
    let mut book = OrderBook::new();
    book.apply_update("A", Side::Bid, 10, 4);
    book.apply_update("B", Side::Bid, 10, 0);
    assert_eq!(book.top_n(Side::Bid, 5)[0].total, 4);
    book.apply_update("B", Side::Bid, 11, 0);
    assert_eq!(book.top_n(Side::Bid, 5).len(), 1);
}

#[test]
fn update_counts_follow_non_zero_reports() {
    let mut book = OrderBook::new();
    book.apply_update("BINANCE", Side::Bid, 10, 4);
    book.apply_update("BINANCE", Side::Bid, 10, 0);
    book.apply_update("BINANCE", Side::Ask, 12, 1);
    book.apply_update("OKX", Side::Ask, 12, 2);
    assert_eq!(book.update_count("BINANCE"), 2);
    assert_eq!(book.update_count("OKX"), 1);
    assert_eq!(book.update_count("OTHER"), 0);
}

#[test]
fn overflowing_reports_are_refused_by_the_check() {
    let mut book = OrderBook::new();
    book.apply_update("A", Side::Bid, 10, i32::MAX);
    assert!(!book.can_apply_update("B", Side::Bid, 10, 1));
    assert!(book.can_apply_update("B", Side::Bid, 10, -1));
    assert!(book.can_apply_update("B", Side::Bid, 11, i32::MAX));
    assert!(book.can_apply_update("A", Side::Bid, 10, 0));
    assert!(book.can_get_spread());
}

#[test]
fn spread_check_spots_overflow() {
    let mut book = OrderBook::new();
    book.apply_update("A", Side::Bid, -2, 1);
    book.apply_update("A", Side::Ask, i32::MAX, 1);
    assert!(!book.can_get_spread());
    book.apply_update("A", Side::Bid, 5, 1);
    assert!(book.can_get_spread());
    assert_eq!(book.get_spread(), Some((5, i32::MAX, i32::MAX - 5)));
}

#[test]
fn snapshot_figures() {
    let book = sample_book();
    let s = book.create_snapshot(5).expect("clock readable");
    assert_eq!(s.best_bid, Some(100000));
    assert_eq!(s.best_ask, Some(100010));
    assert_eq!(s.spread, Some(10));
    assert_eq!(s.mid_price, Some(100005));
    assert_eq!(s.bids.len(), 3);
    assert_eq!(s.asks.len(), 3);
    assert_eq!(s.total_bid_volume, 10);
    assert_eq!(s.total_ask_volume, 11);
    assert_eq!(s.vwap_bid, Some(Fraction { num: 100000 * 5 + 99960 * 3 + 99900 * 2, den: 10 }));
    assert_eq!(s.vwap_ask, Some(Fraction { num: 100010 * 4 + 100040 * 6 + 100100, den: 11 }));
    // mid 100005: 5 bps is an offset of 50, 10 bps one of 100
    assert_eq!(s.depth_bid_5bps, 8);
    assert_eq!(s.depth_ask_5bps, 10);
    assert_eq!(s.depth_bid_10bps, 8);
    assert_eq!(s.depth_ask_10bps, 11);
    assert_eq!(s.imbalance, Some(Fraction { num: 10, den: 21 }));
    assert_eq!(s.update_counts.len(), 2);
    assert!(s.timestamp.nanos < 1_000_000_000);
    assert!(s.timestamp.secs > 1_600_000_000);
}

#[test]
fn depth_is_measured_from_the_mid() {
    let mut book = OrderBook::new();
    book.apply_update("A", Side::Bid, 100, 1);
    book.apply_update("A", Side::Ask, 110, 1);
    // mid 105, offset 0: neither best price lies within it
    assert_eq!(book.calculate_depth(Side::Bid, 5), Some(0));
    assert_eq!(book.calculate_depth(Side::Ask, 5), Some(0));
    // 1000 bps of 105 is 10: the bid at 100 lies at 95 or above, the ask at 110 within 115
    assert_eq!(book.calculate_depth(Side::Bid, 1000), Some(1));
    assert_eq!(book.calculate_depth(Side::Ask, 1000), Some(1));
    // 500 bps is 5 (5.25 cut toward zero): 100 is at the edge, 110 too
    assert_eq!(book.calculate_depth(Side::Bid, 500), Some(1));
    assert_eq!(book.calculate_depth(Side::Ask, 500), Some(1));
    assert_eq!(book.calculate_depth(Side::Bid, 400), Some(0));
}

#[test]
fn snapshot_of_an_empty_book() {
    let book = OrderBook::new();
    let s = book.create_snapshot(5).expect("clock readable");
    assert_eq!(s.spread, None);
    assert_eq!(s.mid_price, None);
    assert!(s.bids.is_empty() && s.asks.is_empty());
    assert_eq!(s.total_bid_volume, 0);
    assert_eq!(s.vwap_bid, None);
    assert_eq!(s.depth_ask_10bps, 0);
    assert_eq!(s.imbalance, None);
}

#[test]
fn mid_price_rounds_toward_zero() {
    let mut book = OrderBook::new();
    book.apply_update("A", Side::Bid, -3, 1);
    book.apply_update("A", Side::Ask, 0, 1);
    let s = book.create_snapshot(1).expect("clock readable");
    assert_eq!(s.mid_price, Some(-1));
    let mut book = OrderBook::new();
    book.apply_update("A", Side::Bid, 3, 1);
    book.apply_update("A", Side::Ask, 4, 1);
    assert_eq!(book.create_snapshot(1).expect("clock readable").mid_price, Some(3));
}

#[test]
fn vwap_and_depth_functions() {
    let book = sample_book();
    assert_eq!(book.calculate_vwap(Side::Bid, 1), Some(Fraction { num: 500000, den: 5 }));
    assert_eq!(book.total_volume(Side::Ask, 2), 10);
    assert_eq!(book.calculate_depth(Side::Bid, 5), Some(8));
    assert_eq!(OrderBook::new().calculate_depth(Side::Bid, 5), None);
    let mut zero = OrderBook::new();
    zero.apply_update("A", Side::Bid, 10, 3);
    zero.apply_update("B", Side::Bid, 10, -3);
    assert_eq!(zero.calculate_vwap(Side::Bid, 3), None);
}

#[test]
fn report_then_withdraw_restores_levels() {
    let mut book = sample_book();
    let before = book.top_n(Side::Bid, 10);
    book.apply_update("C", Side::Bid, 99960, 9);
    book.apply_update("C", Side::Bid, 99960, 0);
    let after = book.top_n(Side::Bid, 10);
    assert_eq!(before.len(), after.len());
    for (x, y) in before.iter().zip(after.iter()) {
        assert_eq!((x.price, x.total), (y.price, y.total));
    }
}

#[test]
fn repeating_a_report_changes_nothing() {
    let mut once = sample_book();
    once.apply_update("A", Side::Ask, 100040, 8);
    let mut twice = sample_book();
    twice.apply_update("A", Side::Ask, 100040, 8);
    twice.apply_update("A", Side::Ask, 100040, 8);
    let a: Vec<(i32, i32)> = once.top_n(Side::Ask, 10).iter().map(|l| (l.price, l.total)).collect();
    let b: Vec<(i32, i32)> = twice.top_n(Side::Ask, 10).iter().map(|l| (l.price, l.total)).collect();
    assert_eq!(a, b);
}

#[test]
fn reports_from_two_sources_commute() {
    let mut x = sample_book();
    x.apply_update("A", Side::Bid, 99960, 1);
    x.apply_update("B", Side::Bid, 99960, 0);
    let mut y = sample_book();
    y.apply_update("B", Side::Bid, 99960, 0);
    y.apply_update("A", Side::Bid, 99960, 1);
    let a: Vec<(i32, i32)> = x.top_n(Side::Bid, 10).iter().map(|l| (l.price, l.total)).collect();
    let b: Vec<(i32, i32)> = y.top_n(Side::Bid, 10).iter().map(|l| (l.price, l.total)).collect();
    assert_eq!(a, b);
}

#[test]
fn clock_reads_the_current_time() {
    let t = ktask::clock::now().expect("clock readable");
    assert!(t.secs > 1_600_000_000);
    assert!(t.nanos < 1_000_000_000);
}
