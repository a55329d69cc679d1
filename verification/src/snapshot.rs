use vstd::prelude::*;
use crate::ladder::{
    highest_price, is_top_levels, lemma_highest_is, lemma_lowest_is,
    lowest_price, top_prices,
};
use crate::order_book::{OrderBook, PriceLevelSnapshot, Side};
use crate::tally::{as_map, distinct_names, entries, map_sum};
use crate::clock::{now, Timestamp};

verus! {

/// `num / den`, kept as two integers; readers that want a real number divide.
#[derive(Debug, Clone, Copy, PartialEq, Eq, Structural)]
pub struct Fraction {
    pub num: i128,
    pub den: i128,
}

/// Sum of the level totals at prices `ps`.
pub open spec fn prices_volume(v: Map<i32, Map<Seq<char>, i32>>, ps: Seq<i32>) -> int
    decreases ps.len(),
{
    if ps.len() == 0 {
        0
    } else {
        prices_volume(v, ps.drop_last()) + map_sum(v[ps.last()])
    }
}

/// Sum of price times level total at prices `ps`.
pub open spec fn prices_notional(v: Map<i32, Map<Seq<char>, i32>>, ps: Seq<i32>) -> int
    decreases ps.len(),
{
    if ps.len() == 0 {
        0
    } else {
        prices_notional(v, ps.drop_last()) + ps.last() * map_sum(v[ps.last()])
    }
}

/// Volume of the best `n` levels of side `v`.
pub open spec fn top_volume(v: Map<i32, Map<Seq<char>, i32>>, side: Side, n: nat) -> int {
    prices_volume(v, top_prices(v.dom(), side, n))
}

/// Volume-weighted average price of the best `n` levels, as notional over
/// volume; none when there are no levels or their volume is zero.
pub open spec fn vwap_of(v: Map<i32, Map<Seq<char>, i32>>, side: Side, n: nat) -> Option<Fraction> {
    let ps = top_prices(v.dom(), side, n);
    if ps.len() == 0 || prices_volume(v, ps) == 0 {
        None
    } else {
        Some(Fraction { num: prices_notional(v, ps) as i128, den: prices_volume(v, ps) as i128 })
    }
}

/// Volume and notional of copied levels, summed in `i128`, which no count of
/// `i32` levels that fits in memory can overflow.
fn level_sums(snaps: &Vec<PriceLevelSnapshot>, Ghost(v): Ghost<Map<i32, Map<Seq<char>, i32>>>, Ghost(ps): Ghost<Seq<i32>>) -> (r: (i128, i128))
    requires
        snaps@.len() == ps.len(),
        forall|i: int|
            0 <= i < snaps@.len() ==> {
                &&& (#[trigger] snaps@[i]).price == ps[i]
                &&& v.contains_key(snaps@[i].price)
                &&& snaps@[i].sources() == v[snaps@[i].price]
                &&& snaps@[i].wf()
            },
    ensures
        r.0 == prices_volume(v, ps),
        r.1 == prices_notional(v, ps),
        -0x80_0000_0000_0000_0000_0000_0000 <= r.0 <= 0x80_0000_0000_0000_0000_0000_0000,
{
    let mut vol: i128 = 0;
    let mut notional: i128 = 0;
    let mut i: usize = 0;
    let len = snaps.len();
    while i < len
        invariant
            len == snaps@.len(),
            snaps@.len() == ps.len(),
            forall|k: int|
                0 <= k < snaps@.len() ==> {
                    &&& (#[trigger] snaps@[k]).price == ps[k]
                    &&& v.contains_key(snaps@[k].price)
                    &&& snaps@[k].sources() == v[snaps@[k].price]
                    &&& snaps@[k].wf()
                },
            0 <= i <= len,
            vol == prices_volume(v, ps.take(i as int)),
            notional == prices_notional(v, ps.take(i as int)),
            -(i as int) * 0x8000_0000 <= vol <= (i as int) * 0x8000_0000,
            -(i as int) * 0x4000_0000_0000_0000 <= notional <= (i as int) * 0x4000_0000_0000_0000,
        decreases len - i,
    {
        let p = snaps[i].price;
        let t = snaps[i].total;
        assert(ps.take(i + 1).drop_last() =~= ps.take(i as int));
        assert(ps.take(i + 1).last() == p);
        assert(t == map_sum(v[p]));
        assert(-0x4000_0000_0000_0000 <= p * t <= 0x4000_0000_0000_0000) by (nonlinear_arith)
            requires
                i32::MIN <= p <= i32::MAX,
                i32::MIN <= t <= i32::MAX,
        ;
        let pt: i64 = p as i64 * t as i64;
        assert(i < 0x1_0000_0000_0000_0000);
        vol = vol + t as i128;
        notional = notional + pt as i128;
        i = i + 1;
    }
    assert(ps.take(len as int) =~= ps);
    assert(len < 0x1_0000_0000_0000_0000);
    (vol, notional)
}

/// The book's state as served to readers: best prices, the best `depth`
/// levels of each side and figures computed over them. Ratios are kept as
/// integer fractions.
#[derive(Debug)]
pub struct OrderBookSnapshot {
    pub timestamp: Timestamp,
    pub spread: Option<i32>,
    pub best_bid: Option<i32>,
    pub best_ask: Option<i32>,
    pub mid_price: Option<i32>,
    pub bids: Vec<PriceLevelSnapshot>,
    pub asks: Vec<PriceLevelSnapshot>,
    pub total_bid_volume: i128,
    pub total_ask_volume: i128,
    pub update_counts: Vec<(String, i32)>,
    pub vwap_bid: Option<Fraction>,
    pub vwap_ask: Option<Fraction>,
    pub depth_bid_5bps: i128,
    pub depth_ask_5bps: i128,
    pub depth_bid_10bps: i128,
    pub depth_ask_10bps: i128,
    pub imbalance: Option<Fraction>,
}

/// Share of the bid volume in the volume of both sides, where that is positive.
pub open spec fn imbalance_of(bid_volume: int, ask_volume: int) -> Option<Fraction> {
    if bid_volume + ask_volume > 0 {
        Some(Fraction { num: bid_volume as i128, den: (bid_volume + ask_volume) as i128 })
    } else {
        None
    }
}

pub open spec fn depth_or_zero(d: Option<int>) -> int {
    match d {
        Some(x) => x,
        None => 0,
    }
}

/// `x / d` rounded toward zero, as integer division does.
pub open spec fn trunc_div(x: int, d: int) -> int {
    if x >= 0 {
        x / d
    } else {
        -((-x) / d)
    }
}

/// `x` clamped into the range of `i32`.
pub open spec fn saturate_i32(x: int) -> int {
    if x < i32::MIN {
        i32::MIN as int
    } else if x > i32::MAX {
        i32::MAX as int
    } else {
        x
    }
}

/// The price `bps` basis points of the mid price away from the mid price,
/// into `side`: below the mid for bids, above it for asks.
pub open spec fn depth_target(best_bid: int, best_ask: int, side: Side, bps: int) -> int {
    let mid = trunc_div(best_bid + best_ask, 2);
    let offset = saturate_i32(trunc_div(mid * bps, 10000));
    match side {
        Side::Bid => mid - offset,
        Side::Ask => mid + offset,
    }
}

/// `p` lies between the best price of `side` and `target`.
pub open spec fn within(side: Side, p: int, target: int) -> bool {
    match side {
        Side::Bid => p >= target,
        Side::Ask => p <= target,
    }
}

/// Volume of the leading levels of `ps` that lie within `target`, stopping at
/// the first one that does not.
pub open spec fn depth_volume(
    v: Map<i32, Map<Seq<char>, i32>>,
    ps: Seq<i32>,
    side: Side,
    target: int,
) -> int
    decreases ps.len(),
{
    if ps.len() == 0 {
        0
    } else if within(side, ps[0] as int, target) {
        map_sum(v[ps[0]]) + depth_volume(v, ps.drop_first(), side, target)
    } else {
        0
    }
}

fn is_within(side: Side, p: i32, target: i64) -> (r: bool)
    ensures
        r == within(side, p as int, target as int),
{
    match side {
        Side::Bid => p as i64 >= target,
        Side::Ask => p as i64 <= target,
    }
}

/// Levels that `calculate_depth` looks at.
pub open spec fn depth_levels() -> nat {
    1000
}

impl OrderBook {
    /// Best bid and best ask both exist.
    pub open spec fn two_sided(&self) -> bool {
        self.bid_view().dom().len() > 0 && self.ask_view().dom().len() > 0
    }

    pub open spec fn best_bid(&self) -> i32 {
        highest_price(self.bid_view().dom())
    }

    pub open spec fn best_ask(&self) -> i32 {
        lowest_price(self.ask_view().dom())
    }

    /// Volume resting on `side` within `bps` basis points of the mid price:
    /// the leading levels, among the first `depth_levels()`, whose price lies
    /// no further from the mid than that; none unless the book is two-sided.
    pub open spec fn depth_within(&self, side: Side, bps: int) -> Option<int> {
        if self.two_sided() {
            let v = self.side_levels(side);
            Some(
                depth_volume(
                    v,
                    top_prices(v.dom(), side, depth_levels()),
                    side,
                    depth_target(self.best_bid() as int, self.best_ask() as int, side, bps),
                ),
            )
        } else {
            None
        }
    }

    /// Volume of the best `n` levels of `side`.
    pub fn total_volume(&self, side: Side, n: usize) -> (r: i128)
        requires
            self.wf(),
        ensures
            r == top_volume(self.side_levels(side), side, n as nat),
            -0x80_0000_0000_0000_0000_0000_0000 <= r <= 0x80_0000_0000_0000_0000_0000_0000,
    {
        let snaps = self.top_n(side, n);
        let sums = level_sums(&snaps, Ghost(self.side_levels(side)), Ghost(top_prices(self.side_levels(side).dom(), side, n as nat)));
        sums.0
    }

    /// Volume-weighted average price of the best `levels` levels of `side`.
    pub fn calculate_vwap(&self, side: Side, levels: usize) -> (r: Option<Fraction>)
        requires
            self.wf(),
        ensures
            r == vwap_of(self.side_levels(side), side, levels as nat),
    {
        let snaps = self.top_n(side, levels);
        if snaps.len() == 0 {
            return None;
        }
        let sums = level_sums(&snaps, Ghost(self.side_levels(side)), Ghost(top_prices(self.side_levels(side).dom(), side, levels as nat)));
        if sums.0 == 0 {
            return None;
        }
        Some(Fraction { num: sums.1, den: sums.0 })
    }

    /// `r` describes this book with `depth` levels per side (its timestamp aside).
    pub open spec fn describes(&self, depth: nat, r: OrderBookSnapshot) -> bool {
        let bv = self.bid_view();
        let av = self.ask_view();
        let b = self.best_bid();
        let a = self.best_ask();
        &&& r.spread == (if self.two_sided() { Some((a - b) as i32) } else { None::<i32> })
        &&& r.best_bid == (if self.two_sided() { Some(b) } else { None::<i32> })
        &&& r.best_ask == (if self.two_sided() { Some(a) } else { None::<i32> })
        &&& r.mid_price == (if self.two_sided() { Some(trunc_div(b + a, 2) as i32) } else { None::<i32> })
        &&& is_top_levels(bv, Side::Bid, depth, r.bids@)
        &&& is_top_levels(av, Side::Ask, depth, r.asks@)
        &&& r.total_bid_volume == top_volume(bv, Side::Bid, depth)
        &&& r.total_ask_volume == top_volume(av, Side::Ask, depth)
        &&& distinct_names(entries(r.update_counts@))
        &&& as_map(entries(r.update_counts@)) == self.update_counts()
        &&& r.vwap_bid == vwap_of(bv, Side::Bid, depth)
        &&& r.vwap_ask == vwap_of(av, Side::Ask, depth)
        &&& r.depth_bid_5bps == depth_or_zero(self.depth_within(Side::Bid, 5))
        &&& r.depth_ask_5bps == depth_or_zero(self.depth_within(Side::Ask, 5))
        &&& r.depth_bid_10bps == depth_or_zero(self.depth_within(Side::Bid, 10))
        &&& r.depth_ask_10bps == depth_or_zero(self.depth_within(Side::Ask, 10))
        &&& r.imbalance == imbalance_of(r.total_bid_volume as int, r.total_ask_volume as int)
    }

    /// The snapshot of this book, stamped with the current time; none where
    /// the system clock gives no time that chrono can represent.
    pub fn create_snapshot(&self, depth: usize) -> (r: Option<OrderBookSnapshot>)
        requires
            self.wf(),
            self.spread_fits(),
        ensures
            match r {
                Some(snap) => {
                    &&& self.describes(depth as nat, snap)
                    &&& snap.timestamp.secs >= 0
                    &&& snap.timestamp.nanos < 1_000_000_000
                },
                None => true,
            },
    {
        match now() {
            Some(timestamp) => Some(self.snapshot_at(depth, timestamp)),
            None => None,
        }
    }

    /// The snapshot of this book, stamped with `timestamp`.
    pub fn snapshot_at(&self, depth: usize, timestamp: Timestamp) -> (r: OrderBookSnapshot)
        requires
            self.wf(),
            self.spread_fits(),
        ensures
            self.describes(depth as nat, r),
            r.timestamp == timestamp,
    {
        let spread_info = self.get_spread();
        let (spread, best_bid, best_ask, mid_price) = match spread_info {
            Some((b, a, s)) => {
                proof {
                    lemma_highest_is(self.bid_view().dom(), b);
                    lemma_lowest_is(self.ask_view().dom(), a);
                }
                let sum: i64 = b as i64 + a as i64;
                let mid: i64 = if sum >= 0 {
                    sum / 2
                } else {
                    -((-sum) / 2)
                };
                (Some(s), Some(b), Some(a), Some(mid as i32))
            },
            None => (None, None, None, None),
        };
        let bids = self.top_n(Side::Bid, depth);
        let asks = self.top_n(Side::Ask, depth);
        let total_bid_volume = self.total_volume(Side::Bid, depth);
        let total_ask_volume = self.total_volume(Side::Ask, depth);
        let vwap_bid = self.calculate_vwap(Side::Bid, depth);
        let vwap_ask = self.calculate_vwap(Side::Ask, depth);
        let depth_bid_5bps = match self.calculate_depth(Side::Bid, 5) {
            Some(x) => x,
            None => 0,
        };
        let depth_ask_5bps = match self.calculate_depth(Side::Ask, 5) {
            Some(x) => x,
            None => 0,
        };
        let depth_bid_10bps = match self.calculate_depth(Side::Bid, 10) {
            Some(x) => x,
            None => 0,
        };
        let depth_ask_10bps = match self.calculate_depth(Side::Ask, 10) {
            Some(x) => x,
            None => 0,
        };
        let both: i128 = total_bid_volume + total_ask_volume;
        let imbalance = if both > 0 {
            Some(Fraction { num: total_bid_volume, den: both })
        } else {
            None
        };
        OrderBookSnapshot {
            timestamp,
            spread,
            best_bid,
            best_ask,
            mid_price,
            bids,
            asks,
            total_bid_volume,
            total_ask_volume,
            update_counts: self.update_count_entries(),
            vwap_bid,
            vwap_ask,
            depth_bid_5bps,
            depth_ask_5bps,
            depth_bid_10bps,
            depth_ask_10bps,
            imbalance,
        }
    }

    /// Volume within `bps` basis points of the mid price on `side`.
    pub fn calculate_depth(&self, side: Side, bps: i32) -> (r: Option<i128>)
        requires
            self.wf(),
            self.spread_fits(),
        ensures
            match r {
                Some(t) => self.depth_within(side, bps as int) == Some(t as int),
                None => self.depth_within(side, bps as int) is None,
            },
    {
        let (best_bid, best_ask) = match self.get_spread() {
            Some((b, a, _)) => (b, a),
            None => {
                return None;
            },
        };
        proof {
            lemma_highest_is(self.bid_view().dom(), best_bid);
            lemma_lowest_is(self.ask_view().dom(), best_ask);
            assert(self.bid_view().dom().contains(best_bid));
            assert(self.ask_view().dom().contains(best_ask));
        }
        let sum: i64 = best_bid as i64 + best_ask as i64;
        let mid: i64 = if sum >= 0 {
            sum / 2
        } else {
            -((-sum) / 2)
        };
        assert(mid == trunc_div(best_bid + best_ask, 2));
        assert(-0x8000_0000 <= mid <= 0x7fff_ffff);
        assert(-0x4000_0000_0000_0000 <= mid * bps <= 0x4000_0000_0000_0000) by (nonlinear_arith)
            requires
                -0x8000_0000 <= mid <= 0x8000_0000,
                i32::MIN <= bps <= i32::MAX,
        ;
        let scaled: i64 = mid * bps as i64;
        let q: i64 = if scaled >= 0 {
            scaled / 10000
        } else {
            -((-scaled) / 10000)
        };
        let offset: i64 = if q < i32::MIN as i64 {
            i32::MIN as i64
        } else if q > i32::MAX as i64 {
            i32::MAX as i64
        } else {
            q
        };
        let target: i64 = match side {
            Side::Bid => mid - offset,
            Side::Ask => mid + offset,
        };
        assert(target == depth_target(best_bid as int, best_ask as int, side, bps as int));
        let snaps = self.top_n(side, 1000);
        let ghost v = self.side_levels(side);
        let ghost ps = top_prices(v.dom(), side, depth_levels());
        let len = snaps.len();
        assert(ps.len() == len);
        assert(ps.subrange(0, len as int) =~= ps);
        let mut total: i128 = 0;
        let mut i: usize = 0;
        while i < len && is_within(side, snaps[i].price, target)
            invariant
                len == snaps@.len(),
                is_top_levels(v, side, depth_levels(), snaps@),
                ps == top_prices(v.dom(), side, depth_levels()),
                0 <= i <= len,
                total + depth_volume(v, ps.subrange(i as int, len as int), side, target as int)
                    == depth_volume(v, ps, side, target as int),
                -(i as int) * 0x8000_0000 <= total <= (i as int) * 0x8000_0000,
            decreases len - i,
        {
            assert(ps.subrange(i as int, len as int).drop_first() =~= ps.subrange(i + 1, len as int));
            assert(snaps@[i as int].price == ps[i as int]);
            assert(i < 0x1_0000_0000_0000_0000);
            total = total + snaps[i].total as i128;
            i = i + 1;
        }
        if i < len {
            assert(ps.subrange(i as int, len as int)[0] == ps[i as int]);
            assert(snaps@[i as int].price == ps[i as int]);
        }
        assert(depth_volume(v, ps.subrange(i as int, len as int), side, target as int) == 0);
        Some(total)
    }
}

} // verus!
