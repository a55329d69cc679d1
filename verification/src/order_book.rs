use vstd::prelude::*;
use std::collections::BTreeMap;
use crate::laws::levels_nonempty;
pub use crate::snapshot::OrderBookSnapshot;
use crate::ladder::{
    apply_side, check_side_update, check_spread, spread_ok, extreme_prices, is_highest, is_lowest, is_top_levels,
    side_after, side_update_fits, side_view, side_wf, top_levels,
};
use crate::tally::{
    as_map, copy_entries, distinct_names, entries, has_name, lemma_as_map_finite,
    lemma_map_sum_insert, lemma_map_sum_remove_any, map_sum, table_get, table_remove, table_set,
    value_or_zero,
};

verus! {

/// Digits kept after the decimal point of a price.
pub const PRICE_PRECISION: usize = 5;
/// Digits kept after the decimal point of a size.
pub const SIZE_PRECISION: usize = 6;

#[derive(Debug, Clone, Copy, PartialEq, Eq, Structural)]
pub enum Side {
    Bid,
    Ask,
}

/// The resting size that each source shows at one price, and their sum.
#[derive(Debug)]
pub struct PriceLevel {
    pub total: i32,
    pub by_source: Vec<(String, i32)>,
}

/// A copy of one price level, as handed out to readers of the book.
#[derive(Debug)]
pub struct PriceLevelSnapshot {
    pub price: i32,
    pub total: i32,
    pub by_source: Vec<(String, i32)>,
}

/// `x` is representable as an `i32`.
pub open spec fn fits_i32(x: int) -> bool {
    i32::MIN <= x <= i32::MAX
}

impl PriceLevel {
    /// Size shown by each source.
    pub open spec fn sources(&self) -> Map<Seq<char>, i32> {
        as_map(entries(self.by_source@))
    }

    /// No source twice, and `total` is the sum of the sources' sizes.
    pub open spec fn wf(&self) -> bool {
        &&& distinct_names(entries(self.by_source@))
        &&& self.total == map_sum(self.sources())
    }

    pub fn new() -> (r: Self)
        ensures
            r.wf(),
            r.sources() == Map::<Seq<char>, i32>::empty(),
            r.by_source@.len() == 0,
    {
        let r = PriceLevel { total: 0, by_source: Vec::new() };
        assert(r.sources() =~= Map::<Seq<char>, i32>::empty());
        proof {
            lemma_as_map_finite(entries(r.by_source@));
        }
        r
    }

    /// Sets the size shown by `source`; the total follows.
    pub fn set_source(&mut self, source: String, size: i32)
        requires
            old(self).wf(),
            fits_i32(map_sum(old(self).sources().insert(source@, size))),
        ensures
            final(self).wf(),
            final(self).sources() == old(self).sources().insert(source@, size),
            final(self).by_source@.len() > 0,
    {
        let ghost old_map = self.sources();
        proof {
            lemma_as_map_finite(entries(self.by_source@));
            lemma_map_sum_insert(old_map, source@, size);
        }
        let prev = table_get(&self.by_source, &source);
        let old_size: i64 = match prev {
            Some(x) => x as i64,
            None => 0,
        };
        let new_total: i64 = self.total as i64 - old_size + size as i64;
        let key = source;
        table_set(&mut self.by_source, key, size);
        self.total = new_total as i32;
        proof {
            lemma_as_map_finite(entries(self.by_source@));
            let s = entries(self.by_source@);
            assert(self.sources().contains_key(source@));
            let i = choose|i: int| 0 <= i < s.len() && s[i].0 == source@;
            assert(s.len() > 0);
        }
    }

    /// Drops what `source` shows here; tells whether it showed anything.
    pub fn remove_source(&mut self, source: &String) -> (r: bool)
        requires
            old(self).wf(),
            fits_i32(map_sum(old(self).sources().remove(source@))),
        ensures
            final(self).wf(),
            final(self).sources() == old(self).sources().remove(source@),
            r == old(self).sources().contains_key(source@),
            final(self).by_source@.len() == 0 <==> final(self).sources().dom().len() == 0,
    {
        let ghost old_map = self.sources();
        proof {
            lemma_as_map_finite(entries(self.by_source@));
            lemma_map_sum_remove_any(old_map, source@);
        }
        let removed = table_remove(&mut self.by_source, source);
        proof {
            lemma_as_map_finite(entries(self.by_source@));
            lemma_empty_iff(entries(self.by_source@));
        }
        match removed {
            Some(x) => {
                let new_total: i64 = self.total as i64 - x as i64;
                self.total = new_total as i32;
                true
            },
            None => {
                false
            },
        }
    }

    /// Size shown by `source` here, 0 if none.
    pub fn source_size(&self, source: &str) -> (r: i32)
        requires
            self.wf(),
        ensures
            r == value_or_zero(self.sources(), source@),
    {
        let src = String::from_str(source);
        match table_get(&self.by_source, &src) {
            Some(x) => x,
            None => 0,
        }
    }

    /// A copy of this level at `price`.
    pub fn snapshot(&self, price: i32) -> (r: PriceLevelSnapshot)
        requires
            self.wf(),
        ensures
            r.price == price,
            r.total == self.total,
            r.sources() == self.sources(),
            r.wf(),
    {
        let by_source = copy_entries(&self.by_source);
        PriceLevelSnapshot { price, total: self.total, by_source }
    }
}

/// A table is empty exactly when its map is.
pub proof fn lemma_empty_iff(s: Seq<(Seq<char>, i32)>)
    ensures
        as_map(s).dom().finite(),
        s.len() == 0 <==> as_map(s).dom().len() == 0,
{
    lemma_as_map_finite(s);
    if s.len() > 0 {
        assert(has_name(s, s[0].0));
        assert(as_map(s).dom().contains(s[0].0));
    } else {
        assert(as_map(s).dom() =~= Set::<Seq<char>>::empty());
    }
}

impl PriceLevelSnapshot {
    /// Size shown by each source.
    pub open spec fn sources(&self) -> Map<Seq<char>, i32> {
        as_map(entries(self.by_source@))
    }

    /// No source twice, and `total` is the sum of the sources' sizes.
    pub open spec fn wf(&self) -> bool {
        &&& distinct_names(entries(self.by_source@))
        &&& self.total == map_sum(self.sources())
    }

    /// Size shown by `source` at this level, 0 if none.
    pub fn source_size(&self, source: &str) -> (r: i32)
        requires
            self.wf(),
        ensures
            r == value_or_zero(self.sources(), source@),
    {
        let src = String::from_str(source);
        match table_get(&self.by_source, &src) {
            Some(x) => x,
            None => 0,
        }
    }
}

/// The other side of the book.
pub open spec fn opposite(side: Side) -> Side {
    match side {
        Side::Bid => Side::Ask,
        Side::Ask => Side::Bid,
    }
}

/// Update count after one report from `source`: non-zero sizes count.
pub open spec fn counts_after(c: Map<Seq<char>, i32>, source: Seq<char>, size: i32) -> Map<
    Seq<char>,
    i32,
> {
    if size == 0 {
        c
    } else {
        c.insert(source, (value_or_zero(c, source) + 1) as i32)
    }
}

/// What a reader can know of an aggregated book: each side as
/// price -> size per source, and the number of non-zero reports per source.
pub struct BookState {
    pub bids: Map<i32, Map<Seq<char>, i32>>,
    pub asks: Map<i32, Map<Seq<char>, i32>>,
    pub counts: Map<Seq<char>, i32>,
}

impl BookState {
    pub open spec fn side(self, side: Side) -> Map<i32, Map<Seq<char>, i32>> {
        match side {
            Side::Bid => self.bids,
            Side::Ask => self.asks,
        }
    }
}

/// The book after `source` reports `size` at `price` on `side`.
pub open spec fn book_after(s: BookState, source: Seq<char>, side: Side, price: i32, size: i32) -> BookState {
    let counts = counts_after(s.counts, source, size);
    match side {
        Side::Bid => BookState { bids: side_after(s.bids, source, price, size), asks: s.asks, counts },
        Side::Ask => BookState { bids: s.bids, asks: side_after(s.asks, source, price, size), counts },
    }
}

/// The report keeps every number of the book within `i32`: the touched
/// level's total and, for a non-zero size, the source's update count.
pub open spec fn book_update_fits(s: BookState, source: Seq<char>, side: Side, price: i32, size: i32) -> bool {
    &&& side_update_fits(s.side(side), source, price, size)
    &&& size != 0 ==> value_or_zero(s.counts, source) < i32::MAX
}

/// A book that aggregates the levels of several sources: at each price it
/// keeps what every source shows, and their sum.
#[derive(Debug)]
pub struct OrderBook {
    bids: BTreeMap<i32, PriceLevel>,
    asks: BTreeMap<i32, PriceLevel>,
    upd_count: Vec<(String, i32)>,
}

impl OrderBook {
    pub closed spec fn wf(&self) -> bool {
        &&& side_wf(self.bids@)
        &&& side_wf(self.asks@)
        &&& distinct_names(entries(self.upd_count@))
    }

    /// Bid levels: price -> size per source.
    pub closed spec fn bid_view(&self) -> Map<i32, Map<Seq<char>, i32>> {
        side_view(self.bids@)
    }

    /// Ask levels: price -> size per source.
    pub closed spec fn ask_view(&self) -> Map<i32, Map<Seq<char>, i32>> {
        side_view(self.asks@)
    }

    pub open spec fn side_levels(&self, side: Side) -> Map<i32, Map<Seq<char>, i32>> {
        match side {
            Side::Bid => self.bid_view(),
            Side::Ask => self.ask_view(),
        }
    }

    /// Number of non-zero reports taken from each source.
    pub closed spec fn update_counts(&self) -> Map<Seq<char>, i32> {
        as_map(entries(self.upd_count@))
    }

    pub open spec fn state(&self) -> BookState {
        BookState { bids: self.bid_view(), asks: self.ask_view(), counts: self.update_counts() }
    }

    /// See `book_update_fits`.
    pub open spec fn update_fits(&self, source: Seq<char>, side: Side, price: i32, size: i32) -> bool {
        book_update_fits(self.state(), source, side, price, size)
    }

    /// Best ask minus best bid fits in `i32` (where both sides have levels).
    pub open spec fn spread_fits(&self) -> bool {
        spread_ok(self.bid_view().dom(), self.ask_view().dom())
    }

    pub fn new() -> (r: Self)
        ensures
            r.wf(),
            r.bid_view() == Map::<i32, Map<Seq<char>, i32>>::empty(),
            r.ask_view() == Map::<i32, Map<Seq<char>, i32>>::empty(),
            r.update_counts() == Map::<Seq<char>, i32>::empty(),
    {
        let r = OrderBook { bids: BTreeMap::new(), asks: BTreeMap::new(), upd_count: Vec::new() };
        assert(r.bid_view() =~= Map::<i32, Map<Seq<char>, i32>>::empty());
        assert(r.ask_view() =~= Map::<i32, Map<Seq<char>, i32>>::empty());
        assert(r.update_counts() =~= Map::<Seq<char>, i32>::empty());
        r
    }

    /// Whether `apply_update` may take this report (see `update_fits`).
    pub fn can_apply_update(&self, source: &str, side: Side, price: i32, size: i32) -> (r: bool)
        requires
            self.wf(),
        ensures
            r == self.update_fits(source@, side, price, size),
    {
        let src = String::from_str(source);
        let level_ok = match side {
            Side::Bid => check_side_update(&self.bids, &src, price, size),
            Side::Ask => check_side_update(&self.asks, &src, price, size),
        };
        if !level_ok {
            return false;
        }
        if size == 0 {
            return true;
        }
        match table_get(&self.upd_count, &src) {
            Some(c) => c < i32::MAX,
            None => true,
        }
    }

    /// Takes one report: `source` now shows `size` at `price` on `side`
    /// (zero withdraws it), and non-zero reports are counted per source.
    pub fn apply_update(&mut self, source: &str, side: Side, price: i32, size: i32)
        requires
            old(self).wf(),
            old(self).update_fits(source@, side, price, size),
        ensures
            final(self).wf(),
            final(self).state() == book_after(old(self).state(), source@, side, price, size),
    {
        let src = String::from_str(source);
        match side {
            Side::Bid => apply_side(&mut self.bids, &src, price, size),
            Side::Ask => apply_side(&mut self.asks, &src, price, size),
        }
        if size != 0 {
            let prev = table_get(&self.upd_count, &src);
            let next: i32 = match prev {
                Some(c) => c + 1,
                None => 1,
            };
            table_set(&mut self.upd_count, src, next);
        }
    }

    /// Best bid, best ask and their spread (ask - bid), where both sides have levels.
    pub fn get_spread(&self) -> (r: Option<(i32, i32, i32)>)
        requires
            self.wf(),
            self.spread_fits(),
        ensures
            match r {
                Some((b, a, s)) => {
                    &&& self.bid_view().dom().len() > 0
                    &&& self.ask_view().dom().len() > 0
                    &&& is_highest(self.bid_view().dom(), b)
                    &&& is_lowest(self.ask_view().dom(), a)
                    &&& s == a - b
                },
                None => self.bid_view().dom().len() == 0 || self.ask_view().dom().len() == 0,
            },
    {
        assert(self.bid_view().dom() =~= self.bids@.dom());
        assert(self.ask_view().dom() =~= self.asks@.dom());
        let bid = extreme_prices(&self.bids);
        let ask = extreme_prices(&self.asks);
        proof {
            if let Some((_, hi)) = bid {
                assert(self.bids@.dom().contains(hi));
            }
            if let Some((lo, _)) = ask {
                assert(self.asks@.dom().contains(lo));
            }
        }
        match (bid, ask) {
            (Some((_, b)), Some((a, _))) => Some((b, a, a - b)),
            _ => None,
        }
    }

    /// Whether `get_spread` may be asked: best ask minus best bid fits in `i32`.
    pub fn can_get_spread(&self) -> (r: bool)
        requires
            self.wf(),
        ensures
            r == self.spread_fits(),
    {
        assert(self.bid_view().dom() =~= self.bids@.dom());
        assert(self.ask_view().dom() =~= self.asks@.dom());
        check_spread(&self.bids, &self.asks)
    }

    /// Copies of the best `n` levels of `side`: highest bids first, lowest asks first.
    pub fn top_n(&self, side: Side, n: usize) -> (r: Vec<PriceLevelSnapshot>)
        requires
            self.wf(),
        ensures
            is_top_levels(self.side_levels(side), side, n as nat, r@),
    {
        match side {
            Side::Bid => top_levels(&self.bids, side, n),
            Side::Ask => top_levels(&self.asks, side, n),
        }
    }

    /// The level at `price` on `side`, if any.
    pub fn level(&self, side: Side, price: i32) -> (r: Option<&PriceLevel>)
        requires
            self.wf(),
        ensures
            match r {
                Some(l) => {
                    &&& self.side_levels(side).contains_key(price)
                    &&& l.sources() == self.side_levels(side)[price]
                    &&& l.wf()
                },
                None => !self.side_levels(side).contains_key(price),
            },
    {
        broadcast use vstd::laws_cmp::group_laws_cmp;
        match side {
            Side::Bid => self.bids.get(&price),
            Side::Ask => self.asks.get(&price),
        }
    }

    /// The levels of a book are finite and never empty, and it has finitely many.
    pub proof fn lemma_state_levels(&self)
        requires
            self.wf(),
        ensures
            levels_nonempty(self.bid_view()),
            levels_nonempty(self.ask_view()),
            self.bid_view().dom().finite(),
            self.ask_view().dom().finite(),
    {
        assert forall|p: i32| #[trigger] self.bid_view().contains_key(p) implies self.bid_view()[p].dom().finite()
            && self.bid_view()[p].dom().len() > 0 by {
            lemma_empty_iff(entries(self.bids@[p].by_source@));
        }
        assert forall|p: i32| #[trigger] self.ask_view().contains_key(p) implies self.ask_view()[p].dom().finite()
            && self.ask_view()[p].dom().len() > 0 by {
            lemma_empty_iff(entries(self.asks@[p].by_source@));
        }
        assert(self.bid_view().dom() =~= self.bids@.dom());
        assert(self.ask_view().dom() =~= self.asks@.dom());
    }

    /// The total of every level of the book lies within `i32`.
    pub proof fn lemma_level_totals_fit(&self, side: Side, price: i32)
        requires
            self.wf(),
            self.side_levels(side).contains_key(price),
        ensures
            fits_i32(map_sum(self.side_levels(side)[price])),
    {
        match side {
            Side::Bid => {
                assert(self.bids@[price].wf());
                assert(self.bid_view()[price] == self.bids@[price].sources());
            },
            Side::Ask => {
                assert(self.asks@[price].wf());
                assert(self.ask_view()[price] == self.asks@[price].sources());
            },
        }
    }

    /// A copy of the per-source update counts.
    pub fn update_count_entries(&self) -> (r: Vec<(String, i32)>)
        requires
            self.wf(),
        ensures
            distinct_names(entries(r@)),
            as_map(entries(r@)) == self.update_counts(),
    {
        copy_entries(&self.upd_count)
    }

    /// Number of non-zero reports taken from `source` (0 if none).
    pub fn update_count(&self, source: &str) -> (r: i32)
        requires
            self.wf(),
        ensures
            r == value_or_zero(self.update_counts(), source@),
    {
        let src = String::from_str(source);
        match table_get(&self.upd_count, &src) {
            Some(c) => c,
            None => 0,
        }
    }
}

} // verus!
