use vstd::prelude::*;
use std::collections::BTreeMap;
use crate::ladder::{
    apply_side, check_side_update, check_spread, spread_ok, extreme_prices, is_highest, is_lowest, is_top_levels,
    side_after, side_update_fits, side_view, side_wf, top_levels,
};
use crate::order_book::{lemma_empty_iff, opposite};
use crate::laws::levels_nonempty;
use crate::tally::entries;
pub use crate::order_book::{PriceLevel, PriceLevelSnapshot, Side};

verus! {

broadcast use vstd::std_specs::btree::group_btree_axioms;

/// A book that merges the levels of simulated markets, price by price.
#[derive(Debug)]
pub struct SyntheticOrderBook {
    bids: BTreeMap<i32, PriceLevel>,
    asks: BTreeMap<i32, PriceLevel>,
}

impl SyntheticOrderBook {
    pub closed spec fn wf(&self) -> bool {
        &&& side_wf(self.bids@)
        &&& side_wf(self.asks@)
    }

    /// Bid levels: price -> size per source.
    pub closed spec fn bid_view(&self) -> Map<i32, Map<Seq<char>, i32>> {
        side_view(self.bids@)
    }

    /// Ask levels: price -> size per source.
    pub closed spec fn ask_view(&self) -> Map<i32, Map<Seq<char>, i32>> {
        side_view(self.asks@)
    }

    pub open spec fn side_levels(&self, side: Side) -> Map<i32, Map<Seq<char>, i32>> {
        match side {
            Side::Bid => self.bid_view(),
            Side::Ask => self.ask_view(),
        }
    }

    /// Best ask minus best bid fits in `i32` (where both sides have levels).
    pub open spec fn spread_fits(&self) -> bool {
        spread_ok(self.bid_view().dom(), self.ask_view().dom())
    }

    /// Whether `get_spread` may be asked: best ask minus best bid fits in `i32`.
    pub fn can_get_spread(&self) -> (r: bool)
        requires
            self.wf(),
        ensures
            r == self.spread_fits(),
    {
        assert(self.bid_view().dom() =~= self.bids@.dom());
        assert(self.ask_view().dom() =~= self.asks@.dom());
        check_spread(&self.bids, &self.asks)
    }

    pub fn new() -> (r: Self)
        ensures
            r.wf(),
            r.bid_view() == Map::<i32, Map<Seq<char>, i32>>::empty(),
            r.ask_view() == Map::<i32, Map<Seq<char>, i32>>::empty(),
    {
        let r = SyntheticOrderBook { bids: BTreeMap::new(), asks: BTreeMap::new() };
        assert(r.bid_view() =~= Map::<i32, Map<Seq<char>, i32>>::empty());
        assert(r.ask_view() =~= Map::<i32, Map<Seq<char>, i32>>::empty());
        r
    }

    /// Whether `apply_update` may take this report: the touched level's
    /// total stays within `i32`.
    pub fn can_apply_update(&self, source: &str, side: Side, price: i32, size: i32) -> (r: bool)
        requires
            self.wf(),
        ensures
            r == side_update_fits(self.side_levels(side), source@, price, size),
    {
        let src = String::from_str(source);
        match side {
            Side::Bid => check_side_update(&self.bids, &src, price, size),
            Side::Ask => check_side_update(&self.asks, &src, price, size),
        }
    }

    /// Takes one report: `source` now shows `size` at `price` on `side`
    /// (zero withdraws it).
    pub fn apply_update(&mut self, source: &str, side: Side, price: i32, size: i32)
        requires
            old(self).wf(),
            side_update_fits(old(self).side_levels(side), source@, price, size),
        ensures
            final(self).wf(),
            final(self).side_levels(side) == side_after(
                old(self).side_levels(side),
                source@,
                price,
                size,
            ),
            final(self).side_levels(opposite(side)) == old(self).side_levels(opposite(side)),
    {
        let src = String::from_str(source);
        match side {
            Side::Bid => apply_side(&mut self.bids, &src, price, size),
            Side::Ask => apply_side(&mut self.asks, &src, price, size),
        }
    }

    /// Best bid, best ask and their spread (ask - bid), where both sides have levels.
    pub fn get_spread(&self) -> (r: Option<(i32, i32, i32)>)
        requires
            self.wf(),
            self.spread_fits(),
        ensures
            match r {
                Some((b, a, s)) => {
                    &&& self.bid_view().dom().len() > 0
                    &&& self.ask_view().dom().len() > 0
                    &&& is_highest(self.bid_view().dom(), b)
                    &&& is_lowest(self.ask_view().dom(), a)
                    &&& s == a - b
                },
                None => self.bid_view().dom().len() == 0 || self.ask_view().dom().len() == 0,
            },
    {
        assert(self.bid_view().dom() =~= self.bids@.dom());
        assert(self.ask_view().dom() =~= self.asks@.dom());
        let bid = extreme_prices(&self.bids);
        let ask = extreme_prices(&self.asks);
        proof {
            if let Some((_, hi)) = bid {
                assert(self.bids@.dom().contains(hi));
            }
            if let Some((lo, _)) = ask {
                assert(self.asks@.dom().contains(lo));
            }
        }
        match (bid, ask) {
            (Some((_, b)), Some((a, _))) => Some((b, a, a - b)),
            _ => None,
        }
    }

    /// Copies of the best `n` levels of `side`: highest bids first, lowest asks first.
    pub fn top_n(&self, side: Side, n: usize) -> (r: Vec<PriceLevelSnapshot>)
        requires
            self.wf(),
        ensures
            is_top_levels(self.side_levels(side), side, n as nat, r@),
    {
        match side {
            Side::Bid => top_levels(&self.bids, side, n),
            Side::Ask => top_levels(&self.asks, side, n),
        }
    }

    /// The levels of a book are finite and never empty, and it has finitely many.
    pub proof fn lemma_side_levels(&self)
        requires
            self.wf(),
        ensures
            levels_nonempty(self.bid_view()),
            levels_nonempty(self.ask_view()),
            self.bid_view().dom().finite(),
            self.ask_view().dom().finite(),
    {
        assert forall|p: i32| #[trigger] self.bid_view().contains_key(p) implies self.bid_view()[p].dom().finite()
            && self.bid_view()[p].dom().len() > 0 by {
            lemma_empty_iff(entries(self.bids@[p].by_source@));
        }
        assert forall|p: i32| #[trigger] self.ask_view().contains_key(p) implies self.ask_view()[p].dom().finite()
            && self.ask_view()[p].dom().len() > 0 by {
            lemma_empty_iff(entries(self.asks@[p].by_source@));
        }
        assert(self.bid_view().dom() =~= self.bids@.dom());
        assert(self.ask_view().dom() =~= self.asks@.dom());
    }

    /// The level at `price` on `side`, if any.
    pub fn level(&self, side: Side, price: i32) -> (r: Option<&PriceLevel>)
        requires
            self.wf(),
        ensures
            match r {
                Some(l) => {
                    &&& self.side_levels(side).contains_key(price)
                    &&& l.sources() == self.side_levels(side)[price]
                    &&& l.wf()
                },
                None => !self.side_levels(side).contains_key(price),
            },
    {
        broadcast use vstd::laws_cmp::group_laws_cmp;
        match side {
            Side::Bid => self.bids.get(&price),
            Side::Ask => self.asks.get(&price),
        }
    }
}

} // verus!
