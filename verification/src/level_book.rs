use vstd::prelude::*;
use std::collections::BTreeMap;
use vstd::std_specs::btree::{increasing_seq, key_obeys_cmp_spec};
use vstd::std_specs::iter::IteratorSpec;
use vstd::std_specs::cmp::OrdSpec;
pub use crate::order_book::Side;

verus! {

broadcast use {vstd::std_specs::btree::group_btree_axioms, vstd::laws_cmp::group_laws_cmp};

pub type Price = u32;

pub type Size = u64;

pub open spec fn increasing_prices(s: Seq<Price>) -> bool {
    forall|i: int, j: int| 0 <= i < j < s.len() ==> s[i] < s[j]
}

/// The prices of `d` from lowest to highest.
pub open spec fn sorted_prices(d: Set<Price>) -> Seq<Price> {
    choose|s: Seq<Price>| increasing_prices(s) && s.to_set() == d
}

/// The levels of side `m` in the order a reader walks them: bids from the
/// highest price down, asks from the lowest price up.
pub open spec fn ordered_levels(m: Map<Price, Size>, side: Side) -> Seq<(Price, Size)> {
    let asc = sorted_prices(m.dom());
    let ps = match side {
        Side::Bid => asc.reverse(),
        Side::Ask => asc,
    };
    ps.map_values(|p: Price| (p, m[p]))
}

/// `p` is the best price of side `d`: the highest bid or the lowest ask.
pub open spec fn is_best(d: Set<Price>, side: Side, p: Price) -> bool {
    &&& d.contains(p)
    &&& forall|q: Price|
        #[trigger] d.contains(q) ==> match side {
            Side::Bid => q <= p,
            Side::Ask => p <= q,
        }
}

proof fn lemma_sorted_unique(s: Seq<Price>, t: Seq<Price>)
    requires
        increasing_prices(s),
        increasing_prices(t),
        s.to_set() == t.to_set(),
    ensures
        s == t,
    decreases s.len(),
{
    broadcast use vstd::seq_lib::group_seq_properties;
    if s.len() == 0 {
        if t.len() > 0 {
            assert(t.to_set().contains(t[0]));
        }
        assert(s =~= t);
    } else if t.len() == 0 {
        assert(s.to_set().contains(s[0]));
    } else {
        assert(t.to_set().contains(s[0]));
        assert(s.to_set().contains(t[0]));
        let i = choose|i: int| 0 <= i < s.len() && s[i] == t[0];
        let j = choose|j: int| 0 <= j < t.len() && t[j] == s[0];
        let s1 = s.drop_first();
        let t1 = t.drop_first();
        assert forall|x: Price| s1.to_set().contains(x) <==> t1.to_set().contains(x) by {
            if s1.to_set().contains(x) {
                let a = choose|a: int| 0 <= a < s1.len() && s1[a] == x;
                assert(s[a + 1] == x);
                assert(t.to_set().contains(x));
                let b = choose|b: int| 0 <= b < t.len() && t[b] == x;
                assert(b != 0);
                assert(t1[b - 1] == x);
            }
            if t1.to_set().contains(x) {
                let a = choose|a: int| 0 <= a < t1.len() && t1[a] == x;
                assert(t[a + 1] == x);
                assert(s.to_set().contains(x));
                let b = choose|b: int| 0 <= b < s.len() && s[b] == x;
                assert(b != 0);
                assert(s1[b - 1] == x);
            }
        }
        assert(s1.to_set() =~= t1.to_set());
        lemma_sorted_unique(s1, t1);
        if i > 0 {
            assert(s[0] < s[i]);
        }
        if j > 0 {
            assert(t[0] < t[j]);
        }
        assert forall|k: int| 0 <= k < s.len() implies s[k] == t[k] by {
            if k > 0 {
                assert(s[k] == s1[k - 1]);
                assert(t[k] == t1[k - 1]);
            }
        }
        assert(s =~= t);
    }
}

/// The prices of a side, lowest first.
fn sorted_keys(m: &BTreeMap<Price, Size>) -> (r: Vec<Price>)
    ensures
        r@ == sorted_prices(m@.dom()),
        increasing_prices(r@),
        r@.to_set() == m@.dom(),
{
    broadcast use vstd::seq_lib::group_seq_properties;
    let mut r: Vec<Price> = Vec::new();
    let iter = m.iter();
    let ghost full = iter.remaining();
    proof {
        assert(vstd::laws_cmp::obeys_cmp::<Price>());
        assert(key_obeys_cmp_spec::<Price>());
        let ks = full.map_values(|kv: (&Price, &Size)| *kv.0);
        assert(increasing_seq(ks));
        assert forall|i: int, j: int| 0 <= i < j < full.len() implies *full[i].0 < *full[j].0 by {
            assert(ks[i] == *full[i].0);
            assert(ks[j] == *full[j].0);
            assert(ks[i].cmp_spec(&ks[j]) is Less);
        }
    }
    for (k, v) in it: iter
        invariant
            it.seq() == full,
            r@.len() == it.index(),
            forall|i: int| 0 <= i < r@.len() ==> r@[i] == *full[i].0,
    {
        r.push(*k);
    }
    assert forall|k: Price| #[trigger] r@.to_set().contains(k) <==> m@.dom().contains(k) by {
        if m@.contains_key(k) {
            assert(full.contains((&k, &m@[k])));
            let idx = choose|idx: int| 0 <= idx < full.len() && full[idx] == (&k, &m@[k]);
            assert(r@[idx] == k);
        }
        if r@.to_set().contains(k) {
            let idx = choose|idx: int| 0 <= idx < r@.len() && r@[idx] == k;
            assert(m@.contains_key(*full[idx].0));
        }
    }
    assert(r@.to_set() =~= m@.dom());
    proof {
        let t = sorted_prices(m@.dom());
        assert(increasing_prices(t) && t.to_set() == m@.dom());
        lemma_sorted_unique(r@, t);
    }
    r
}

proof fn lemma_min_price_exists(d: Set<Price>) -> (m: Price)
    requires
        d.finite(),
        d.len() > 0,
    ensures
        d.contains(m),
        forall|q: Price| #[trigger] d.contains(q) ==> m <= q,
    decreases d.len(),
{
    let x = d.choose();
    assert(d.contains(x));
    let rest = d.remove(x);
    if rest.len() == 0 {
        assert forall|q: Price| #[trigger] d.contains(q) implies x <= q by {
            if q != x {
                assert(rest.contains(q));
            }
        }
        x
    } else {
        let m2 = lemma_min_price_exists(rest);
        let m = if x < m2 {
            x
        } else {
            m2
        };
        assert forall|q: Price| #[trigger] d.contains(q) implies m <= q by {
            if q != x {
                assert(rest.contains(q));
            }
        }
        m
    }
}

/// Every finite set of prices has a sorted listing.
pub proof fn lemma_sorted_exists(d: Set<Price>)
    requires
        d.finite(),
    ensures
        increasing_prices(sorted_prices(d)),
        sorted_prices(d).to_set() == d,
    decreases d.len(),
{
    broadcast use vstd::seq_lib::group_seq_properties;
    if d.len() == 0 {
        let s = Seq::<Price>::empty();
        assert(s.to_set() =~= d);
        assert(increasing_prices(s) && s.to_set() == d);
    } else {
        let m = lemma_min_price_exists(d);
        let rest = d.remove(m);
        lemma_sorted_exists(rest);
        let t = sorted_prices(rest);
        let s = seq![m] + t;
        assert forall|i: int, j: int| 0 <= i < j < s.len() implies s[i] < s[j] by {
            if i > 0 {
                assert(s[i] == t[i - 1] && s[j] == t[j - 1]);
            } else {
                assert(s[j] == t[j - 1]);
                assert(t.to_set().contains(t[j - 1]));
                assert(rest.contains(s[j]));
                assert(d.contains(s[j]));
            }
        }
        assert forall|x: Price| #[trigger] s.to_set().contains(x) <==> d.contains(x) by {
            if s.to_set().contains(x) {
                let k = choose|k: int| 0 <= k < s.len() && s[k] == x;
                if k > 0 {
                    assert(t[k - 1] == x);
                    assert(t.to_set().contains(x));
                }
            }
            if d.contains(x) {
                if x == m {
                    assert(s[0] == x);
                } else {
                    assert(rest.contains(x));
                    assert(t.to_set().contains(x));
                    let k = choose|k: int| 0 <= k < t.len() && t[k] == x;
                    assert(s[k + 1] == x);
                }
            }
        }
        assert(s.to_set() =~= d);
        assert(increasing_prices(s) && s.to_set() == d);
    }
}

/// The first level in walking order is the best one, and walking visits
/// every level once.
pub proof fn law_best_leads_levels(m: Map<Price, Size>, side: Side)
    requires
        m.dom().finite(),
        m.dom().len() > 0,
    ensures
        is_best(m.dom(), side, ordered_levels(m, side)[0].0),
        ordered_levels(m, side)[0].1 == m[ordered_levels(m, side)[0].0],
        ordered_levels(m, side).len() == m.dom().len(),
{
    broadcast use vstd::seq_lib::group_seq_properties;
    lemma_sorted_exists(m.dom());
    let asc = sorted_prices(m.dom());
    assert(asc.no_duplicates()) by {
        assert forall|i: int, j: int| 0 <= i < asc.len() && 0 <= j < asc.len() && i != j implies asc[i] != asc[j] by {
            if i < j {
                assert(asc[i] < asc[j]);
            } else {
                assert(asc[j] < asc[i]);
            }
        }
    }
    asc.unique_seq_to_set();
    let n = asc.len();
    let p = match side {
        Side::Bid => asc[n - 1],
        Side::Ask => asc[0],
    };
    assert(ordered_levels(m, side)[0].0 == p);
    assert(asc.to_set().contains(p));
    assert forall|q: Price| #[trigger] m.dom().contains(q) implies match side {
        Side::Bid => q <= p,
        Side::Ask => p <= q,
    } by {
        assert(asc.to_set().contains(q));
        let k = choose|k: int| 0 <= k < asc.len() && asc[k] == q;
        if k > 0 {
            assert(asc[0] < asc[k]);
        }
        if k < n - 1 {
            assert(asc[k] < asc[n - 1]);
        }
    }
}

/// Adding a level where there was none and then removing it leaves the
/// side as it was.
pub proof fn law_add_then_remove(m: Map<Price, Size>, price: Price, size: Size)
    requires
        !m.contains_key(price),
    ensures
        m.insert(price, size).remove(price) == m,
{
    assert(m.insert(price, size).remove(price) =~= m);
}

/// A book of one market: at each price on each side, one positive size.
/// Bids are walked from the highest price down, asks from the lowest up.
#[derive(Debug)]
pub struct OrderBook {
    bids: BTreeMap<Price, Size>,
    asks: BTreeMap<Price, Size>,
}

/// Every stored size is positive.
pub open spec fn sizes_positive(m: Map<Price, Size>) -> bool {
    forall|p: Price| #[trigger] m.contains_key(p) ==> m[p] > 0
}

impl OrderBook {
    pub closed spec fn bid_view(&self) -> Map<Price, Size> {
        self.bids@
    }

    pub closed spec fn ask_view(&self) -> Map<Price, Size> {
        self.asks@
    }

    pub open spec fn side_levels(&self, side: Side) -> Map<Price, Size> {
        match side {
            Side::Bid => self.bid_view(),
            Side::Ask => self.ask_view(),
        }
    }

    pub open spec fn wf(&self) -> bool {
        sizes_positive(self.bid_view()) && sizes_positive(self.ask_view())
    }

    /// Each side holds finitely many levels, so `law_best_leads_levels`
    /// applies to it.
    pub proof fn lemma_sides_finite(&self)
        ensures
            self.bid_view().dom().finite(),
            self.ask_view().dom().finite(),
            self.side_levels(Side::Bid).dom().finite(),
            self.side_levels(Side::Ask).dom().finite(),
    {
        assert(self.bids@.dom().finite());
        assert(self.asks@.dom().finite());
    }

    /// Create a new empty order book
    pub fn new() -> (r: Self)
        ensures
            r.wf(),
            r.bid_view() == Map::<Price, Size>::empty(),
            r.ask_view() == Map::<Price, Size>::empty(),
    {
        OrderBook { bids: BTreeMap::new(), asks: BTreeMap::new() }
    }

    /// Adds or updates a level on the given side; a zero size removes it.
    /// Returns the size that was there before, if any. The price must be
    /// positive.
    pub fn add_level(&mut self, side: Side, price: Price, size: Size) -> (r: Option<Size>)
        requires
            old(self).wf(),
            price > 0,
        ensures
            final(self).wf(),
            final(self).side_levels(side) == (if size == 0 {
                old(self).side_levels(side).remove(price)
            } else {
                old(self).side_levels(side).insert(price, size)
            }),
            final(self).side_levels(crate::order_book::opposite(side)) == old(self).side_levels(
                crate::order_book::opposite(side),
            ),
            r == (if old(self).side_levels(side).contains_key(price) {
                Some(old(self).side_levels(side)[price])
            } else {
                None::<Size>
            }),
    {
        match side {
            Side::Bid => {
                if size == 0 {
                    return self.bids.remove(&price);
                }
                self.bids.insert(price, size)
            },
            Side::Ask => {
                if size == 0 {
                    return self.asks.remove(&price);
                }
                self.asks.insert(price, size)
            },
        }
    }

    /// The best level of `side`: highest bid or lowest ask.
    pub fn best(&self, side: Side) -> (r: Option<(Price, Size)>)
        ensures
            match r {
                Some((p, s)) => is_best(self.side_levels(side).dom(), side, p) && s
                    == self.side_levels(side)[p],
                None => self.side_levels(side).dom().len() == 0,
            },
    {
        let m = match side {
            Side::Bid => &self.bids,
            Side::Ask => &self.asks,
        };
        let keys = sorted_keys(m);
        let len = keys.len();
        if len == 0 {
            assert(m@.dom() =~= Set::<Price>::empty());
            return None;
        }
        let p = match side {
            Side::Bid => keys[len - 1],
            Side::Ask => keys[0],
        };
        assert(keys@.contains(p));
        assert forall|q: Price| #[trigger] m@.dom().contains(q) implies match side {
            Side::Bid => q <= p,
            Side::Ask => p <= q,
        } by {
            assert(keys@.to_set().contains(q));
            let k = choose|k: int| 0 <= k < keys@.len() && keys@[k] == q;
            if k > 0 {
                assert(keys@[0] < keys@[k]);
            }
            if k < len - 1 {
                assert(keys@[k] < keys@[len - 1]);
            }
        }
        match m.get(&p) {
            Some(s) => Some((p, *s)),
            None => {
                assert(false);
                None
            },
        }
    }

    /// All levels of `side` in walking order: bids high to low, asks low to high.
    pub fn levels(&self, side: Side) -> (r: Vec<(Price, Size)>)
        ensures
            r@ == ordered_levels(self.side_levels(side), side),
    {
        let m = match side {
            Side::Bid => &self.bids,
            Side::Ask => &self.asks,
        };
        let keys = sorted_keys(m);
        let len = keys.len();
        let ghost want = ordered_levels(m@, side);
        let mut out: Vec<(Price, Size)> = Vec::new();
        let mut i: usize = 0;
        while i < len
            invariant
                len == keys@.len(),
                keys@ == sorted_prices(m@.dom()),
                keys@.to_set() == m@.dom(),
                want == ordered_levels(m@, side),
                0 <= i <= len,
                out@.len() == i,
                forall|j: int| 0 <= j < i ==> out@[j] == want[j],
            decreases len - i,
        {
            let idx = match side {
                Side::Bid => len - 1 - i,
                Side::Ask => i,
            };
            let p = keys[idx];
            assert(keys@.contains(p));
            assert(m@.dom().contains(p));
            match m.get(&p) {
                Some(s) => {
                    out.push((p, *s));
                },
                None => {
                    assert(false);
                },
            }
            i = i + 1;
        }
        assert(out@ =~= want);
        out
    }

    /// The size at `price` on `side`, if there is a level.
    pub fn size_at(&self, side: Side, price: Price) -> (r: Option<Size>)
        ensures
            r == (if self.side_levels(side).contains_key(price) {
                Some(self.side_levels(side)[price])
            } else {
                None::<Size>
            }),
    {
        match side {
            Side::Bid => match self.bids.get(&price) {
                Some(s) => Some(*s),
                None => None,
            },
            Side::Ask => match self.asks.get(&price) {
                Some(s) => Some(*s),
                None => None,
            },
        }
    }
}

impl Default for OrderBook {
    fn default() -> (r: Self)
        ensures
            r.wf(),
            r.bid_view() == Map::<Price, Size>::empty(),
            r.ask_view() == Map::<Price, Size>::empty(),
    {
        OrderBook::new()
    }
}

} // verus!
