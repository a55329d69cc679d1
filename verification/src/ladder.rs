use vstd::prelude::*;
use std::collections::BTreeMap;
use vstd::std_specs::btree::{increasing_seq, key_obeys_cmp_spec};
use vstd::std_specs::iter::IteratorSpec;
use vstd::std_specs::cmp::OrdSpec;
use crate::order_book::{fits_i32, PriceLevel, PriceLevelSnapshot, Side};
use crate::tally::{
    entries, lemma_as_map_finite, lemma_map_sum_empty, lemma_map_sum_insert,
    lemma_map_sum_remove_any, map_sum, table_get, value_or_zero,
};

verus! {

broadcast use {vstd::std_specs::btree::group_btree_axioms, vstd::laws_cmp::group_laws_cmp};

/// One side of a book as a map from price to the size each source shows there.
pub open spec fn side_view(m: Map<i32, PriceLevel>) -> Map<i32, Map<Seq<char>, i32>> {
    Map::new(|p: i32| m.contains_key(p), |p: i32| m[p].sources())
}

/// Every level is well formed and shows at least one source.
pub open spec fn side_wf(m: Map<i32, PriceLevel>) -> bool {
    forall|p: i32| #[trigger] m.contains_key(p) ==> m[p].wf() && m[p].by_source@.len() > 0
}

/// The level at `price`, empty where there is none.
pub open spec fn level_at(v: Map<i32, Map<Seq<char>, i32>>, price: i32) -> Map<Seq<char>, i32> {
    if v.contains_key(price) {
        v[price]
    } else {
        Map::empty()
    }
}

/// The level at `price` after `source` reports `size` there: a zero size
/// withdraws the source, any other size replaces what it showed.
pub open spec fn level_after(
    v: Map<i32, Map<Seq<char>, i32>>,
    source: Seq<char>,
    price: i32,
    size: i32,
) -> Map<Seq<char>, i32> {
    if size == 0 {
        level_at(v, price).remove(source)
    } else {
        level_at(v, price).insert(source, size)
    }
}

/// A side after one report; a level that no source shows any more disappears.
pub open spec fn side_after(
    v: Map<i32, Map<Seq<char>, i32>>,
    source: Seq<char>,
    price: i32,
    size: i32,
) -> Map<i32, Map<Seq<char>, i32>> {
    let l = level_after(v, source, price, size);
    if l.dom().len() == 0 {
        v.remove(price)
    } else {
        v.insert(price, l)
    }
}

/// The total of the level touched by the report stays within `i32`.
pub open spec fn side_update_fits(
    v: Map<i32, Map<Seq<char>, i32>>,
    source: Seq<char>,
    price: i32,
    size: i32,
) -> bool {
    fits_i32(map_sum(level_after(v, source, price, size)))
}

pub open spec fn strictly_increasing(s: Seq<i32>) -> bool {
    forall|i: int, j: int| 0 <= i < j < s.len() ==> s[i] < s[j]
}

/// The prices of `d` from lowest to highest.
pub open spec fn ascending_prices(d: Set<i32>) -> Seq<i32> {
    choose|s: Seq<i32>| strictly_increasing(s) && s.to_set() == d
}

/// The prices that a reader of the best `n` levels sees, best first:
/// highest first for bids, lowest first for asks.
pub open spec fn top_prices(d: Set<i32>, side: Side, n: nat) -> Seq<i32> {
    let asc = ascending_prices(d);
    let k = if n <= asc.len() {
        n as int
    } else {
        asc.len() as int
    };
    match side {
        Side::Bid => asc.reverse().take(k),
        Side::Ask => asc.take(k),
    }
}

/// `p` is the highest price of `d`.
pub open spec fn is_highest(d: Set<i32>, p: i32) -> bool {
    d.contains(p) && forall|q: i32| #[trigger] d.contains(q) ==> q <= p
}

/// `p` is the lowest price of `d`.
pub open spec fn is_lowest(d: Set<i32>, p: i32) -> bool {
    d.contains(p) && forall|q: i32| #[trigger] d.contains(q) ==> p <= q
}

/// The highest price of `d` (meaningful where `d` has one).
pub open spec fn highest_price(d: Set<i32>) -> i32 {
    choose|p: i32| is_highest(d, p)
}

/// The lowest price of `d` (meaningful where `d` has one).
pub open spec fn lowest_price(d: Set<i32>) -> i32 {
    choose|p: i32| is_lowest(d, p)
}

pub proof fn lemma_highest_is(d: Set<i32>, p: i32)
    requires
        is_highest(d, p),
    ensures
        highest_price(d) == p,
{
    let q = highest_price(d);
    assert(is_highest(d, q));
    assert(q <= p && p <= q);
}

pub proof fn lemma_lowest_is(d: Set<i32>, p: i32)
    requires
        is_lowest(d, p),
    ensures
        lowest_price(d) == p,
{
    let q = lowest_price(d);
    assert(is_lowest(d, q));
    assert(q <= p && p <= q);
}

/// Two increasing sequences with the same elements are the same sequence.
pub proof fn lemma_increasing_unique(s: Seq<i32>, t: Seq<i32>)
    requires
        strictly_increasing(s),
        strictly_increasing(t),
        s.to_set() == t.to_set(),
    ensures
        s == t,
    decreases s.len(),
{
    broadcast use vstd::seq_lib::group_seq_properties;
    if s.len() == 0 {
        if t.len() > 0 {
            assert(t.to_set().contains(t[0]));
        }
        assert(s =~= t);
    } else if t.len() == 0 {
        assert(s.to_set().contains(s[0]));
    } else {
        assert(t.to_set().contains(s[0]));
        assert(s.to_set().contains(t[0]));
        let i = choose|i: int| 0 <= i < s.len() && s[i] == t[0];
        let j = choose|j: int| 0 <= j < t.len() && t[j] == s[0];
        assert(s[0] <= s[i]);
        assert(t[0] <= t[j]);
        let s1 = s.drop_first();
        let t1 = t.drop_first();
        assert forall|x: i32| s1.to_set().contains(x) <==> t1.to_set().contains(x) by {
            if s1.to_set().contains(x) {
                let a = choose|a: int| 0 <= a < s1.len() && s1[a] == x;
                assert(s[a + 1] == x);
                assert(t.to_set().contains(x));
                let b = choose|b: int| 0 <= b < t.len() && t[b] == x;
                assert(b != 0);
                assert(t1[b - 1] == x);
            }
            if t1.to_set().contains(x) {
                let a = choose|a: int| 0 <= a < t1.len() && t1[a] == x;
                assert(t[a + 1] == x);
                assert(s.to_set().contains(x));
                let b = choose|b: int| 0 <= b < s.len() && s[b] == x;
                assert(b != 0);
                assert(s1[b - 1] == x);
            }
        }
        assert(s1.to_set() =~= t1.to_set());
        lemma_increasing_unique(s1, t1);
        if i > 0 {
            assert(s[0] < s[i]);
        }
        if j > 0 {
            assert(t[0] < t[j]);
        }
        assert(s[0] == t[0]);
        assert forall|k: int| 0 <= k < s.len() implies s[k] == t[k] by {
            if k > 0 {
                assert(s[k] == s1[k - 1]);
                assert(t[k] == t1[k - 1]);
            }
        }
        assert(s =~= t);
    }
}

/// An increasing sequence of the prices of `d` is `ascending_prices(d)`.
pub proof fn lemma_ascending_is(s: Seq<i32>, d: Set<i32>)
    requires
        strictly_increasing(s),
        s.to_set() == d,
    ensures
        ascending_prices(d) == s,
{
    let t = ascending_prices(d);
    assert(strictly_increasing(t) && t.to_set() == d);
    lemma_increasing_unique(s, t);
}

/// The prices of one side, lowest first.
pub fn ascending_keys(m: &BTreeMap<i32, PriceLevel>) -> (r: Vec<i32>)
    ensures
        r@ == ascending_prices(m@.dom()),
        strictly_increasing(r@),
        r@.to_set() == m@.dom(),
{
    broadcast use vstd::seq_lib::group_seq_properties;
    let mut r: Vec<i32> = Vec::new();
    let iter = m.iter();
    let ghost full = iter.remaining();
    proof {
        assert(vstd::laws_cmp::obeys_cmp::<i32>());
        assert(key_obeys_cmp_spec::<i32>());
        let ks = full.map_values(|kv: (&i32, &PriceLevel)| *kv.0);
        assert(increasing_seq(ks));
        assert forall|i: int, j: int| 0 <= i < j < full.len() implies *full[i].0 < *full[j].0 by {
            assert(ks[i] == *full[i].0);
            assert(ks[j] == *full[j].0);
            assert(ks[i].cmp_spec(&ks[j]) is Less);
        }
    }
    for (k, v) in it: iter
        invariant
            it.seq() == full,
            r@.len() == it.index(),
            forall|i: int| 0 <= i < r@.len() ==> r@[i] == *full[i].0,
    {
        r.push(*k);
    }
    assert(r@.len() == full.len());
    assert forall|k: i32| #[trigger] r@.to_set().contains(k) <==> m@.dom().contains(k) by {
        if m@.contains_key(k) {
            assert(full.contains((&k, &m@[k])));
            let idx = choose|idx: int| 0 <= idx < full.len() && full[idx] == (&k, &m@[k]);
            assert(r@[idx] == k);
        }
        if r@.to_set().contains(k) {
            let idx = choose|idx: int| 0 <= idx < r@.len() && r@[idx] == k;
            assert(m@.contains_key(*full[idx].0));
        }
    }
    assert(r@.to_set() =~= m@.dom());
    proof {
        lemma_ascending_is(r@, m@.dom());
    }
    r
}

/// Applies one report from `source` to a side of the book.
pub fn apply_side(m: &mut BTreeMap<i32, PriceLevel>, source: &String, price: i32, size: i32)
    requires
        side_wf(old(m)@),
        side_update_fits(side_view(old(m)@), source@, price, size),
    ensures
        side_wf(final(m)@),
        side_view(final(m)@) == side_after(side_view(old(m)@), source@, price, size),
{
    let ghost v = side_view(m@);
    let ghost old_m = m@;
    if size == 0 {
        let removed = m.remove(&price);
        match removed {
            Some(mut level) => {
                assert(level == old_m[price]);
                assert(level_at(v, price) == level.sources());
                level.remove_source(source);
                let ghost l = level.sources();
                assert(l == level_after(v, source@, price, size));
                if level.by_source.len() > 0 {
                    m.insert(price, level);
                    assert(side_view(m@) =~= v.insert(price, l));
                } else {
                    assert(side_view(m@) =~= v.remove(price));
                }
            },
            None => {
                assert(!v.contains_key(price));
                let ghost l = level_after(v, source@, price, size);
                assert(l =~= Map::<Seq<char>, i32>::empty());
                assert(l.dom() =~= Set::<Seq<char>>::empty());
                assert(side_view(m@) =~= v.remove(price));
            },
        }
    } else {
        let removed = m.remove(&price);
        let mut level = match removed {
            Some(l) => l,
            None => PriceLevel::new(),
        };
        assert(level.wf());
        assert(level_at(v, price) == level.sources());
        level.set_source(source.clone(), size);
        let ghost l = level.sources();
        assert(l == level_after(v, source@, price, size));
        proof {
            crate::tally::lemma_as_map_finite(crate::tally::entries(level.by_source@));
            assert(l.dom().contains(source@));
        }
        m.insert(price, level);
        assert(side_view(m@) =~= v.insert(price, l));
    }
}

/// `r` holds copies of the best `n` levels of side `v`, best first: the
/// `i`-th copy is the level at the `i`-th of `top_prices`, with the same
/// sources and a total equal to their sum.
pub open spec fn is_top_levels(
    v: Map<i32, Map<Seq<char>, i32>>,
    side: Side,
    n: nat,
    r: Seq<PriceLevelSnapshot>,
) -> bool {
    &&& r.len() == top_prices(v.dom(), side, n).len()
    &&& forall|i: int|
        0 <= i < r.len() ==> {
            &&& (#[trigger] r[i]).price == top_prices(v.dom(), side, n)[i]
            &&& v.contains_key(r[i].price)
            &&& r[i].sources() == v[r[i].price]
            &&& r[i].wf()
        }
}

/// Copies of the best `n` levels of a side, best first.
pub fn top_levels(m: &BTreeMap<i32, PriceLevel>, side: Side, n: usize) -> (r: Vec<PriceLevelSnapshot>)
    requires
        side_wf(m@),
    ensures
        is_top_levels(side_view(m@), side, n as nat, r@),
{
    assert(side_view(m@).dom() =~= m@.dom());
    let keys = ascending_keys(m);
    let len = keys.len();
    let count = if n <= len { n } else { len };
    let ghost tp = top_prices(m@.dom(), side, n as nat);
    assert(tp.len() == count);
    let mut out: Vec<PriceLevelSnapshot> = Vec::new();
    let mut i: usize = 0;
    while i < count
        invariant
            count <= len,
            len == keys@.len(),
            keys@ == ascending_prices(m@.dom()),
            keys@.to_set() == m@.dom(),
            tp == top_prices(m@.dom(), side, n as nat),
            tp.len() == count,
            side_wf(m@),
            0 <= i <= count,
            out@.len() == i,
            forall|j: int|
                0 <= j < i ==> {
                    &&& (#[trigger] out@[j]).price == tp[j]
                    &&& m@.contains_key(out@[j].price)
                    &&& out@[j].sources() == side_view(m@)[out@[j].price]
                    &&& out@[j].wf()
                },
        decreases count - i,
    {
        let idx = match side {
            Side::Bid => len - 1 - i,
            Side::Ask => i,
        };
        let p = keys[idx];
        assert(p == tp[i as int]);
        assert(keys@.to_set().contains(p)) by {
            assert(keys@.contains(p));
        }
        match m.get(&p) {
            Some(level) => {
                let snap = level.snapshot(p);
                out.push(snap);
            },
            None => {
                assert(false);
            },
        }
        i = i + 1;
    }
    out
}

/// The highest and lowest prices of a side, if it has any.
pub fn extreme_prices(m: &BTreeMap<i32, PriceLevel>) -> (r: Option<(i32, i32)>)
    ensures
        match r {
            Some((lo, hi)) => is_lowest(m@.dom(), lo) && is_highest(m@.dom(), hi),
            None => m@.dom().len() == 0,
        },
{
    broadcast use vstd::seq_lib::group_seq_properties;
    let keys = ascending_keys(m);
    let len = keys.len();
    if len == 0 {
        assert(m@.dom() =~= Set::<i32>::empty());
        None
    } else {
        let lo = keys[0];
        let hi = keys[len - 1];
        assert(keys@.contains(lo));
        assert(keys@.contains(hi));
        assert forall|q: i32| #[trigger] m@.dom().contains(q) implies lo <= q && q <= hi by {
            assert(keys@.to_set().contains(q));
            let k = choose|k: int| 0 <= k < keys@.len() && keys@[k] == q;
            if k > 0 {
                assert(keys@[0] < keys@[k]);
            }
            if k < len - 1 {
                assert(keys@[k] < keys@[len - 1]);
            }
        }
        Some((lo, hi))
    }
}

/// Whether one report would keep the touched level's total within `i32`.
pub fn check_side_update(m: &BTreeMap<i32, PriceLevel>, source: &String, price: i32, size: i32) -> (r: bool)
    requires
        side_wf(m@),
    ensures
        r == side_update_fits(side_view(m@), source@, price, size),
{
    let ghost v = side_view(m@);
    match m.get(&price) {
        Some(level) => {
            let ghost lm = level.sources();
            assert(level_at(v, price) == lm);
            proof {
                lemma_as_map_finite(entries(level.by_source@));
                lemma_map_sum_insert(lm, source@, size);
                lemma_map_sum_remove_any(lm, source@);
            }
            let prev = table_get(&level.by_source, source);
            let old_size: i64 = match prev {
                Some(x) => x as i64,
                None => 0,
            };
            assert(old_size == value_or_zero(lm, source@));
            let new_total: i64 = if size == 0 {
                level.total as i64 - old_size
            } else {
                level.total as i64 - old_size + size as i64
            };
            assert(new_total == map_sum(level_after(v, source@, price, size)));
            i32::MIN as i64 <= new_total && new_total <= i32::MAX as i64
        },
        None => {
            let ghost e = Map::<Seq<char>, i32>::empty();
            assert(level_at(v, price) == e);
            proof {
                assert(e.dom() =~= Set::<Seq<char>>::empty());
                lemma_map_sum_empty(e);
                lemma_map_sum_insert(e, source@, size);
                assert(e.remove(source@) =~= e);
            }
            true
        },
    }
}

/// Best ask minus best bid fits in `i32`, where both sides have prices.
pub open spec fn spread_ok(bids: Set<i32>, asks: Set<i32>) -> bool {
    forall|b: i32, a: i32| is_highest(bids, b) && is_lowest(asks, a) ==> fits_i32(a - b)
}

/// Whether the spread of the two sides fits in `i32`.
pub fn check_spread(bids: &BTreeMap<i32, PriceLevel>, asks: &BTreeMap<i32, PriceLevel>) -> (r: bool)
    ensures
        r == spread_ok(bids@.dom(), asks@.dom()),
{
    let bid = extreme_prices(bids);
    let ask = extreme_prices(asks);
    match (bid, ask) {
        (Some((_, b)), Some((a, _))) => {
            let d: i64 = a as i64 - b as i64;
            proof {
                assert forall|b2: i32, a2: i32|
                    is_highest(bids@.dom(), b2) && is_lowest(asks@.dom(), a2) implies b2 == b && a2 == a by {
                    lemma_highest_is(bids@.dom(), b2);
                    lemma_highest_is(bids@.dom(), b);
                    lemma_lowest_is(asks@.dom(), a2);
                    lemma_lowest_is(asks@.dom(), a);
                }
            }
            i32::MIN as i64 <= d && d <= i32::MAX as i64
        },
        _ => {
            proof {
                assert forall|b2: i32, a2: i32|
                    is_highest(bids@.dom(), b2) && is_lowest(asks@.dom(), a2) implies fits_i32(a2 - b2) by {
                    assert(bids@.dom().contains(b2));
                    assert(asks@.dom().contains(a2));
                }
            }
            true
        },
    }
}

} // verus!
