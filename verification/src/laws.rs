use vstd::prelude::*;
use crate::ladder::{
    ascending_prices, highest_price, is_highest, is_lowest, level_after, level_at, lowest_price,
    side_after, strictly_increasing, top_prices,
};
use crate::order_book::{
    book_after, book_update_fits, fits_i32, opposite, BookState, OrderBook, PriceLevelSnapshot, Side,
};
use crate::tally::{lemma_map_sum_empty, map_sum, value_or_zero};
use crate::ladder::is_top_levels;
use crate::snapshot::{
    depth_target, depth_volume, prices_notional, prices_volume, saturate_i32, top_volume,
    trunc_div, vwap_of, Fraction, OrderBookSnapshot,
};
use crate::helpers::{
    byte_len, chars_in_bytes, dot_trim_ok, dot_trim_spec, first_dot, has_dot, kept_bytes,
    lemma_byte_len_strict, lemma_first_dot_exists, zeros,
};

verus! {

/// Every level of a side is a finite map with at least one source.
pub open spec fn levels_nonempty(v: Map<i32, Map<Seq<char>, i32>>) -> bool {
    forall|p: i32| #[trigger] v.contains_key(p) ==> v[p].dom().finite() && v[p].dom().len() > 0
}

/// Every level of a side is a finite map.
pub open spec fn levels_finite(v: Map<i32, Map<Seq<char>, i32>>) -> bool {
    forall|p: i32| #[trigger] v.contains_key(p) ==> v[p].dom().finite()
}

proof fn lemma_min_exists(d: Set<i32>) -> (m: i32)
    requires
        d.finite(),
        d.len() > 0,
    ensures
        is_lowest(d, m),
    decreases d.len(),
{
    let x = d.choose();
    assert(d.contains(x));
    let rest = d.remove(x);
    if rest.len() == 0 {
        assert forall|q: i32| #[trigger] d.contains(q) implies x <= q by {
            if q != x {
                assert(rest.contains(q));
            }
        }
        x
    } else {
        let m2 = lemma_min_exists(rest);
        let m = if x < m2 {
            x
        } else {
            m2
        };
        assert forall|q: i32| #[trigger] d.contains(q) implies m <= q by {
            if q != x {
                assert(rest.contains(q));
            }
        }
        m
    }
}

/// Every finite set of prices has an ascending listing.
pub proof fn lemma_ascending_exists(d: Set<i32>)
    requires
        d.finite(),
    ensures
        strictly_increasing(ascending_prices(d)),
        ascending_prices(d).to_set() == d,
    decreases d.len(),
{
    broadcast use vstd::seq_lib::group_seq_properties;
    if d.len() == 0 {
        let s = Seq::<i32>::empty();
        assert(s.to_set() =~= d);
        assert(strictly_increasing(s) && s.to_set() == d);
    } else {
        let m = lemma_min_exists(d);
        let rest = d.remove(m);
        lemma_ascending_exists(rest);
        let t = ascending_prices(rest);
        let s = seq![m] + t;
        assert forall|i: int, j: int| 0 <= i < j < s.len() implies s[i] < s[j] by {
            if i > 0 {
                assert(s[i] == t[i - 1] && s[j] == t[j - 1]);
            } else {
                assert(s[j] == t[j - 1]);
                assert(t.to_set().contains(t[j - 1]));
                assert(rest.contains(s[j]));
                assert(d.contains(s[j]));
            }
        }
        assert forall|x: i32| #[trigger] s.to_set().contains(x) <==> d.contains(x) by {
            if s.to_set().contains(x) {
                let k = choose|k: int| 0 <= k < s.len() && s[k] == x;
                if k > 0 {
                    assert(t[k - 1] == x);
                    assert(t.to_set().contains(x));
                }
            }
            if d.contains(x) {
                if x == m {
                    assert(s[0] == x);
                } else {
                    assert(rest.contains(x));
                    assert(t.to_set().contains(x));
                    let k = choose|k: int| 0 <= k < t.len() && t[k] == x;
                    assert(s[k + 1] == x);
                }
            }
        }
        assert(s.to_set() =~= d);
        assert(strictly_increasing(s) && s.to_set() == d);
    }
}

proof fn lemma_map_empty(l: Map<Seq<char>, i32>)
    requires
        l.dom().finite(),
    ensures
        l.dom().len() == 0 <==> l == Map::<Seq<char>, i32>::empty(),
{
    if l.dom().len() == 0 {
        assert(l.dom() =~= Set::<Seq<char>>::empty());
        assert(l =~= Map::<Seq<char>, i32>::empty());
    }
    if l == Map::<Seq<char>, i32>::empty() {
        assert(l.dom() =~= Set::<Seq<char>>::empty());
    }
}

/// `top_prices` lists the `min(n, |d|)` best prices of `d`, best first
/// (bids falling, asks rising), and every price it leaves out is worse than
/// every price it lists.
pub proof fn law_top_prices(d: Set<i32>, side: Side, n: nat)
    requires
        d.finite(),
    ensures
        top_prices(d, side, n).len() == (if n <= d.len() {
            n
        } else {
            d.len()
        }),
        forall|i: int| 0 <= i < top_prices(d, side, n).len() ==> d.contains(#[trigger] top_prices(d, side, n)[i]),
        forall|i: int, j: int|
            0 <= i < j < top_prices(d, side, n).len() ==> match side {
                Side::Bid => top_prices(d, side, n)[i] > top_prices(d, side, n)[j],
                Side::Ask => top_prices(d, side, n)[i] < top_prices(d, side, n)[j],
            },
        forall|p: i32, i: int|
            #![trigger d.contains(p), top_prices(d, side, n)[i]]
            d.contains(p) && !top_prices(d, side, n).contains(p) && 0 <= i < top_prices(d, side, n).len() ==> match side {
                Side::Bid => p < top_prices(d, side, n)[i],
                Side::Ask => p > top_prices(d, side, n)[i],
            },
{
    broadcast use vstd::seq_lib::group_seq_properties;
    lemma_ascending_exists(d);
    let asc = ascending_prices(d);
    assert(asc.no_duplicates()) by {
        assert forall|i: int, j: int| 0 <= i < asc.len() && 0 <= j < asc.len() && i != j implies asc[i] != asc[j] by {
            if i < j {
                assert(asc[i] < asc[j]);
            } else {
                assert(asc[j] < asc[i]);
            }
        }
    }
    asc.unique_seq_to_set();
    assert(asc.len() == d.len());
    let t = top_prices(d, side, n);
    let k: int = if n <= asc.len() {
        n as int
    } else {
        asc.len() as int
    };
    assert forall|i: int| 0 <= i < t.len() implies d.contains(#[trigger] t[i]) by {
        let idx = match side {
            Side::Bid => asc.len() - 1 - i,
            Side::Ask => i,
        };
        assert(t[i] == asc[idx]);
        assert(asc.to_set().contains(asc[idx]));
    }
    assert forall|p: i32, i: int|
        #![trigger d.contains(p), t[i]]
        d.contains(p) && !t.contains(p) && 0 <= i < t.len() implies match side {
            Side::Bid => p < t[i],
            Side::Ask => p > t[i],
        } by {
        assert(asc.to_set().contains(p));
        let j = choose|j: int| 0 <= j < asc.len() && asc[j] == p;
        match side {
            Side::Bid => {
                assert(t[i] == asc[asc.len() - 1 - i]);
                if j >= asc.len() - k {
                    assert(t[asc.len() - 1 - j] == p);
                }
                assert(j < asc.len() - 1 - i);
            },
            Side::Ask => {
                assert(t[i] == asc[i]);
                if j < k {
                    assert(t[j] == p);
                }
                assert(j > i);
            },
        }
    }
    assert forall|i: int, j: int| 0 <= i < j < t.len() implies match side {
        Side::Bid => t[i] > t[j],
        Side::Ask => t[i] < t[j],
    } by {
        match side {
            Side::Bid => {
                assert(t[i] == asc[asc.len() - 1 - i]);
                assert(t[j] == asc[asc.len() - 1 - j]);
            },
            Side::Ask => {},
        }
    }
}

/// The first of the best levels is the best price: the highest bid, the
/// lowest ask.
pub proof fn law_best_comes_first(d: Set<i32>, side: Side, n: nat)
    requires
        d.finite(),
        d.len() > 0,
        n > 0,
    ensures
        match side {
            Side::Bid => top_prices(d, side, n)[0] == highest_price(d) && is_highest(d, highest_price(d)),
            Side::Ask => top_prices(d, side, n)[0] == lowest_price(d) && is_lowest(d, lowest_price(d)),
        },
{
    law_top_prices(d, side, n);
    let t = top_prices(d, side, n);
    let p = t[0];
    assert(t.contains(p));
    match side {
        Side::Bid => {
            assert forall|q: i32| #[trigger] d.contains(q) implies q <= p by {
                if !t.contains(q) {
                    assert(q < t[0]);
                } else {
                    let i = choose|i: int| 0 <= i < t.len() && t[i] == q;
                    if i > 0 {
                        assert(t[0] > t[i]);
                    }
                }
            }
            crate::ladder::lemma_highest_is(d, p);
        },
        Side::Ask => {
            assert forall|q: i32| #[trigger] d.contains(q) implies p <= q by {
                if !t.contains(q) {
                    assert(q > t[0]);
                } else {
                    let i = choose|i: int| 0 <= i < t.len() && t[i] == q;
                    if i > 0 {
                        assert(t[0] < t[i]);
                    }
                }
            }
            crate::ladder::lemma_lowest_is(d, p);
        },
    }
}

/// A non-zero report sets the source's size at that price and leaves every
/// other source's size there as it was.
pub proof fn law_report_sets_size(s: BookState, source: Seq<char>, side: Side, price: i32, size: i32)
    requires
        size != 0,
        levels_finite(s.side(side)),
    ensures
        book_after(s, source, side, price, size).side(side).contains_key(price),
        book_after(s, source, side, price, size).side(side)[price] == level_at(s.side(side), price).insert(source, size),
{
    let l = level_at(s.side(side), price).insert(source, size);
    assert(l.dom().contains(source));
    if s.side(side).contains_key(price) {
        assert(s.side(side)[price].dom().finite());
    } else {
        assert(level_at(s.side(side), price).dom() =~= Set::<Seq<char>>::empty());
    }
    assert(l.dom().finite());
}

/// A zero report withdraws the source from that price; the level disappears
/// when no source is left in it.
pub proof fn law_withdraw_removes(s: BookState, source: Seq<char>, side: Side, price: i32)
    requires
        levels_finite(s.side(side)),
    ensures
        !level_at(book_after(s, source, side, price, 0).side(side), price).contains_key(source),
        book_after(s, source, side, price, 0).side(side).contains_key(price) <==> level_at(s.side(side), price).remove(source).dom().len() > 0,
{
}

/// A report touches only its own side of the book.
pub proof fn law_sides_independent(s: BookState, source: Seq<char>, side: Side, price: i32, size: i32)
    ensures
        book_after(s, source, side, price, size).side(opposite(side)) == s.side(opposite(side)),
{
}

/// Reports keep every level finite and non-empty.
pub proof fn law_levels_stay_nonempty(s: BookState, source: Seq<char>, side: Side, price: i32, size: i32)
    requires
        levels_nonempty(s.side(side)),
    ensures
        levels_nonempty(book_after(s, source, side, price, size).side(side)),
{
    let v = s.side(side);
    let l = level_after(v, source, price, size);
    if v.contains_key(price) {
        assert(v[price].dom().finite());
    } else {
        assert(level_at(v, price).dom() =~= Set::<Seq<char>>::empty());
    }
    assert(l.dom().finite());
}

/// Reporting the same thing twice leaves the levels as reporting it once.
pub proof fn law_report_idempotent(s: BookState, source: Seq<char>, side: Side, price: i32, size: i32)
    requires
        levels_finite(s.side(side)),
    ensures
        book_after(book_after(s, source, side, price, size), source, side, price, size).side(side)
            == book_after(s, source, side, price, size).side(side),
{
    let v = s.side(side);
    let v1 = side_after(v, source, price, size);
    let l1 = level_after(v, source, price, size);
    if v.contains_key(price) {
        assert(v[price].dom().finite());
    } else {
        assert(level_at(v, price).dom() =~= Set::<Seq<char>>::empty());
    }
    assert(l1.dom().finite());
    let l2 = level_after(v1, source, price, size);
    if l1.dom().len() == 0 {
        lemma_map_empty(l1);
        assert(level_at(v1, price) == Map::<Seq<char>, i32>::empty());
        if size == 0 {
            assert(l2 =~= Map::<Seq<char>, i32>::empty());
        } else {
            assert(l1.dom().contains(source));
        }
        lemma_map_empty(l2);
        assert(v1.remove(price) =~= v1);
    } else {
        assert(level_at(v1, price) == l1);
        assert(l2 =~= l1);
        assert(v1.insert(price, l1) =~= v1);
    }
    assert(side_after(v1, source, price, size) =~= v1);
}

/// A report followed by a withdrawal of the same source at the same price
/// gives back the levels as they were, when the source showed nothing there
/// before.
pub proof fn law_withdraw_undoes_report(s: BookState, source: Seq<char>, side: Side, price: i32, size: i32)
    requires
        size != 0,
        levels_nonempty(s.side(side)),
        !level_at(s.side(side), price).contains_key(source),
    ensures
        book_after(book_after(s, source, side, price, size), source, side, price, 0).side(side)
            == s.side(side),
        book_after(book_after(s, source, side, price, size), source, side, price, 0).side(opposite(side))
            == s.side(opposite(side)),
{
    let v = s.side(side);
    let l0 = level_at(v, price);
    let v1 = side_after(v, source, price, size);
    law_report_sets_size(s, source, side, price, size);
    assert(level_at(v1, price) == l0.insert(source, size));
    let l2 = level_after(v1, source, price, 0);
    assert(l2 =~= l0);
    if v.contains_key(price) {
        assert(l0.dom().finite() && l0.dom().len() > 0);
        assert(v1.insert(price, l0) =~= v);
    } else {
        assert(l0.dom() =~= Set::<Seq<char>>::empty());
        assert(v1.remove(price) =~= v);
    }
}

/// Reports from different sources, or for different prices, may be taken in
/// either order.
pub proof fn law_reports_commute(
    s: BookState,
    side: Side,
    a: Seq<char>,
    pa: i32,
    sa: i32,
    b: Seq<char>,
    pb: i32,
    sb: i32,
)
    requires
        levels_finite(s.side(side)),
        a != b || pa != pb,
    ensures
        book_after(book_after(s, a, side, pa, sa), b, side, pb, sb) == book_after(
            book_after(s, b, side, pb, sb),
            a,
            side,
            pa,
            sa,
        ),
{
    let v = s.side(side);
    let va = side_after(v, a, pa, sa);
    let vb = side_after(v, b, pb, sb);
    if v.contains_key(pa) {
        assert(v[pa].dom().finite());
    } else {
        assert(level_at(v, pa).dom() =~= Set::<Seq<char>>::empty());
    }
    if v.contains_key(pb) {
        assert(v[pb].dom().finite());
    } else {
        assert(level_at(v, pb).dom() =~= Set::<Seq<char>>::empty());
    }
    let la = level_after(v, a, pa, sa);
    let lb = level_after(v, b, pb, sb);
    assert(la.dom().finite() && lb.dom().finite());
    lemma_map_empty(la);
    lemma_map_empty(lb);
    // the level each report leaves behind, seen from the other order
    let lab = level_after(va, b, pb, sb);
    let lba = level_after(vb, a, pa, sa);
    if pa == pb {
        assert(level_at(va, pb) == la);
        assert(level_at(vb, pa) == lb);
        assert(lab =~= lba);
        assert(lab.dom().finite());
        lemma_map_empty(lab);
    } else {
        assert(level_at(va, pb) == level_at(v, pb));
        assert(level_at(vb, pa) == level_at(v, pa));
        assert(lab == lb);
        assert(lba == la);
    }
    assert(side_after(va, b, pb, sb) =~= side_after(vb, a, pa, sa));
    let c = s.counts;
    let cab = crate::order_book::counts_after(crate::order_book::counts_after(c, a, sa), b, sb);
    let cba = crate::order_book::counts_after(crate::order_book::counts_after(c, b, sb), a, sa);
    assert(cab =~= cba);
    let r1 = book_after(book_after(s, a, side, pa, sa), b, side, pb, sb);
    let r2 = book_after(book_after(s, b, side, pb, sb), a, side, pa, sa);
    assert(r1.bids =~= r2.bids);
    assert(r1.asks =~= r2.asks);
}

/// The best bid and best ask that `get_spread` reports head the levels
/// that `top_n` hands out.
pub proof fn law_spread_prices_lead_levels(book: &OrderBook, n: nat)
    requires
        book.wf(),
        book.two_sided(),
        n > 0,
    ensures
        top_prices(book.bid_view().dom(), Side::Bid, n)[0] == book.best_bid(),
        top_prices(book.ask_view().dom(), Side::Ask, n)[0] == book.best_ask(),
        is_highest(book.bid_view().dom(), book.best_bid()),
        is_lowest(book.ask_view().dom(), book.best_ask()),
{
    book.lemma_state_levels();
    law_best_comes_first(book.bid_view().dom(), Side::Bid, n);
    law_best_comes_first(book.ask_view().dom(), Side::Ask, n);
}

/// Asking for fewer levels gives a prefix of what asking for more gives.
pub proof fn law_top_prefix(d: Set<i32>, side: Side, n: nat, m: nat)
    requires
        n <= m,
    ensures
        top_prices(d, side, n) == top_prices(d, side, m).take(top_prices(d, side, n).len() as int),
{
    assert(top_prices(d, side, n) =~= top_prices(d, side, m).take(top_prices(d, side, n).len() as int));
}

/// Update counts never fall: a non-zero report adds one to its source's
/// count and leaves the others; a zero report leaves them all.
pub proof fn law_counts_grow(s: BookState, source: Seq<char>, side: Side, price: i32, size: i32, k: Seq<char>)
    requires
        book_update_fits(s, source, side, price, size),
    ensures
        value_or_zero(book_after(s, source, side, price, size).counts, k) == value_or_zero(s.counts, k)
            + (if size != 0 && k == source {
            1int
        } else {
            0int
        }),
{
}

proof fn lemma_byte_len_zeros(a: Seq<char>, m: nat)
    ensures
        byte_len(a + zeros(m)) == byte_len(a) + m,
    decreases m,
{
    if m == 0 {
        assert(a + zeros(0) =~= a);
    } else {
        assert((a + zeros(m)).drop_last() =~= a + zeros((m - 1) as nat));
        lemma_byte_len_zeros(a, (m - 1) as nat);
    }
}

/// `dot_trim` keeps what stands before the first '.', follows it with the
/// text after the '.' and then '0's, and ends exactly `n` bytes after the
/// place where the '.' stood; a string without '.' is left as it is.
pub proof fn law_dot_trim_shape(s: Seq<char>, n: nat)
    requires
        dot_trim_ok(s, n),
    ensures
        has_dot(s) ==> byte_len(dot_trim_spec(s, n)) == kept_bytes(s, n),
        has_dot(s) ==> dot_trim_spec(s, n).take(first_dot(s)) == s.take(first_dot(s)),
        has_dot(s) ==> forall|i: int|
            0 <= i < dot_trim_spec(s, n).len() ==> #[trigger] dot_trim_spec(s, n)[i] == (if i
                < s.len() - 1 {
                s.remove(first_dot(s))[i]
            } else {
                '0'
            }),
        !has_dot(s) ==> dot_trim_spec(s, n) == s,
{
    if has_dot(s) {
        lemma_first_dot_exists(s);
        let d = first_dot(s);
        let t = s.remove(d);
        let keep = kept_bytes(s, n);
        assert(t.take(d) =~= s.take(d));
        assert(t.take(t.len() as int) =~= t);
        if keep <= byte_len(t) {
            let k = chars_in_bytes(t, keep);
            assert(0 <= k <= t.len() && byte_len(t.take(k)) == keep);
            if k < d {
                lemma_byte_len_strict(t, k, d);
            }
            assert(t.take(k).take(d) =~= s.take(d));
        } else {
            lemma_byte_len_zeros(t, (keep - byte_len(t)) as nat);
            assert((t + zeros((keep - byte_len(t)) as nat)).take(d) =~= s.take(d));
        }
    }
}

/// Sum of the totals of copied levels.
pub open spec fn levels_volume(ls: Seq<PriceLevelSnapshot>) -> int
    decreases ls.len(),
{
    if ls.len() == 0 {
        0
    } else {
        levels_volume(ls.drop_last()) + ls.last().total
    }
}

/// Sum of price times total over copied levels.
pub open spec fn levels_notional(ls: Seq<PriceLevelSnapshot>) -> int
    decreases ls.len(),
{
    if ls.len() == 0 {
        0
    } else {
        levels_notional(ls.drop_last()) + ls.last().price * ls.last().total
    }
}

proof fn lemma_sums_of_copies(v: Map<i32, Map<Seq<char>, i32>>, ps: Seq<i32>, ls: Seq<PriceLevelSnapshot>)
    requires
        ls.len() == ps.len(),
        forall|i: int|
            0 <= i < ls.len() ==> {
                &&& (#[trigger] ls[i]).price == ps[i]
                &&& v.contains_key(ls[i].price)
                &&& ls[i].sources() == v[ls[i].price]
                &&& ls[i].wf()
            },
    ensures
        prices_volume(v, ps) == levels_volume(ls),
        prices_notional(v, ps) == levels_notional(ls),
    decreases ls.len(),
{
    if ls.len() > 0 {
        let n = ls.len() - 1;
        assert forall|i: int| 0 <= i < ls.drop_last().len() implies {
            &&& (#[trigger] ls.drop_last()[i]).price == ps.drop_last()[i]
            &&& v.contains_key(ls.drop_last()[i].price)
            &&& ls.drop_last()[i].sources() == v[ls.drop_last()[i].price]
            &&& ls.drop_last()[i].wf()
        } by {
            assert(ls.drop_last()[i] == ls[i]);
        }
        lemma_sums_of_copies(v, ps.drop_last(), ls.drop_last());
        assert(ls[n].price == ps[n]);
        assert(ls.last().total == map_sum(v[ps.last()]));
    }
}

/// The volume of the best `n` levels is the sum of the totals of exactly the
/// levels that `top_n(side, n)` hands out, and their volume-weighted average
/// price is those levels' notional over that volume; there is none when no
/// level is handed out or their volume is zero.
pub proof fn law_vwap_of_top_levels(
    v: Map<i32, Map<Seq<char>, i32>>,
    side: Side,
    n: nat,
    ls: Seq<PriceLevelSnapshot>,
)
    requires
        is_top_levels(v, side, n, ls),
    ensures
        top_volume(v, side, n) == levels_volume(ls),
        vwap_of(v, side, n) == (if ls.len() == 0 || levels_volume(ls) == 0 {
            None::<Fraction>
        } else {
            Some(Fraction { num: levels_notional(ls) as i128, den: levels_volume(ls) as i128 })
        }),
{
    lemma_sums_of_copies(v, top_prices(v.dom(), side, n), ls);
}

/// A snapshot's figures are computed over exactly the levels it lists: each
/// side's total volume is the sum of its levels' totals, its VWAP is their
/// notional over that volume, and the imbalance is the bid volume's share of
/// the volume of both sides (none when that is not positive).
pub proof fn law_snapshot_figures(book: &OrderBook, depth: nat, r: OrderBookSnapshot)
    requires
        book.wf(),
        book.describes(depth, r),
    ensures
        r.total_bid_volume == levels_volume(r.bids@),
        r.total_ask_volume == levels_volume(r.asks@),
        r.vwap_bid == (if r.bids@.len() == 0 || levels_volume(r.bids@) == 0 {
            None::<Fraction>
        } else {
            Some(Fraction { num: levels_notional(r.bids@) as i128, den: levels_volume(r.bids@) as i128 })
        }),
        r.vwap_ask == (if r.asks@.len() == 0 || levels_volume(r.asks@) == 0 {
            None::<Fraction>
        } else {
            Some(Fraction { num: levels_notional(r.asks@) as i128, den: levels_volume(r.asks@) as i128 })
        }),
        r.total_bid_volume + r.total_ask_volume > 0 ==> r.imbalance == Some(
            Fraction {
                num: r.total_bid_volume,
                den: (r.total_bid_volume + r.total_ask_volume) as i128,
            },
        ),
        r.total_bid_volume + r.total_ask_volume <= 0 ==> r.imbalance is None,
        (r.best_bid is Some && r.best_ask is Some) <==> (book.bid_view().dom().len() > 0
            && book.ask_view().dom().len() > 0),
        r.best_bid matches Some(b) ==> is_highest(book.bid_view().dom(), b),
        r.best_ask matches Some(a) ==> is_lowest(book.ask_view().dom(), a),
        match (r.best_bid, r.best_ask, r.mid_price) {
            (Some(b), Some(a), Some(m)) => r.spread == Some((a - b) as i32)
                && is_quotient_toward_zero(b + a, 2, m as int),
            (None, None, None) => r.spread is None,
            _ => false,
        },
{
    law_vwap_of_top_levels(book.bid_view(), Side::Bid, depth, r.bids@);
    law_vwap_of_top_levels(book.ask_view(), Side::Ask, depth, r.asks@);
    if book.two_sided() {
        law_spread_prices_lead_levels(book, 1);
        let x = book.best_bid() + book.best_ask();
        lemma_trunc_div_is_quotient(x, 2);
        assert(i32::MIN <= trunc_div(x, 2) <= i32::MAX);
    }
}

/// `p` lies within `offset` of `mid` on the side of `side`: at or above
/// `mid - offset` for bids, at or below `mid + offset` for asks.
pub open spec fn in_band(side: Side, p: int, mid: int, offset: int) -> bool {
    match side {
        Side::Bid => p >= mid - offset,
        Side::Ask => p <= mid + offset,
    }
}

/// Summed level totals of the prices of `ps` that lie in the band.
pub open spec fn band_volume(
    v: Map<i32, Map<Seq<char>, i32>>,
    ps: Seq<i32>,
    side: Side,
    mid: int,
    offset: int,
) -> int
    decreases ps.len(),
{
    if ps.len() == 0 {
        0
    } else {
        (if in_band(side, ps[0] as int, mid, offset) {
            map_sum(v[ps[0]])
        } else {
            0
        }) + band_volume(v, ps.drop_first(), side, mid, offset)
    }
}

proof fn lemma_band_empty(
    v: Map<i32, Map<Seq<char>, i32>>,
    ps: Seq<i32>,
    side: Side,
    mid: int,
    offset: int,
    bound: i32,
)
    requires
        !in_band(side, bound as int, mid, offset),
        forall|i: int|
            0 <= i < ps.len() ==> match side {
                Side::Bid => #[trigger] ps[i] < bound,
                Side::Ask => ps[i] > bound,
            },
    ensures
        band_volume(v, ps, side, mid, offset) == 0,
    decreases ps.len(),
{
    if ps.len() > 0 {
        assert(ps[0] == ps[0]);
        assert forall|i: int| 0 <= i < ps.drop_first().len() implies match side {
            Side::Bid => #[trigger] ps.drop_first()[i] < bound,
            Side::Ask => ps.drop_first()[i] > bound,
        } by {
            assert(ps.drop_first()[i] == ps[i + 1]);
        }
        lemma_band_empty(v, ps.drop_first(), side, mid, offset, bound);
    }
}

proof fn lemma_depth_is_band(
    v: Map<i32, Map<Seq<char>, i32>>,
    ps: Seq<i32>,
    side: Side,
    mid: int,
    offset: int,
)
    requires
        forall|i: int, j: int|
            0 <= i < j < ps.len() ==> match side {
                Side::Bid => #[trigger] ps[i] > #[trigger] ps[j],
                Side::Ask => ps[i] < ps[j],
            },
    ensures
        depth_volume(
            v,
            ps,
            side,
            match side {
                Side::Bid => mid - offset,
                Side::Ask => mid + offset,
            },
        ) == band_volume(v, ps, side, mid, offset),
    decreases ps.len(),
{
    if ps.len() > 0 {
        let rest = ps.drop_first();
        assert forall|i: int, j: int| 0 <= i < j < rest.len() implies match side {
            Side::Bid => #[trigger] rest[i] > #[trigger] rest[j],
            Side::Ask => rest[i] < rest[j],
        } by {
            assert(rest[i] == ps[i + 1] && rest[j] == ps[j + 1]);
        }
        if in_band(side, ps[0] as int, mid, offset) {
            lemma_depth_is_band(v, rest, side, mid, offset);
        } else {
            assert forall|i: int| 0 <= i < rest.len() implies match side {
                Side::Bid => #[trigger] rest[i] < ps[0],
                Side::Ask => rest[i] > ps[0],
            } by {
                assert(rest[i] == ps[i + 1]);
                assert(ps[0] == ps[0] && ps[i + 1] == ps[i + 1]);
            }
            lemma_band_empty(v, rest, side, mid, offset, ps[0]);
        }
    }
}

proof fn lemma_band_last(
    v: Map<i32, Map<Seq<char>, i32>>,
    ps: Seq<i32>,
    side: Side,
    mid: int,
    offset: int,
)
    requires
        ps.len() > 0,
    ensures
        band_volume(v, ps, side, mid, offset) == band_volume(v, ps.drop_last(), side, mid, offset) + (
        if in_band(side, ps.last() as int, mid, offset) {
            map_sum(v[ps.last()])
        } else {
            0
        }),
    decreases ps.len(),
{
    if ps.len() > 1 {
        let df = ps.drop_first();
        let dl = ps.drop_last();
        assert(df.drop_last() =~= dl.drop_first());
        assert(df.last() == ps.last());
        assert(dl[0] == ps[0]);
        lemma_band_last(v, df, side, mid, offset);
        assert(band_volume(v, dl, side, mid, offset) == (if in_band(side, dl[0] as int, mid, offset) {
            map_sum(v[dl[0]])
        } else {
            0
        }) + band_volume(v, dl.drop_first(), side, mid, offset));
    } else {
        assert(ps.drop_first().len() == 0);
        assert(ps.drop_last().len() == 0);
        assert(ps.last() == ps[0]);
        assert(band_volume(v, ps.drop_first(), side, mid, offset) == 0);
        assert(band_volume(v, ps.drop_last(), side, mid, offset) == 0);
    }
}

proof fn lemma_band_reverse(
    v: Map<i32, Map<Seq<char>, i32>>,
    ps: Seq<i32>,
    side: Side,
    mid: int,
    offset: int,
)
    ensures
        band_volume(v, ps.reverse(), side, mid, offset) == band_volume(v, ps, side, mid, offset),
    decreases ps.len(),
{
    if ps.len() > 0 {
        assert(ps.reverse().drop_first() =~= ps.drop_last().reverse());
        assert(ps.reverse()[0] == ps.last());
        lemma_band_reverse(v, ps.drop_last(), side, mid, offset);
        lemma_band_last(v, ps, side, mid, offset);
    }
}

/// `q` is `x / d` rounded toward zero (for `d > 0`): what is left over is
/// smaller than `d` and has the sign of `x`.
pub open spec fn is_quotient_toward_zero(x: int, d: int, q: int) -> bool {
    if x >= 0 {
        0 <= x - q * d < d
    } else {
        -d < x - q * d <= 0
    }
}

/// `x` clamped into the range of `i32`.
pub open spec fn clamp_i32(x: int) -> int {
    if x > i32::MAX {
        i32::MAX as int
    } else if x < i32::MIN {
        i32::MIN as int
    } else {
        x
    }
}

proof fn lemma_trunc_div_is_quotient(x: int, d: int)
    requires
        d > 0,
    ensures
        is_quotient_toward_zero(x, d, trunc_div(x, d)),
        x >= 0 ==> 0 <= trunc_div(x, d) <= x,
        x < 0 ==> x <= trunc_div(x, d) <= 0,
{
    if x >= 0 {
        let t = x / d;
        vstd::arithmetic::div_mod::lemma_fundamental_div_mod(x, d);
        let m = x % d;
        assert(0 <= m < d);
        assert(0 <= x - t * d < d && 0 <= t <= x) by (nonlinear_arith)
            requires
                x >= 0,
                x == d * t + m,
                0 <= m < d,
                d > 0,
        ;
    } else {
        let y = -x;
        let t = y / d;
        vstd::arithmetic::div_mod::lemma_fundamental_div_mod(y, d);
        let m = y % d;
        assert(0 <= m < d);
        assert(-d < x - (-t) * d <= 0 && 0 <= t <= y) by (nonlinear_arith)
            requires
                y > 0,
                y == -x,
                y == d * t + m,
                0 <= m < d,
                d > 0,
        ;
    }
}

proof fn lemma_quotient_is_trunc_div(x: int, d: int, q: int)
    requires
        d > 0,
        is_quotient_toward_zero(x, d, q),
    ensures
        q == trunc_div(x, d),
{
    if x >= 0 {
        let t = x / d;
        vstd::arithmetic::div_mod::lemma_fundamental_div_mod(x, d);
        let m = x % d;
        assert(0 <= m < d);
        assert(q == t) by (nonlinear_arith)
            requires
                0 <= x - q * d < d,
                x == d * t + m,
                0 <= m < d,
                d > 0,
        ;
    } else {
        let y = -x;
        let t = y / d;
        vstd::arithmetic::div_mod::lemma_fundamental_div_mod(y, d);
        let m = y % d;
        assert(0 <= m < d);
        assert(-q == t) by (nonlinear_arith)
            requires
                -d < x - q * d <= 0,
                y == -x,
                y == d * t + m,
                0 <= m < d,
                d > 0,
        ;
    }
}

/// Depth within `bps` basis points counts every level of the side whose
/// price lies within that many basis points of the mid price (the offset
/// cut toward zero and kept within `i32`): it is the summed totals of all
/// such prices of the side, for a two-sided book with at most 1000 levels on
/// that side; a book missing a side has no depth.
pub proof fn law_depth_counts_every_level_in_band(book: &OrderBook, side: Side, bps: int)
    requires
        book.wf(),
        book.side_levels(side).dom().len() <= 1000,
    ensures
        !book.two_sided() ==> book.depth_within(side, bps) is None,
        forall|mid: int, q: int|
            #![trigger is_quotient_toward_zero(book.best_bid() + book.best_ask(), 2, mid), is_quotient_toward_zero(mid * bps, 10000, q)]
            book.two_sided() && is_quotient_toward_zero(book.best_bid() + book.best_ask(), 2, mid)
                && is_quotient_toward_zero(mid * bps, 10000, q) ==> book.depth_within(side, bps) == Some(
                band_volume(
                    book.side_levels(side),
                    ascending_prices(book.side_levels(side).dom()),
                    side,
                    mid,
                    clamp_i32(q),
                ),
            ),
{
    assert forall|mid: int, q: int|
        #![trigger is_quotient_toward_zero(book.best_bid() + book.best_ask(), 2, mid), is_quotient_toward_zero(mid * bps, 10000, q)]
        book.two_sided() && is_quotient_toward_zero(book.best_bid() + book.best_ask(), 2, mid)
            && is_quotient_toward_zero(mid * bps, 10000, q) implies book.depth_within(side, bps) == Some(
            band_volume(
                book.side_levels(side),
                ascending_prices(book.side_levels(side).dom()),
                side,
                mid,
                clamp_i32(q),
            ),
        ) by {
        lemma_quotient_is_trunc_div(book.best_bid() + book.best_ask(), 2, mid);
        lemma_quotient_is_trunc_div(mid * bps, 10000, q);
        assert(clamp_i32(q) == saturate_i32(q));
        lemma_depth_in_band(book, side, bps);
    }
}

proof fn lemma_depth_in_band(book: &OrderBook, side: Side, bps: int)
    requires
        book.wf(),
        book.side_levels(side).dom().len() <= 1000,
    ensures
        book.two_sided() ==> {
            let mid = trunc_div(book.best_bid() + book.best_ask(), 2);
            let offset = saturate_i32(trunc_div(mid * bps, 10000));
            let v = book.side_levels(side);
            book.depth_within(side, bps) == Some(
                band_volume(v, ascending_prices(v.dom()), side, mid, offset),
            )
        },
{
    broadcast use vstd::seq_lib::group_seq_properties;
    if book.two_sided() {
        book.lemma_state_levels();
        let v = book.side_levels(side);
        let d = v.dom();
        assert(d.finite());
        let mid = trunc_div(book.best_bid() + book.best_ask(), 2);
        let offset = saturate_i32(trunc_div(mid * bps, 10000));
        lemma_ascending_exists(d);
        let asc = ascending_prices(d);
        assert(asc.no_duplicates()) by {
            assert forall|i: int, j: int| 0 <= i < asc.len() && 0 <= j < asc.len() && i != j implies asc[i] != asc[j] by {
                if i < j {
                    assert(asc[i] < asc[j]);
                } else {
                    assert(asc[j] < asc[i]);
                }
            }
        }
        asc.unique_seq_to_set();
        assert(asc.len() == d.len());
        let ps = top_prices(d, side, 1000);
        law_top_prices(d, side, 1000);
        assert(depth_target(book.best_bid() as int, book.best_ask() as int, side, bps) == match side {
            Side::Bid => mid - offset,
            Side::Ask => mid + offset,
        });
        lemma_depth_is_band(v, ps, side, mid, offset);
        match side {
            Side::Bid => {
                assert(ps =~= asc.reverse());
                lemma_band_reverse(v, asc, side, mid, offset);
            },
            Side::Ask => {
                assert(ps =~= asc);
            },
        }
    }
}

/// A report is refused only where it would overflow: it fits exactly when
/// the touched level's total after it lies within `i32` and, for a non-zero
/// size, the source has taken fewer than `i32::MAX` reports so far.
pub proof fn law_update_fits_only_on_overflow(
    book: &OrderBook,
    source: Seq<char>,
    side: Side,
    price: i32,
    size: i32,
)
    requires
        book.wf(),
    ensures
        book.update_fits(source, side, price, size) <==> {
            let v = book.side_levels(side);
            let before = if v.contains_key(price) {
                v[price]
            } else {
                Map::<Seq<char>, i32>::empty()
            };
            let after = if size == 0 {
                before.remove(source)
            } else {
                before.insert(source, size)
            };
            let c = book.update_counts();
            &&& fits_i32(map_sum(after))
            &&& size != 0 ==> !c.contains_key(source) || c[source] < i32::MAX
        },
{
}

/// Withdrawing a source from a price where it shows nothing always fits,
/// so such a report is taken (and changes nothing).
pub proof fn law_idle_withdrawal_fits(book: &OrderBook, source: Seq<char>, side: Side, price: i32)
    requires
        book.wf(),
        !(book.side_levels(side).contains_key(price) && book.side_levels(side)[price].contains_key(
            source,
        )),
    ensures
        book.update_fits(source, side, price, 0),
        book_after(book.state(), source, side, price, 0) == book.state(),
{
    law_update_fits_only_on_overflow(book, source, side, price, 0);
    book.lemma_state_levels();
    let v = book.side_levels(side);
    if v.contains_key(price) {
        assert(v[price].remove(source) =~= v[price]);
        book.lemma_level_totals_fit(side, price);
        assert(v.insert(price, v[price]) =~= v);
    } else {
        let e = Map::<Seq<char>, i32>::empty();
        assert(e.remove(source) =~= e);
        assert(e.dom() =~= Set::<Seq<char>>::empty());
        lemma_map_sum_empty(e);
        assert(v.remove(price) =~= v);
    }
    let s = book.state();
    let r = book_after(s, source, side, price, 0);
    assert(r.bids =~= s.bids);
    assert(r.asks =~= s.asks);
    assert(r.counts =~= s.counts);
}

} // verus!
