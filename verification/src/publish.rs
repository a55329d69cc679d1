use vstd::prelude::*;
use crate::ladder::{is_top_levels, top_prices};
use crate::order_book::{OrderBook, PriceLevelSnapshot, Side};
use crate::tally::map_sum;

verus! {

/// The one topic that subscribers may ask for.
pub open spec fn prices_topic() -> Seq<char> {
    seq!['p', 'r', 'i', 'c', 'e', 's']
}

/// Subscriptions are accepted for the "prices" topic only.
pub fn topic_allowed(topic: &str) -> (r: bool)
    ensures
        r == (topic@ == prices_topic()),
{
    proof {
        reveal_strlit("prices");
    }
    let allowed = String::from_str("prices");
    let asked = String::from_str(topic);
    assert(allowed@ =~= prices_topic());
    asked == allowed
}

/// One published level: price and total size, in fixed point.
#[derive(Debug, Clone, Copy, PartialEq, Eq, Structural)]
pub struct PublishedLevel {
    pub price: i32,
    pub size: i32,
}

/// What each subscriber is sent: the spread, the best ten bids from the
/// highest down and the best ten asks listed from the tenth best up to the
/// best, so that the asks read from high to low above the bids.
#[derive(Debug)]
pub struct PriceUpdate {
    pub spread: i32,
    pub bids: Vec<PublishedLevel>,
    pub asks: Vec<PublishedLevel>,
}

/// Levels published per side.
pub open spec fn published_depth() -> nat {
    10
}

/// `out` lists the best ten levels of side `v` as price and total, best
/// first, or best last where `reverse`.
pub open spec fn publishes_top(v: Map<i32, Map<Seq<char>, i32>>, side: Side, reverse: bool, out: Seq<PublishedLevel>) -> bool {
    let tp = top_prices(v.dom(), side, published_depth());
    &&& out.len() == tp.len()
    &&& forall|i: int|
        0 <= i < out.len() ==> {
            let p = if reverse {
                tp[tp.len() - 1 - i]
            } else {
                tp[i]
            };
            (#[trigger] out[i]).price == p && out[i].size == map_sum(v[p])
        }
}

/// `out` lists `levels` (reversed where `reverse`) as price and total.
pub open spec fn publishes(levels: Seq<PriceLevelSnapshot>, reverse: bool, out: Seq<PublishedLevel>) -> bool {
    &&& out.len() == levels.len()
    &&& forall|i: int|
        0 <= i < out.len() ==> {
            let l = if reverse {
                levels[levels.len() - 1 - i]
            } else {
                levels[i]
            };
            (#[trigger] out[i]).price == l.price && out[i].size == l.total
        }
}

fn publish_levels(levels: &Vec<PriceLevelSnapshot>, reverse: bool) -> (r: Vec<PublishedLevel>)
    ensures
        publishes(levels@, reverse, r@),
{
    let len = levels.len();
    let mut out: Vec<PublishedLevel> = Vec::new();
    let mut i: usize = 0;
    while i < len
        invariant
            len == levels@.len(),
            0 <= i <= len,
            out@.len() == i,
            forall|j: int|
                0 <= j < i ==> {
                    let l = if reverse {
                        levels@[len - 1 - j]
                    } else {
                        levels@[j]
                    };
                    (#[trigger] out@[j]).price == l.price && out@[j].size == l.total
                },
        decreases len - i,
    {
        let idx = if reverse {
            len - 1 - i
        } else {
            i
        };
        out.push(PublishedLevel { price: levels[idx].price, size: levels[idx].total });
        i = i + 1;
    }
    out
}

/// The update sent to subscribers for a two-sided book.
pub fn price_update(book: &OrderBook) -> (r: PriceUpdate)
    requires
        book.wf(),
        book.spread_fits(),
        book.two_sided(),
    ensures
        r.spread == book.best_ask() - book.best_bid(),
        publishes_top(book.bid_view(), Side::Bid, false, r.bids@),
        publishes_top(book.ask_view(), Side::Ask, true, r.asks@),
{
    let spread = match book.get_spread() {
        Some((b, a, s)) => {
            proof {
                crate::ladder::lemma_highest_is(book.bid_view().dom(), b);
                crate::ladder::lemma_lowest_is(book.ask_view().dom(), a);
            }
            s
        },
        None => {
            proof {
                book.lemma_state_levels();
            }
            0
        },
    };
    let bids = book.top_n(Side::Bid, 10);
    let asks = book.top_n(Side::Ask, 10);
    let pb = publish_levels(&bids, false);
    let pa = publish_levels(&asks, true);
    assert(publishes_top(book.bid_view(), Side::Bid, false, pb@)) by {
        let tp = top_prices(book.bid_view().dom(), Side::Bid, published_depth());
        assert forall|i: int| 0 <= i < pb@.len() implies (#[trigger] pb@[i]).price == tp[i]
            && pb@[i].size == map_sum(book.bid_view()[tp[i]]) by {
            assert(bids@[i].price == tp[i]);
        }
    }
    assert(publishes_top(book.ask_view(), Side::Ask, true, pa@)) by {
        let tp = top_prices(book.ask_view().dom(), Side::Ask, published_depth());
        assert forall|i: int| 0 <= i < pa@.len() implies (#[trigger] pa@[i]).price == tp[tp.len() - 1 - i]
            && pa@[i].size == map_sum(book.ask_view()[tp[tp.len() - 1 - i]]) by {
            assert(asks@[asks@.len() - 1 - i].price == tp[tp.len() - 1 - i]);
        }
    }
    PriceUpdate { spread, bids: pb, asks: pa }
}

} // verus!
