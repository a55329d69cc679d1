use vstd::prelude::*;
use crate::helpers::{parse_scaled, parse_scaled_spec};
use crate::order_book::{
    book_after, book_update_fits, BookState, OrderBook, Side, PRICE_PRECISION, SIZE_PRECISION,
};

verus! {

/// Why a level of an exchange message was not taken.
#[derive(Debug, Clone, Copy, PartialEq, Eq, Structural)]
pub enum LevelFault {
    /// The price is not a decimal that fits the book's fixed point.
    Price,
    /// The size is not a decimal that fits the book's fixed point.
    Size,
    /// Taking the level would leave `i32` (a level total or an update count).
    Overflow,
}

/// The level at `index` on `side` of a message was not taken.
#[derive(Debug, Clone, Copy, PartialEq, Eq, Structural)]
pub struct LevelError {
    pub side: Side,
    pub index: usize,
    pub fault: LevelFault,
}

/// The levels of an exchange depth message, as decimal text: (price, size).
#[derive(Debug)]
pub struct RawDepth {
    pub bids: Vec<(String, String)>,
    pub asks: Vec<(String, String)>,
}

/// The levels as character sequences.
pub open spec fn raw_view(levels: Seq<(String, String)>) -> Seq<(Seq<char>, Seq<char>)> {
    levels.map_values(|e: (String, String)| (e.0@, e.1@))
}

/// A level read as fixed-point integers: price at `PRICE_PRECISION`, size at `SIZE_PRECISION`.
pub open spec fn parse_level(l: (Seq<char>, Seq<char>)) -> Option<(i32, i32)> {
    match (parse_scaled_spec(l.0, PRICE_PRECISION as nat), parse_scaled_spec(l.1, SIZE_PRECISION as nat)) {
        (Some(p), Some(q)) => Some((p, q)),
        _ => None,
    }
}

/// The first `k` levels, read (meaningful where they all parse).
pub open spec fn parsed_prefix(levels: Seq<(Seq<char>, Seq<char>)>, k: int) -> Seq<(i32, i32)> {
    Seq::new(k as nat, |i: int| parse_level(levels[i]).unwrap())
}

/// The book after `source` reports each of `reports` in turn on `side`.
pub open spec fn book_after_levels(s: BookState, source: Seq<char>, side: Side, reports: Seq<(i32, i32)>) -> BookState
    decreases reports.len(),
{
    if reports.len() == 0 {
        s
    } else {
        book_after(
            book_after_levels(s, source, side, reports.drop_last()),
            source,
            side,
            reports.last().0,
            reports.last().1,
        )
    }
}

/// What taking `levels` on `side` did: the first `k` levels parsed and were
/// taken in order, where `k` is all of them on success and the failing
/// index otherwise; a failure says why the level at `k` was not taken.
pub open spec fn levels_outcome(
    before: BookState,
    after: BookState,
    source: Seq<char>,
    side: Side,
    levels: Seq<(Seq<char>, Seq<char>)>,
    r: Result<(), LevelError>,
) -> bool {
    let k: int = match r {
        Ok(_) => levels.len() as int,
        Err(e) => e.index as int,
    };
    &&& 0 <= k <= levels.len()
    &&& forall|i: int| 0 <= i < k ==> (#[trigger] parse_level(levels[i])) is Some
    &&& after == book_after_levels(before, source, side, parsed_prefix(levels, k))
    &&& match r {
        Ok(_) => true,
        Err(e) => {
            &&& e.side == side
            &&& k < levels.len()
            &&& match e.fault {
                LevelFault::Price => parse_scaled_spec(levels[k].0, PRICE_PRECISION as nat) is None,
                LevelFault::Size => parse_scaled_spec(levels[k].0, PRICE_PRECISION as nat) is Some
                    && parse_scaled_spec(levels[k].1, SIZE_PRECISION as nat) is None,
                LevelFault::Overflow => parse_level(levels[k]) is Some && !book_update_fits(
                    after,
                    source,
                    side,
                    parse_level(levels[k]).unwrap().0,
                    parse_level(levels[k]).unwrap().1,
                ),
            }
        },
    }
}

/// Takes the levels of one side of a message from `source`, in order,
/// stopping at the first that does not parse or does not fit.
pub fn apply_levels(book: &mut OrderBook, source: &str, side: Side, levels: &Vec<(String, String)>) -> (r: Result<(), LevelError>)
    requires
        old(book).wf(),
    ensures
        final(book).wf(),
        levels_outcome(old(book).state(), final(book).state(), source@, side, raw_view(levels@), r),
{
    let ghost raw = raw_view(levels@);
    let ghost start = book.state();
    let len = levels.len();
    let mut i: usize = 0;
    while i < len
        invariant
            len == levels@.len(),
            raw == raw_view(levels@),
            start == old(book).state(),
            book.wf(),
            0 <= i <= len,
            forall|j: int| 0 <= j < i ==> (#[trigger] parse_level(raw[j])) is Some,
            book.state() == book_after_levels(start, source@, side, parsed_prefix(raw, i as int)),
        decreases len - i,
    {
        assert(raw[i as int] == (levels@[i as int].0@, levels@[i as int].1@));
        let price = match parse_scaled(levels[i].0.as_str(), PRICE_PRECISION) {
            Some(p) => p,
            None => {
                return Err(LevelError { side, index: i, fault: LevelFault::Price });
            },
        };
        let size = match parse_scaled(levels[i].1.as_str(), SIZE_PRECISION) {
            Some(q) => q,
            None => {
                return Err(LevelError { side, index: i, fault: LevelFault::Size });
            },
        };
        assert(parse_level(raw[i as int]) == Some((price, size)));
        if !book.can_apply_update(source, side, price, size) {
            return Err(LevelError { side, index: i, fault: LevelFault::Overflow });
        }
        book.apply_update(source, side, price, size);
        assert(parsed_prefix(raw, i + 1).drop_last() =~= parsed_prefix(raw, i as int));
        i = i + 1;
    }
    Ok(())
}

/// What taking a whole message did: all bids first, then all asks; a failure
/// on the bid side leaves the asks untouched.
pub open spec fn depth_outcome(
    before: BookState,
    after: BookState,
    source: Seq<char>,
    bids: Seq<(Seq<char>, Seq<char>)>,
    asks: Seq<(Seq<char>, Seq<char>)>,
    r: Result<(), LevelError>,
) -> bool {
    let mid = book_after_levels(before, source, Side::Bid, parsed_prefix(bids, bids.len() as int));
    match r {
        Ok(_) => levels_outcome(before, mid, source, Side::Bid, bids, Ok(()))
            && levels_outcome(mid, after, source, Side::Ask, asks, Ok(())),
        Err(e) => match e.side {
            Side::Bid => levels_outcome(before, after, source, Side::Bid, bids, r),
            Side::Ask => levels_outcome(before, mid, source, Side::Bid, bids, Ok(()))
                && levels_outcome(mid, after, source, Side::Ask, asks, r),
        },
    }
}

/// Takes a depth message from `source`: its bids, then its asks.
pub fn apply_depth(book: &mut OrderBook, source: &str, depth: &RawDepth) -> (r: Result<(), LevelError>)
    requires
        old(book).wf(),
    ensures
        final(book).wf(),
        depth_outcome(
            old(book).state(),
            final(book).state(),
            source@,
            raw_view(depth.bids@),
            raw_view(depth.asks@),
            r,
        ),
{
    let ghost before = book.state();
    match apply_levels(book, source, Side::Bid, &depth.bids) {
        Ok(()) => {},
        Err(e) => {
            return Err(e);
        },
    }
    apply_levels(book, source, Side::Ask, &depth.asks)
}

/// Source name under which Binance levels are kept.
pub open spec fn binance_name() -> Seq<char> {
    seq!['B', 'I', 'N', 'A', 'N', 'C', 'E']
}

/// Source name under which OKX levels are kept.
pub open spec fn okx_name() -> Seq<char> {
    seq!['O', 'K', 'X']
}

/// A Binance depth message is applied only when its final update id is
/// newer than the snapshot the book was built from; messages without one
/// are skipped.
pub fn binance_update_is_new(final_update_id: Option<i64>, last_update_id: i64) -> (r: bool)
    ensures
        r == match final_update_id {
            Some(u) => u > last_update_id,
            None => false,
        },
{
    match final_update_id {
        Some(u) => u > last_update_id,
        None => false,
    }
}

/// Takes a Binance depth message (or snapshot) into the book under "BINANCE".
pub fn apply_binance_update(book: &mut OrderBook, update: &RawDepth) -> (r: Result<(), LevelError>)
    requires
        old(book).wf(),
    ensures
        final(book).wf(),
        depth_outcome(
            old(book).state(),
            final(book).state(),
            binance_name(),
            raw_view(update.bids@),
            raw_view(update.asks@),
            r,
        ),
{
    proof {
        reveal_strlit("BINANCE");
    }
    let name = "BINANCE";
    assert(name@ =~= binance_name());
    apply_depth(book, name, update)
}

/// Takes an OKX book message: the first entry of its data, under "OKX".
/// A message without data changes nothing and yields `Ok(false)`.
pub fn apply_okx_update(book: &mut OrderBook, data: &Vec<RawDepth>) -> (r: Result<bool, LevelError>)
    requires
        old(book).wf(),
    ensures
        final(book).wf(),
        data@.len() == 0 ==> r == Ok::<bool, LevelError>(false) && final(book).state() == old(book).state(),
        data@.len() > 0 ==> depth_outcome(
            old(book).state(),
            final(book).state(),
            okx_name(),
            raw_view(data@[0].bids@),
            raw_view(data@[0].asks@),
            match r {
                Ok(_) => Ok(()),
                Err(e) => Err(e),
            },
        ) && (r matches Ok(b) ==> b),
{
    if data.len() == 0 {
        return Ok(false);
    }
    proof {
        reveal_strlit("OKX");
    }
    let name = "OKX";
    assert(name@ =~= okx_name());
    match apply_depth(book, name, &data[0]) {
        Ok(()) => Ok(true),
        Err(e) => Err(e),
    }
}

/// What `decode_depth_json` reads from the JSON text `text`: the integer
/// under `id_key`, and under `bids_key` and `asks_key` the first two entries
/// of each level as JSON text; none where the text is not JSON.
pub uninterp spec fn depth_json(
    text: Seq<char>,
    id_key: Seq<char>,
    bids_key: Seq<char>,
    asks_key: Seq<char>,
) -> Option<(Option<i64>, Seq<(Seq<char>, Seq<char>)>, Seq<(Seq<char>, Seq<char>)>)>;

/// Parses `text` with `serde_json::from_str` into a `serde_json::Value`
/// (none where that fails), then reads `value[id_key].as_i64()` and, for
/// each of `bids_key` and `asks_key`, the entries `l` of
/// `value[key].as_array()` (no entries where it is not an array) as the
/// pair of `l[0].to_string()` and `l[1].to_string()`. Indexing a `Value`
/// that lacks the key or position gives `Null`, whose text is "null". The
/// result depends on the arguments alone and is named by `depth_json`.
#[verifier::external_body]
fn decode_depth_json(text: &str, id_key: &str, bids_key: &str, asks_key: &str) -> (r: Option<
    (Option<i64>, Vec<(String, String)>, Vec<(String, String)>),
>)
    ensures
        match r {
            Some((id, bids, asks)) => depth_json(text@, id_key@, bids_key@, asks_key@) == Some(
                (id, raw_view(bids@), raw_view(asks@)),
            ),
            None => depth_json(text@, id_key@, bids_key@, asks_key@) is None,
        },
{
    match serde_json::from_str::<serde_json::Value>(text) {
        Ok(v) => {
            let side = |k: &str| -> Vec<(String, String)> {
                match v[k].as_array() {
                    Some(ls) => ls.iter().map(|l| (l[0].to_string(), l[1].to_string())).collect(),
                    None => Vec::new(),
                }
            };
            Some((v[id_key].as_i64(), side(bids_key), side(asks_key)))
        },
        Err(_) => None,
    }
}

/// `s` without its '"' characters.
pub open spec fn unquote(s: Seq<char>) -> Seq<char>
    decreases s.len(),
{
    if s.len() == 0 {
        Seq::empty()
    } else if s.last() == '"' {
        unquote(s.drop_last())
    } else {
        unquote(s.drop_last()).push(s.last())
    }
}

/// Levels with the quotes of their JSON strings dropped.
pub open spec fn unquoted(levels: Seq<(Seq<char>, Seq<char>)>) -> Seq<(Seq<char>, Seq<char>)> {
    levels.map_values(|l: (Seq<char>, Seq<char>)| (unquote(l.0), unquote(l.1)))
}

fn unquote_string(s: &String) -> (r: String)
    ensures
        r@ == unquote(s@),
{
    let st = s.as_str();
    let len = st.unicode_len();
    let mut r = String::new();
    let mut j: usize = 0;
    while j < len
        invariant
            len == s@.len(),
            st@ == s@,
            0 <= j <= len,
            r@ == unquote(s@.take(j as int)),
        decreases len - j,
    {
        assert(s@.take(j + 1).drop_last() =~= s@.take(j as int));
        if st.get_char(j) != '"' {
            let one = st.substring_char(j, j + 1);
            assert(one@ =~= seq![s@[j as int]]);
            r.append(one);
            assert(r@ =~= unquote(s@.take(j + 1)));
        }
        j = j + 1;
    }
    assert(s@.take(len as int) =~= s@);
    r
}

fn unquote_levels(levels: &Vec<(String, String)>) -> (r: Vec<(String, String)>)
    ensures
        raw_view(r@) == unquoted(raw_view(levels@)),
{
    let mut r: Vec<(String, String)> = Vec::new();
    let mut i: usize = 0;
    while i < levels.len()
        invariant
            0 <= i <= levels@.len(),
            r@.len() == i,
            forall|k: int|
                0 <= k < i ==> (#[trigger] r@[k]).0@ == unquote(levels@[k].0@) && r@[k].1@
                    == unquote(levels@[k].1@),
        decreases levels@.len() - i,
    {
        let price = unquote_string(&levels[i].0);
        let size = unquote_string(&levels[i].1);
        r.push((price, size));
        i = i + 1;
    }
    assert(raw_view(r@) =~= unquoted(raw_view(levels@)));
    r
}

/// The key of a Binance diff's final update id.
pub open spec fn final_id_key() -> Seq<char> {
    seq!['u']
}

/// The key of a Binance snapshot's update id.
pub open spec fn snapshot_id_key() -> Seq<char> {
    seq!['l', 'a', 's', 't', 'U', 'p', 'd', 'a', 't', 'e', 'I', 'd']
}

/// What became of a Binance message.
#[derive(Debug, Clone, Copy, PartialEq, Eq, Structural)]
pub enum MessageOutcome {
    /// The text is not JSON; the book is untouched.
    Unreadable,
    /// It has no final update id, or one no newer than the book; the book is untouched.
    Skipped,
    /// Its levels were all taken.
    Applied,
}

/// The result without its payload.
pub open spec fn as_unit<T>(r: Result<T, LevelError>) -> Result<(), LevelError> {
    match r {
        Ok(_) => Ok(()),
        Err(e) => Err(e),
    }
}

/// What `apply_binance_message` does with the diff `text`: nothing unless it
/// decodes and carries a final update id newer than `last_update_id`; then
/// its bids and asks ("b", "a"), quotes dropped, are taken under "BINANCE".
pub open spec fn binance_message_outcome(
    before: BookState,
    after: BookState,
    text: Seq<char>,
    last_update_id: i64,
    r: Result<MessageOutcome, LevelError>,
) -> bool {
    let m = depth_json(text, final_id_key(), seq!['b'], seq!['a']);
    if m is None {
        r == Ok::<MessageOutcome, LevelError>(MessageOutcome::Unreadable) && after == before
    } else if !(m.unwrap().0 matches Some(u) && u > last_update_id) {
        r == Ok::<MessageOutcome, LevelError>(MessageOutcome::Skipped) && after == before
    } else {
        &&& depth_outcome(
            before,
            after,
            binance_name(),
            unquoted(m.unwrap().1),
            unquoted(m.unwrap().2),
            as_unit(r),
        )
        &&& r matches Ok(o) ==> o == MessageOutcome::Applied
    }
}

/// Takes a Binance depth diff, given as the WebSocket message text, into the
/// book, where it is newer than the snapshot with update id `last_update_id`.
pub fn apply_binance_message(book: &mut OrderBook, text: &str, last_update_id: i64) -> (r: Result<
    MessageOutcome,
    LevelError,
>)
    requires
        old(book).wf(),
    ensures
        final(book).wf(),
        binance_message_outcome(old(book).state(), final(book).state(), text@, last_update_id, r),
{
    proof {
        reveal_strlit("u");
        reveal_strlit("b");
        reveal_strlit("a");
    }
    let (id_key, bids_key, asks_key) = ("u", "b", "a");
    assert(id_key@ =~= final_id_key());
    assert(bids_key@ =~= seq!['b']);
    assert(asks_key@ =~= seq!['a']);
    let (id, bids, asks) = match decode_depth_json(text, id_key, bids_key, asks_key) {
        Some(m) => m,
        None => {
            return Ok(MessageOutcome::Unreadable);
        },
    };
    if !binance_update_is_new(id, last_update_id) {
        return Ok(MessageOutcome::Skipped);
    }
    let depth = RawDepth { bids: unquote_levels(&bids), asks: unquote_levels(&asks) };
    match apply_binance_update(book, &depth) {
        Ok(()) => Ok(MessageOutcome::Applied),
        Err(e) => Err(e),
    }
}

/// What `apply_binance_snapshot` does with the REST snapshot `text`: nothing
/// unless it decodes and carries an update id ("lastUpdateId"); then its
/// bids and asks ("bids", "asks"), quotes dropped, are taken under "BINANCE"
/// and the update id is returned.
pub open spec fn binance_snapshot_outcome(
    before: BookState,
    after: BookState,
    text: Seq<char>,
    r: Result<Option<i64>, LevelError>,
) -> bool {
    let m = depth_json(
        text,
        snapshot_id_key(),
        seq!['b', 'i', 'd', 's'],
        seq!['a', 's', 'k', 's'],
    );
    if m is None || m.unwrap().0 is None {
        r == Ok::<Option<i64>, LevelError>(None) && after == before
    } else {
        &&& depth_outcome(
            before,
            after,
            binance_name(),
            unquoted(m.unwrap().1),
            unquoted(m.unwrap().2),
            as_unit(r),
        )
        &&& r matches Ok(id) ==> id == m.unwrap().0
    }
}

/// Takes a Binance REST depth snapshot, given as the response text, into the
/// book, and returns its update id; none where the text does not decode or
/// has no update id.
pub fn apply_binance_snapshot(book: &mut OrderBook, text: &str) -> (r: Result<Option<i64>, LevelError>)
    requires
        old(book).wf(),
    ensures
        final(book).wf(),
        binance_snapshot_outcome(old(book).state(), final(book).state(), text@, r),
{
    proof {
        reveal_strlit("lastUpdateId");
        reveal_strlit("bids");
        reveal_strlit("asks");
    }
    let (id_key, bids_key, asks_key) = ("lastUpdateId", "bids", "asks");
    assert(id_key@ =~= snapshot_id_key());
    assert(bids_key@ =~= seq!['b', 'i', 'd', 's']);
    assert(asks_key@ =~= seq!['a', 's', 'k', 's']);
    let (id, bids, asks) = match decode_depth_json(text, id_key, bids_key, asks_key) {
        Some(m) => m,
        None => {
            return Ok(None);
        },
    };
    if id.is_none() {
        return Ok(None);
    }
    let depth = RawDepth { bids: unquote_levels(&bids), asks: unquote_levels(&asks) };
    match apply_binance_update(book, &depth) {
        Ok(()) => Ok(id),
        Err(e) => Err(e),
    }
}

/// How a Binance diff relates to the book's last update id.
#[derive(Debug, Clone, Copy, PartialEq, Eq, Structural)]
pub enum UpdateSync {
    /// Everything in it is already in the book.
    Outdated,
    /// Updates are missing between the book and it: a new snapshot is needed.
    OutOfSync,
    /// It continues the book.
    Apply,
}

/// Classifies a diff covering update ids `first_update_id..=final_update_id`
/// against a book that has seen everything up to `last_update_id`.
pub fn classify_depth_update(first_update_id: u64, final_update_id: u64, last_update_id: u64) -> (r: UpdateSync)
    ensures
        r == (if final_update_id <= last_update_id {
            UpdateSync::Outdated
        } else if first_update_id > last_update_id + 1 {
            UpdateSync::OutOfSync
        } else {
            UpdateSync::Apply
        }),
{
    if final_update_id <= last_update_id {
        return UpdateSync::Outdated;
    }
    if first_update_id > last_update_id + 1 {
        return UpdateSync::OutOfSync;
    }
    UpdateSync::Apply
}

} // verus!
