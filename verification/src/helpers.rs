use vstd::prelude::*;
use vstd::string::*;

verus! {

/// `i` is the position of the first '.' in `s`.
pub open spec fn is_first_dot(s: Seq<char>, i: int) -> bool {
    &&& 0 <= i < s.len()
    &&& s[i] == '.'
    &&& forall|j: int| 0 <= j < i ==> s[j] != '.'
}

pub open spec fn has_dot(s: Seq<char>) -> bool {
    exists|i: int| s[i] == '.' && 0 <= i < s.len()
}

/// Position of the first '.' in `s` (meaningful when `has_dot(s)`).
pub open spec fn first_dot(s: Seq<char>) -> int {
    choose|i: int| is_first_dot(s, i)
}

/// A run of `k` zero digits.
pub open spec fn zeros(k: nat) -> Seq<char> {
    Seq::new(k, |i: int| '0')
}

/// Bytes that `c` takes in UTF-8.
pub open spec fn utf8_len(c: char) -> nat {
    if (c as u32) < 0x80 {
        1
    } else if (c as u32) < 0x800 {
        2
    } else if (c as u32) < 0x1_0000 {
        3
    } else {
        4
    }
}

/// Bytes that `s` takes in UTF-8.
pub open spec fn byte_len(s: Seq<char>) -> nat
    decreases s.len(),
{
    if s.len() == 0 {
        0
    } else {
        byte_len(s.drop_last()) + utf8_len(s.last())
    }
}

/// A character boundary of `s` lies `b` bytes in.
pub open spec fn is_boundary(s: Seq<char>, b: int) -> bool {
    exists|k: int| 0 <= k <= s.len() && byte_len(s.take(k)) == b
}

/// The number of leading characters of `s` that fill exactly `b` bytes
/// (meaningful where `is_boundary(s, b)`).
pub open spec fn chars_in_bytes(s: Seq<char>, b: int) -> int {
    choose|k: int| 0 <= k <= s.len() && byte_len(s.take(k)) == b
}

/// Bytes kept by `dot_trim`: those before the first '.', and `n` more.
pub open spec fn kept_bytes(s: Seq<char>, n: nat) -> int {
    (byte_len(s.take(first_dot(s))) + n) as int
}

/// The decimal point is removed and the text is cut, or padded with '0',
/// to end `n` bytes after the place where the point stood. A string without
/// '.' is returned unchanged.
pub open spec fn dot_trim_spec(s: Seq<char>, n: nat) -> Seq<char> {
    if has_dot(s) {
        let t = s.remove(first_dot(s));
        let keep = kept_bytes(s, n);
        if keep <= byte_len(t) {
            t.take(chars_in_bytes(t, keep))
        } else {
            t + zeros((keep - byte_len(t)) as nat)
        }
    } else {
        s
    }
}

/// `dot_trim` can do its work: where there is a '.', the kept length is a
/// possible string length, and a cut falls between two characters.
pub open spec fn dot_trim_ok(s: Seq<char>, n: nat) -> bool {
    has_dot(s) ==> {
        let t = s.remove(first_dot(s));
        &&& kept_bytes(s, n) <= isize::MAX
        &&& kept_bytes(s, n) <= byte_len(t) ==> is_boundary(t, kept_bytes(s, n))
    }
}

proof fn lemma_byte_len_step(s: Seq<char>, k: int)
    requires
        0 <= k < s.len(),
    ensures
        byte_len(s.take(k + 1)) == byte_len(s.take(k)) + utf8_len(s[k]),
{
    assert(s.take(k + 1).drop_last() =~= s.take(k));
}

/// Longer prefixes take more bytes.
pub proof fn lemma_byte_len_strict(s: Seq<char>, j: int, k: int)
    requires
        0 <= j < k <= s.len(),
    ensures
        byte_len(s.take(j)) < byte_len(s.take(k)),
    decreases k - j,
{
    lemma_byte_len_step(s, k - 1);
    if j < k - 1 {
        lemma_byte_len_strict(s, j, k - 1);
    }
}

proof fn lemma_byte_len_mono(s: Seq<char>, j: int, k: int)
    requires
        0 <= j <= k <= s.len(),
    ensures
        byte_len(s.take(j)) <= byte_len(s.take(k)),
{
    if j < k {
        lemma_byte_len_strict(s, j, k);
    }
}

proof fn lemma_first_dot(s: Seq<char>, i: int)
    requires
        is_first_dot(s, i),
    ensures
        has_dot(s),
        first_dot(s) == i,
{
    assert(s[i] == '.' && 0 <= i < s.len());
    let k = first_dot(s);
    assert(is_first_dot(s, k));
    if k < i {
        assert(s[k] != '.');
    } else if k > i {
        assert(s[i] != '.');
    }
}

proof fn lemma_dot_below(s: Seq<char>, i: int)
    requires
        0 <= i < s.len(),
        s[i] == '.',
    ensures
        exists|j: int| is_first_dot(s, j),
    decreases i,
{
    if exists|k: int| 0 <= k < i && s[k] == '.' {
        let k = choose|k: int| 0 <= k < i && s[k] == '.';
        lemma_dot_below(s, k);
    } else {
        assert(is_first_dot(s, i));
    }
}

/// A string with a '.' has a first one.
pub proof fn lemma_first_dot_exists(s: Seq<char>)
    requires
        has_dot(s),
    ensures
        is_first_dot(s, first_dot(s)),
{
    let i = choose|i: int| s[i] == '.' && 0 <= i < s.len();
    lemma_dot_below(s, i);
}

/// Bytes that `c` takes in UTF-8.
fn char_bytes(c: char) -> (w: u128)
    ensures
        w == utf8_len(c),
{
    let v = c as u32;
    if v < 0x80 {
        1
    } else if v < 0x800 {
        2
    } else if v < 0x1_0000 {
        3
    } else {
        4
    }
}

/// Shifts a decimal string into fixed-point digits: the first '.' is removed
/// and the text after it is cut or zero-padded to exactly `n` places.
///
/// Places are counted in bytes, as string lengths are; where a cut would
/// fall inside a character, or the result could not be allocated, there is
/// nothing to return, hence the demand `dot_trim_ok`.
pub fn dot_trim(s: String, n: usize) -> (r: String)
    requires
        dot_trim_ok(s@, n as nat),
    ensures
        r@ == dot_trim_spec(s@, n as nat),
{
    match trim_bytes(s, n) {
        Some(r) => r,
        None => {
            proof {
                assert(false);
            }
            String::new()
        },
    }
}

/// `dot_trim`, or none where it cannot do its work.
fn trim_bytes(s: String, n: usize) -> (r: Option<String>)
    ensures
        match r {
            Some(x) => dot_trim_ok(s@, n as nat) && x@ == dot_trim_spec(s@, n as nat),
            None => !dot_trim_ok(s@, n as nat),
        },
{
    let st = s.as_str();
    let len = st.unicode_len();
    let mut i: usize = 0;
    let mut pre: u128 = 0;
    while i < len && st.get_char(i) != '.'
        invariant
            len == s@.len(),
            st@ == s@,
            0 <= i <= len,
            forall|j: int| 0 <= j < i ==> s@[j] != '.',
            pre == byte_len(s@.take(i as int)),
            pre <= 4 * i,
        decreases len - i,
    {
        let c = st.get_char(i);
        proof {
            lemma_byte_len_step(s@, i as int);
        }
        pre = pre + char_bytes(c);
        i = i + 1;
    }
    if i == len {
        assert(!has_dot(s@));
        return Some(s);
    }
    assert(is_first_dot(s@, i as int));
    proof {
        lemma_first_dot(s@, i as int);
    }
    let ghost t = s@.remove(i as int);
    assert(t.take(i as int) =~= s@.take(i as int));
    let keep: u128 = pre + n as u128;
    assert(keep == kept_bytes(s@, n as nat));
    if keep > isize::MAX as u128 {
        return None;
    }
    let mut r = String::from_str(st.substring_char(0, i));
    r.append(st.substring_char(i + 1, len));
    assert(r@ =~= t);
    let tlen: usize = len - 1;
    let rs = r.as_str();
    let mut k: usize = i;
    let mut b: u128 = pre;
    while k < tlen && b < keep
        invariant
            rs@ == t,
            t.len() == tlen,
            i <= k <= tlen,
            b == byte_len(t.take(k as int)),
            b <= 4 * k,
            pre == byte_len(t.take(i as int)),
            pre <= keep,
            k > i ==> byte_len(t.take(k - 1)) < keep,
        decreases tlen - k,
    {
        let c = rs.get_char(k);
        proof {
            lemma_byte_len_step(t, k as int);
        }
        b = b + char_bytes(c);
        k = k + 1;
    }
    if b >= keep {
        proof {
            lemma_byte_len_mono(t, k as int, tlen as int);
            assert(t.take(tlen as int) =~= t);
        }
        if b > keep {
            proof {
                if is_boundary(t, keep as int) {
                    let k0 = choose|k0: int| 0 <= k0 <= t.len() && byte_len(t.take(k0)) == keep;
                    if k0 >= k {
                        lemma_byte_len_mono(t, k as int, k0);
                    } else if k > i {
                        lemma_byte_len_mono(t, k0, k - 1);
                    }
                }
            }
            return None;
        }
        proof {
            let k0 = chars_in_bytes(t, keep as int);
            assert(byte_len(t.take(k as int)) == keep);
            assert(is_boundary(t, keep as int));
            if k0 < k as int {
                lemma_byte_len_strict(t, k0, k as int);
            } else if k0 > k as int {
                lemma_byte_len_strict(t, k as int, k0);
            }
        }
        let out = String::from_str(rs.substring_char(0, k));
        assert(out@ =~= t.take(k as int));
        Some(out)
    } else {
        assert(t.take(tlen as int) =~= t);
        let pad: u128 = keep - b;
        let mut z: u128 = 0;
        while z < pad
            invariant
                0 <= z <= pad,
                r@ =~= t + zeros(z as nat),
            decreases pad - z,
        {
            proof {
                reveal_strlit("0");
            }
            r.append("0");
            assert(r@ =~= t + zeros((z + 1) as nat));
            z = z + 1;
        }
        Some(r)
    }
}

pub open spec fn is_digit(c: char) -> bool {
    '0' <= c && c <= '9'
}

pub open spec fn all_digits(s: Seq<char>) -> bool {
    forall|i: int| 0 <= i < s.len() ==> is_digit(#[trigger] s[i])
}

/// The number written by the decimal digits `s`.
pub open spec fn digits_value(s: Seq<char>) -> int
    decreases s.len(),
{
    if s.len() == 0 {
        0
    } else {
        digits_value(s.drop_last()) * 10 + (s.last() as int - '0' as int)
    }
}

/// The `i32` written in `s` in the form that integer parsing accepts: an
/// optional '+' or '-', then at least one ASCII digit, nothing else; none
/// where the form is wrong or the number is out of range.
pub open spec fn parse_i32_spec(s: Seq<char>) -> Option<i32> {
    let signed = s.len() > 0 && (s[0] == '-' || s[0] == '+');
    let neg = s.len() > 0 && s[0] == '-';
    let body = if signed {
        s.drop_first()
    } else {
        s
    };
    if body.len() == 0 || !all_digits(body) {
        None
    } else {
        let v = if neg {
            -digits_value(body)
        } else {
            digits_value(body)
        };
        if i32::MIN <= v <= i32::MAX {
            Some(v as i32)
        } else {
            None
        }
    }
}

proof fn lemma_digits_nonneg(s: Seq<char>)
    requires
        all_digits(s),
    ensures
        digits_value(s) >= 0,
    decreases s.len(),
{
    if s.len() > 0 {
        assert(is_digit(s[s.len() - 1]));
        lemma_digits_nonneg(s.drop_last());
    }
}

/// A prefix of digits is worth no more than all of them.
proof fn lemma_digits_prefix_le(s: Seq<char>, k: int)
    requires
        all_digits(s),
        0 <= k <= s.len(),
    ensures
        digits_value(s.take(k)) <= digits_value(s),
    decreases s.len(),
{
    if k < s.len() {
        assert(is_digit(s[s.len() - 1]));
        assert(s.take(k) =~= s.drop_last().take(k));
        lemma_digits_prefix_le(s.drop_last(), k);
        lemma_digits_nonneg(s.drop_last());
    } else {
        assert(s.take(k) =~= s);
    }
}

/// Parses a decimal `i32` as integer parsing does.
pub fn parse_i32(s: &str) -> (r: Option<i32>)
    ensures
        r == parse_i32_spec(s@),
{
    let len = s.unicode_len();
    if len == 0 {
        return None;
    }
    let c0 = s.get_char(0);
    let neg = c0 == '-';
    let start: usize = if c0 == '-' || c0 == '+' {
        1
    } else {
        0
    };
    if start == len {
        return None;
    }
    let ghost body = s@.subrange(start as int, len as int);
    assert(start == 1 ==> body =~= s@.drop_first());
    assert(start == 0 ==> body =~= s@);
    let mut acc: i64 = 0;
    let mut i: usize = start;
    while i < len
        invariant
            len == s@.len(),
            start <= i <= len,
            body == s@.subrange(start as int, len as int),
            len > 0,
            c0 == s@[0],
            neg == (c0 == '-'),
            (start == 1) == (c0 == '-' || c0 == '+'),
            start == 1 ==> body == s@.drop_first(),
            start == 0 ==> body == s@,
            start <= 1,
            all_digits(body.take(i - start)),
            acc == digits_value(body.take(i - start)),
            0 <= acc <= 0x8000_0000,
        decreases len - i,
    {
        let c = s.get_char(i);
        if c < '0' || c > '9' {
            assert(!is_digit(body[i - start]));
            return None;
        }
        let d: i64 = (c as u32 - '0' as u32) as i64;
        assert(body.take(i + 1 - start).drop_last() =~= body.take(i - start));
        assert(body.take(i + 1 - start).last() == c);
        let next: i64 = acc * 10 + d;
        assert(all_digits(body.take(i + 1 - start)));
        if next > 0x8000_0000 {
            proof {
                let j: int = i + 1 - start;
                if all_digits(body) {
                    lemma_digits_prefix_le(body, j);
                }
            }
            return None;
        }
        acc = next;
        i = i + 1;
    }
    assert(body.take(len - start) =~= body);
    if neg {
        Some((-acc) as i32)
    } else if acc > 0x7fff_ffff {
        None
    } else {
        Some(acc as i32)
    }
}

/// `s` read as a fixed-point number with `precision` digits after the
/// point: the point is dropped, the text after it is cut or zero-padded to
/// `precision` places as `dot_trim` does, and the result is parsed as an
/// `i32`; none where `dot_trim` cannot do its work or the parse fails.
pub open spec fn parse_scaled_spec(s: Seq<char>, precision: nat) -> Option<i32> {
    if dot_trim_ok(s, precision) {
        parse_i32_spec(dot_trim_spec(s, precision))
    } else {
        None
    }
}

/// Reads a decimal such as "0.0358" as the integer count of units of
/// `10^-precision` it holds (3580 at precision 5).
pub fn parse_scaled(s: &str, precision: usize) -> (r: Option<i32>)
    ensures
        r == parse_scaled_spec(s@, precision as nat),
{
    match trim_bytes(String::from_str(s), precision) {
        Some(trimmed) => parse_i32(trimmed.as_str()),
        None => None,
    }
}

} // verus!
