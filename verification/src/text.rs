//! Text helpers over raw PostScript bytes: UTF-8 decoding, line
//! splitting (`\r`, `\n`, `\r\n`) and Unicode white-space trimming.
use vstd::prelude::*;
use vstd::utf8::{valid_utf8, decode_utf8};

verus! {

/// `std::str::from_utf8`: the decoded text when `bytes` is valid UTF-8.
#[verifier::external_body]
fn str_from_utf8(bytes: &[u8]) -> (r: Option<&str>)
    ensures
        r is Some <==> valid_utf8(bytes@),
        r matches Some(s) ==> s@ == decode_utf8(bytes@),
{
    std::str::from_utf8(bytes).ok()
}

/// `str::chars` collected into a vector: the characters of `s` in order.
#[verifier::external_body]
pub(crate) fn str_chars(s: &str) -> (r: Vec<char>)
    ensures
        r@ == s@,
{
    s.chars().collect()
}

/// What `String::from_utf8_lossy` yields for a byte sequence.
pub uninterp spec fn utf8_lossy(bytes: Seq<u8>) -> Seq<char>;

/// `String::from_utf8_lossy(..).to_string()`: decodes `bytes`, replacing
/// each maximal invalid sequence by U+FFFD. The contract states that valid
/// UTF-8 decodes exactly; the replacement rule for invalid input is left
/// to the name `utf8_lossy`.
#[verifier::external_body]
pub(crate) fn lossy_string(bytes: &[u8]) -> (r: String)
    ensures
        r@ == utf8_lossy(bytes@),
        valid_utf8(bytes@) ==> r@ == decode_utf8(bytes@),
{
    String::from_utf8_lossy(bytes).to_string()
}

/// The characters of `bytes` when valid UTF-8, else no characters (the
/// behaviour of `from_utf8(b).unwrap_or("")`).
pub open spec fn text_or_empty(bytes: Seq<u8>) -> Seq<char> {
    if valid_utf8(bytes) {
        decode_utf8(bytes)
    } else {
        seq![]
    }
}

/// The text of `bytes` when it is valid UTF-8, else the empty string.
pub fn bstr(b: &[u8]) -> (r: &str)
    ensures
        r@ == text_or_empty(b@),
{
    match str_from_utf8(b) {
        Some(s) => s,
        None => {
            proof {
                reveal_strlit("");
            }
            ""
        },
    }
}

/// Decodes `bytes` as UTF-8 into characters, or yields none when invalid.
pub fn chars_or_empty(bytes: &[u8]) -> (r: Vec<char>)
    ensures
        r@ == text_or_empty(bytes@),
{
    match str_from_utf8(bytes) {
        Some(s) => str_chars(s),
        None => Vec::new(),
    }
}

// ── line splitting ──────────────────────────────────────────────────

/// Line ranges `(start, end)` of `data` from position `i`, the current
/// line having begun at `start`. `\r\n`, `\r` and `\n` each end a line; a
/// trailing unterminated line is included, an empty one is not.
pub open spec fn lines_from(data: Seq<u8>, i: int, start: int) -> Seq<(int, int)>
    decreases data.len() - i,
{
    if i < 0 || i >= data.len() {
        if start < data.len() {
            seq![(start, data.len() as int)]
        } else {
            seq![]
        }
    } else if data[i] == 13u8 {
        let next = if i + 1 < data.len() && data[i + 1] == 10u8 { i + 2 } else { i + 1 };
        seq![(start, i)] + lines_from(data, next, next)
    } else if data[i] == 10u8 {
        seq![(start, i)] + lines_from(data, i + 1, i + 1)
    } else {
        lines_from(data, i + 1, start)
    }
}

pub open spec fn lines(data: Seq<u8>) -> Seq<(int, int)> {
    lines_from(data, 0, 0)
}

/// Splits `data` into lines, returning each line's `(start, end)` byte
/// range (terminators excluded).
pub fn split_lines(data: &[u8]) -> (r: Vec<(usize, usize)>)
    ensures
        r@.len() == lines(data@).len(),
        forall|k: int|
            0 <= k < r@.len() ==> (#[trigger] r@[k]).0 as int == lines(data@)[k].0 && r@[k].1 as int
                == lines(data@)[k].1,
{
    let n = data.len();
    let mut result: Vec<(usize, usize)> = Vec::new();
    let mut start: usize = 0;
    let mut i: usize = 0;
    let ghost mut done: Seq<(int, int)> = seq![];
    while i < n
        invariant
            n == data@.len(),
            start <= i <= n,
            result@.len() == done.len(),
            forall|k: int|
                0 <= k < result@.len() ==> (#[trigger] result@[k]).0 as int == done[k].0
                    && result@[k].1 as int == done[k].1,
            done + lines_from(data@, i as int, start as int) == lines(data@),
        decreases n - i,
    {
        if data[i] == 13u8 {
            proof {
                done = done.push((start as int, i as int));
            }
            result.push((start, i));
            if i + 1 < n && data[i + 1] == 10u8 {
                i = i + 1;
            }
            start = i + 1;
            i = i + 1;
            proof {
                assert(done + lines_from(data@, i as int, start as int) =~= lines(data@));
            }
        } else if data[i] == 10u8 {
            proof {
                done = done.push((start as int, i as int));
            }
            result.push((start, i));
            start = i + 1;
            i = i + 1;
            proof {
                assert(done + lines_from(data@, i as int, start as int) =~= lines(data@));
            }
        } else {
            i = i + 1;
        }
    }
    if start < n {
        proof {
            done = done.push((start as int, n as int));
        }
        result.push((start, n));
    }
    proof {
        assert(done =~= lines(data@));
    }
    result
}

pub open spec fn ranges_in_bounds(rs: Seq<(int, int)>, len: int) -> bool {
    forall|k: int| 0 <= k < rs.len() ==> 0 <= (#[trigger] rs[k]).0 <= rs[k].1 <= len
}

/// Every line range lies inside the data and is well ordered.
pub proof fn law_lines_in_bounds(data: Seq<u8>, i: int, start: int)
    requires
        0 <= start <= i,
    ensures
        ranges_in_bounds(lines_from(data, i, start), data.len() as int),
    decreases data.len() - i,
{
    let len = data.len() as int;
    if 0 <= i < data.len() {
        if data[i] == 13u8 {
            let next = if i + 1 < data.len() && data[i + 1] == 10u8 { i + 2 } else { i + 1 };
            law_lines_in_bounds(data, next, next);
            let rest = lines_from(data, next, next);
            assert(lines_from(data, i, start) == seq![(start, i)] + rest);
            assert forall|k: int| 0 <= k < (seq![(start, i)] + rest).len() implies 0 <= (#[trigger] (
            seq![(start, i)] + rest)[k]).0 <= (seq![(start, i)] + rest)[k].1 <= len by {
                if k > 0 {
                    assert((seq![(start, i)] + rest)[k] == rest[k - 1]);
                }
            }
        } else if data[i] == 10u8 {
            law_lines_in_bounds(data, i + 1, i + 1);
            let rest = lines_from(data, i + 1, i + 1);
            assert(lines_from(data, i, start) == seq![(start, i)] + rest);
            assert forall|k: int| 0 <= k < (seq![(start, i)] + rest).len() implies 0 <= (#[trigger] (
            seq![(start, i)] + rest)[k]).0 <= (seq![(start, i)] + rest)[k].1 <= len by {
                if k > 0 {
                    assert((seq![(start, i)] + rest)[k] == rest[k - 1]);
                }
            }
        } else {
            law_lines_in_bounds(data, i + 1, start);
        }
    }
}

// ── white space ─────────────────────────────────────────────────────

/// Unicode `White_Space` (the set `char::is_whitespace` tests).
pub open spec fn is_white_space(c: char) -> bool {
    let u = c as u32;
    (0x9 <= u <= 0xd) || u == 0x20 || u == 0x85 || u == 0xa0 || u == 0x1680 || (0x2000 <= u
        <= 0x200a) || u == 0x2028 || u == 0x2029 || u == 0x202f || u == 0x205f || u == 0x3000
}

/// Whether `c` is Unicode white space.
pub fn white_space(c: char) -> (r: bool)
    ensures
        r == is_white_space(c),
{
    let u = c as u32;
    (0x9 <= u && u <= 0xd) || u == 0x20 || u == 0x85 || u == 0xa0 || u == 0x1680 || (0x2000 <= u
        && u <= 0x200a) || u == 0x2028 || u == 0x2029 || u == 0x202f || u == 0x205f || u == 0x3000
}

/// Number of leading white-space characters.
pub open spec fn lead_ws(s: Seq<char>) -> int
    decreases s.len(),
{
    if s.len() > 0 && is_white_space(s[0]) {
        1 + lead_ws(s.drop_first())
    } else {
        0
    }
}

/// Number of trailing white-space characters.
pub open spec fn trail_ws(s: Seq<char>) -> int
    decreases s.len(),
{
    if s.len() > 0 && is_white_space(s.last()) {
        1 + trail_ws(s.drop_last())
    } else {
        0
    }
}

/// `str::trim`: leading and trailing white space removed.
pub open spec fn trim(s: Seq<char>) -> Seq<char> {
    let t = s.skip(lead_ws(s));
    t.take(t.len() - trail_ws(t))
}

proof fn lemma_lead_ws_bound(s: Seq<char>)
    ensures
        0 <= lead_ws(s) <= s.len(),
    decreases s.len(),
{
    if s.len() > 0 && is_white_space(s[0]) {
        lemma_lead_ws_bound(s.drop_first());
    }
}

proof fn lemma_trail_ws_bound(s: Seq<char>)
    ensures
        0 <= trail_ws(s) <= s.len(),
    decreases s.len(),
{
    if s.len() > 0 && is_white_space(s.last()) {
        lemma_trail_ws_bound(s.drop_last());
    }
}

/// Bounds `(lo, hi)` such that `s[lo..hi]` is `trim(s)`.
pub fn trim_bounds(s: &Vec<char>) -> (r: (usize, usize))
    ensures
        r.0 <= r.1 <= s@.len(),
        s@.subrange(r.0 as int, r.1 as int) == trim(s@),
{
    let n = s.len();
    let mut lo: usize = 0;
    assert(s@.skip(0) =~= s@);
    while lo < n && white_space(s[lo])
        invariant
            lo <= n,
            n == s@.len(),
            lead_ws(s@) == lo + lead_ws(s@.skip(lo as int)),
        decreases n - lo,
    {
        proof {
            assert(s@.skip(lo as int).drop_first() =~= s@.skip(lo + 1));
        }
        lo = lo + 1;
    }
    let ghost t = s@.skip(lo as int);
    assert(lead_ws(t) == 0);
    let mut hi: usize = n;
    assert(t.take(n - lo) =~= t);
    while hi > lo && white_space(s[hi - 1])
        invariant
            lo <= hi <= n,
            n == s@.len(),
            t == s@.skip(lo as int),
            trail_ws(t) == (n - hi) + trail_ws(t.take(hi - lo)),
        decreases hi,
    {
        proof {
            assert(t.take(hi - lo).drop_last() =~= t.take(hi - 1 - lo));
        }
        hi = hi - 1;
    }
    proof {
        assert(t.take(n - lo) =~= t);
        lemma_lead_ws_bound(s@);
        assert(trail_ws(t.take(hi - lo)) == 0);
        assert(s@.subrange(lo as int, hi as int) =~= t.take(t.len() - trail_ws(t)));
    }
    (lo, hi)
}

} // verus!
