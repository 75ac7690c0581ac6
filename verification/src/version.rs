//! Release-version bookkeeping: tag normalisation, the "is there a newer
//! release" comparison, and the state update after a release check.
use vstd::prelude::*;

verus! {

/// What the app knows about its own and the latest published version.
pub struct VersionInfo {
    pub current: String,
    pub latest: Option<String>,
    pub update_available: bool,
    pub release_url: Option<String>,
}

/// `tag` without one leading `v` or `V`.
pub open spec fn stripped(tag: Seq<char>) -> Seq<char> {
    if tag.len() > 0 && (tag[0] == 'v' || tag[0] == 'V') {
        tag.drop_first()
    } else {
        tag
    }
}

/// Strips one leading `v` or `V` from a version tag (`v0.2.0` → `0.2.0`).
pub fn strip_v_prefix(tag: &str) -> (r: &str)
    ensures
        r@ == stripped(tag@),
{
    let n = tag.unicode_len();
    if n >= 1 {
        let c = tag.get_char(0);
        if c == 'v' || c == 'V' {
            return tag.substring_char(1, n);
        }
    }
    tag
}

/// The dot-separated parts of `s`, as `str::split('.')` yields them.
pub open spec fn split_dots(s: Seq<char>) -> Seq<Seq<char>>
    decreases s.len(),
{
    if s.len() == 0 {
        seq![Seq::<char>::empty()]
    } else {
        let prev = split_dots(s.drop_last());
        if s.last() == '.' {
            prev.push(Seq::<char>::empty())
        } else if prev.len() == 0 {
            seq![seq![s.last()]]
        } else {
            prev.update(prev.len() - 1, prev.last().push(s.last()))
        }
    }
}

pub open spec fn is_digit(c: char) -> bool {
    '0' <= c <= '9'
}

pub open spec fn all_digits(s: Seq<char>) -> bool {
    forall|i: int| 0 <= i < s.len() ==> is_digit(#[trigger] s[i])
}

/// Decimal value of a digit string.
pub open spec fn digits_value(s: Seq<char>) -> int
    decreases s.len(),
{
    if s.len() == 0 {
        0
    } else {
        digits_value(s.drop_last()) * 10 + (s.last() as int - '0' as int)
    }
}

/// `u64::from_str`: an optional `+`, then one or more ASCII digits, with a
/// value that fits in 64 bits.
pub open spec fn parse_u64(s: Seq<char>) -> Option<u64> {
    let d = if s.len() > 0 && s[0] == '+' { s.drop_first() } else { s };
    if d.len() == 0 || !all_digits(d) || digits_value(d) > u64::MAX {
        None
    } else {
        Some(digits_value(d) as u64)
    }
}

/// `(major, minor, patch)` when the first three dot parts all parse.
pub open spec fn parse_semver(v: Seq<char>) -> Option<(u64, u64, u64)> {
    let parts = split_dots(v);
    if parts.len() < 3 {
        None
    } else {
        match (parse_u64(parts[0]), parse_u64(parts[1]), parse_u64(parts[2])) {
            (Some(a), Some(b), Some(c)) => Some((a, b, c)),
            _ => None,
        }
    }
}

pub open spec fn triple_gt(l: (u64, u64, u64), c: (u64, u64, u64)) -> bool {
    l.0 > c.0 || (l.0 == c.0 && (l.1 > c.1 || (l.1 == c.1 && l.2 > c.2)))
}

/// Lexicographic "greater than" by code point (the order of `str`).
pub open spec fn lex_gt(a: Seq<char>, b: Seq<char>) -> bool
    decreases a.len(),
{
    if a.len() == 0 {
        false
    } else if b.len() == 0 {
        true
    } else if a[0] != b[0] {
        (a[0] as u32) > (b[0] as u32)
    } else {
        lex_gt(a.drop_first(), b.drop_first())
    }
}

/// Semantic-version comparison with a string-order fallback.
pub open spec fn newer(latest: Seq<char>, current: Seq<char>) -> bool {
    match (parse_semver(latest), parse_semver(current)) {
        (Some(l), Some(c)) => triple_gt(l, c),
        _ => lex_gt(latest, current),
    }
}

proof fn lemma_split_dots_nonempty(s: Seq<char>)
    ensures
        split_dots(s).len() >= 1,
    decreases s.len(),
{
    if s.len() > 0 {
        lemma_split_dots_nonempty(s.drop_last());
    }
}

/// Splits `cs[..]` at `.` into its parts.
fn split_dot_chars(cs: &Vec<char>) -> (parts: Vec<Vec<char>>)
    ensures
        parts@.len() == split_dots(cs@).len(),
        forall|i: int| 0 <= i < parts@.len() ==> #[trigger] parts@[i]@ == split_dots(cs@)[i],
{
    let mut parts: Vec<Vec<char>> = Vec::new();
    let mut cur: Vec<char> = Vec::new();
    let mut i: usize = 0;
    while i < cs.len()
        invariant
            i <= cs@.len(),
            parts@.len() + 1 == split_dots(cs@.take(i as int)).len(),
            forall|k: int| 0 <= k < parts@.len() ==> #[trigger] parts@[k]@ == split_dots(
                cs@.take(i as int),
            )[k],
            cur@ == split_dots(cs@.take(i as int)).last(),
        decreases cs@.len() - i,
    {
        proof {
            lemma_split_dots_nonempty(cs@.take(i as int));
            assert(cs@.take(i + 1).drop_last() =~= cs@.take(i as int));
        }
        let c = cs[i];
        if c == '.' {
            parts.push(cur);
            cur = Vec::new();
            i = i + 1;
            proof {
                let sp = split_dots(cs@.take(i as int));
                assert forall|k: int| 0 <= k < parts@.len() implies #[trigger] parts@[k]@ == sp[k] by {}
                assert(cur@ =~= sp.last());
            }
        } else {
            cur.push(c);
            i = i + 1;
            proof {
                let sp = split_dots(cs@.take(i as int));
                assert forall|k: int| 0 <= k < parts@.len() implies #[trigger] parts@[k]@ == sp[k] by {}
                assert(cur@ =~= sp.last());
            }
        }
    }
    parts.push(cur);
    proof {
        assert(cs@.take(i as int) =~= cs@);
        let sp = split_dots(cs@);
        assert forall|k: int| 0 <= k < parts@.len() implies #[trigger] parts@[k]@ == sp[k] by {}
    }
    parts
}

proof fn lemma_digits_value_nonneg(s: Seq<char>)
    requires
        all_digits(s),
    ensures
        digits_value(s) >= 0,
    decreases s.len(),
{
    if s.len() > 0 {
        assert(all_digits(s.drop_last()));
        lemma_digits_value_nonneg(s.drop_last());
        assert(is_digit(s[s.len() - 1]));
    }
}

/// `u64::from_str` on a character sequence.
pub(crate) fn parse_u64_chars(s: &Vec<char>) -> (r: Option<u64>)
    ensures
        r == parse_u64(s@),
{
    let n = s.len();
    let mut start: usize = 0;
    if n > 0 && s[0] == '+' {
        start = 1;
    }
    let ghost d = if s@.len() > 0 && s@[0] == '+' { s@.drop_first() } else { s@ };
    assert(d =~= s@.subrange(start as int, n as int));
    if start == n {
        return None;
    }
    let mut v: u64 = 0;
    let mut i: usize = start;
    while i < n
        invariant
            start <= i <= n,
            n == s@.len(),
            start == (if s@.len() > 0 && s@[0] == '+' { 1int } else { 0int }),
            d == (if s@.len() > 0 && s@[0] == '+' { s@.drop_first() } else { s@ }),
            d == s@.subrange(start as int, n as int),
            all_digits(s@.subrange(start as int, i as int)),
            v as int == digits_value(s@.subrange(start as int, i as int)),
        decreases n - i,
    {
        let c = s[i];
        proof {
            assert(s@.subrange(start as int, i + 1).drop_last() =~= s@.subrange(start as int, i as int));
        }
        if !('0' <= c && c <= '9') {
            proof {
                assert(!is_digit(d[i - start]));
            }
            return None;
        }
        let digit: u64 = (c as u32 - '0' as u32) as u64;
        if v > 1844674407370955161 || (v == 1844674407370955161 && digit > 5) {
            proof {
                let pre = s@.subrange(start as int, i + 1);
                assert(pre.drop_last() =~= s@.subrange(start as int, i as int));
                assert(is_digit(c));
                assert(all_digits(pre));
                assert(digits_value(pre) == v * 10 + digit);
                assert(digits_value(pre) > u64::MAX);
                assert(pre =~= d.take(i + 1 - start));
                lemma_prefix_value_bound(d, (i + 1 - start) as int);
            }
            return None;
        }
        v = v * 10 + digit;
        i = i + 1;
        proof {
            let pre = s@.subrange(start as int, i as int);
            assert(pre.drop_last() =~= s@.subrange(start as int, i - 1));
        }
    }
    assert(s@.subrange(start as int, n as int) =~= d);
    Some(v)
}

/// The value of a digit string is at least the value of any prefix.
proof fn lemma_prefix_value_bound(d: Seq<char>, k: int)
    requires
        0 <= k <= d.len(),
        all_digits(d.take(k)),
    ensures
        all_digits(d) ==> digits_value(d) >= digits_value(d.take(k)),
    decreases d.len() - k,
{
    if k < d.len() && all_digits(d) {
        assert(d.take(k + 1).drop_last() =~= d.take(k));
        assert(all_digits(d.take(k + 1)));
        lemma_digits_value_nonneg(d.take(k));
        lemma_prefix_value_bound(d, k + 1);
    }
    if k == d.len() {
        assert(d.take(k) =~= d);
    }
}

fn parse_semver_chars(v: &Vec<char>) -> (r: Option<(u64, u64, u64)>)
    ensures
        r == parse_semver(v@),
{
    let parts = split_dot_chars(v);
    if parts.len() < 3 {
        return None;
    }
    let a = parse_u64_chars(&parts[0]);
    let b = parse_u64_chars(&parts[1]);
    let c = parse_u64_chars(&parts[2]);
    match (a, b, c) {
        (Some(x), Some(y), Some(z)) => Some((x, y, z)),
        _ => None,
    }
}

fn lex_gt_chars(a: &Vec<char>, b: &Vec<char>) -> (r: bool)
    ensures
        r == lex_gt(a@, b@),
{
    let mut i: usize = 0;
    assert(a@.skip(0) =~= a@);
    assert(b@.skip(0) =~= b@);
    while i < a.len() && i < b.len()
        invariant
            i <= a@.len(),
            i <= b@.len(),
            lex_gt(a@, b@) == lex_gt(a@.skip(i as int), b@.skip(i as int)),
            forall|k: int| 0 <= k < i ==> a@[k] == b@[k],
        decreases a@.len() - i,
    {
        if a[i] != b[i] {
            return (a[i] as u32) > (b[i] as u32);
        }
        proof {
            assert(a@.skip(i as int).drop_first() =~= a@.skip(i + 1));
            assert(b@.skip(i as int).drop_first() =~= b@.skip(i + 1));
        }
        i = i + 1;
    }
    i < a.len()
}

fn chars_of(s: &str) -> (r: Vec<char>)
    ensures
        r@ == s@,
{
    let n = s.unicode_len();
    let mut r: Vec<char> = Vec::new();
    let mut i: usize = 0;
    while i < n
        invariant
            n == s@.len(),
            i <= n,
            r@ == s@.take(i as int),
        decreases n - i,
    {
        r.push(s.get_char(i));
        i = i + 1;
        assert(r@ =~= s@.take(i as int));
    }
    assert(s@.take(n as int) =~= s@);
    r
}

/// True when `latest` is a newer version than `current`: both parsed as
/// `major.minor.patch` and compared numerically, else compared as strings.
pub fn is_newer(latest: &str, current: &str) -> (r: bool)
    ensures
        r == newer(latest@, current@),
{
    let l = chars_of(latest);
    let c = chars_of(current);
    match (parse_semver_chars(&l), parse_semver_chars(&c)) {
        (Some(x), Some(y)) => x.0 > y.0 || (x.0 == y.0 && (x.1 > y.1 || (x.1 == y.1 && x.2 > y.2))),
        _ => lex_gt_chars(&l, &c),
    }
}

impl VersionInfo {
    /// State before any release check: only the running version is known.
    pub fn initial(current: &str) -> (r: VersionInfo)
        ensures
            r.current@ == current@,
            r.latest is None,
            !r.update_available,
            r.release_url is None,
    {
        VersionInfo { current: current.to_owned(), latest: None, update_available: false, release_url: None }
    }

    /// Records the result of a successful release check: the latest
    /// version is the tag without its `v`, an update is available when it
    /// is newer than `current`, and the release page URL is kept.
    pub fn record_release(&mut self, tag: &str, url: String, current: &str)
        ensures
            final(self).current == old(self).current,
            final(self).latest matches Some(l) && l@ == stripped(tag@),
            final(self).update_available == newer(stripped(tag@), current@),
            final(self).release_url == Some(url),
    {
        let latest = strip_v_prefix(tag);
        let update_available = is_newer(latest, current);
        self.latest = Some(latest.to_owned());
        self.update_available = update_available;
        self.release_url = Some(url);
    }
}

proof fn lemma_lex_gt_asym(a: Seq<char>, b: Seq<char>)
    ensures
        lex_gt(a, b) ==> !lex_gt(b, a),
        !lex_gt(a, a),
    decreases a.len(),
{
    if a.len() > 0 && b.len() > 0 && a[0] == b[0] {
        lemma_lex_gt_asym(a.drop_first(), b.drop_first());
    }
    if a.len() > 0 {
        lemma_lex_gt_asym(a.drop_first(), a.drop_first());
    }
    if a.len() > 0 && b.len() > 0 && a[0] != b[0] {
        assert((a[0] as u32) != (b[0] as u32)) by {
            vstd::utf8::char_u32_cast(a[0], a[0] as u32);
            vstd::utf8::char_u32_cast(b[0], b[0] as u32);
        }
    }
}

/// No version is newer than itself, and of two versions at most one is
/// newer than the other.
pub proof fn law_newer_is_strict_order(a: Seq<char>, b: Seq<char>)
    ensures
        !newer(a, a),
        newer(a, b) ==> !newer(b, a),
{
    lemma_lex_gt_asym(a, b);
    lemma_lex_gt_asym(a, a);
}

/// Stripping removes at most one leading `v`/`V` and nothing else.
pub proof fn law_strip_removes_one_prefix(tag: Seq<char>)
    ensures
        stripped(tag) == tag || (tag.len() > 0 && stripped(tag) == tag.drop_first() && (tag[0]
            == 'v' || tag[0] == 'V')),
        stripped(seq!['v'] + tag) == tag,
{
    assert((seq!['v'] + tag).drop_first() =~= tag);
}

/// Parsed versions compare by major, then minor, then patch: a larger
/// major wins; with equal majors a larger minor wins; with equal majors
/// and minors a larger patch wins; equal versions are not newer; and of
/// two different parsed versions one is newer than the other.
pub proof fn law_newer_orders_major_minor_patch(latest: Seq<char>, current: Seq<char>)
    requires
        parse_semver(latest) is Some,
        parse_semver(current) is Some,
    ensures
        ({
            let (lm, ln, lp) = parse_semver(latest)->0;
            let (cm, cn, cp) = parse_semver(current)->0;
            &&& lm > cm ==> newer(latest, current)
            &&& lm == cm && ln > cn ==> newer(latest, current)
            &&& lm == cm && ln == cn && lp > cp ==> newer(latest, current)
            &&& lm == cm && ln == cn && lp == cp ==> !newer(latest, current)
            &&& lm < cm ==> !newer(latest, current)
            &&& lm == cm && ln < cn ==> !newer(latest, current)
            &&& lm == cm && ln == cn && lp < cp ==> !newer(latest, current)
        }),
{
}

/// When either side does not parse as `major.minor.patch`, versions
/// compare as strings: the first differing character decides by code
/// point, and a string is newer than each of its proper prefixes.
pub proof fn law_unparsed_versions_compare_as_strings(latest: Seq<char>, current: Seq<char>, k: int)
    requires
        parse_semver(latest) is None || parse_semver(current) is None,
        0 <= k <= latest.len(),
        k <= current.len(),
        latest.take(k) == current.take(k),
    ensures
        k < latest.len() && k < current.len() && latest[k] != current[k] ==> (newer(latest, current) <==> (
        latest[k] as u32) > (current[k] as u32)),
        k == current.len() && k < latest.len() ==> newer(latest, current),
        k == current.len() && k == latest.len() ==> !newer(latest, current),
{
    lemma_lex_from_common_prefix(latest, current, k);
}

proof fn lemma_lex_from_common_prefix(a: Seq<char>, b: Seq<char>, k: int)
    requires
        0 <= k <= a.len(),
        k <= b.len(),
        a.take(k) == b.take(k),
    ensures
        k < a.len() && k < b.len() && a[k] != b[k] ==> (lex_gt(a, b) <==> (a[k] as u32) > (b[k] as u32)),
        k == b.len() && k < a.len() ==> lex_gt(a, b),
        k == b.len() && k == a.len() ==> !lex_gt(a, b),
    decreases k,
{
    if k > 0 {
        assert(a[0] == a.take(k)[0]);
        assert(b[0] == b.take(k)[0]);
        assert(a.drop_first().take(k - 1) =~= b.drop_first().take(k - 1)) by {
            assert forall|j: int| 0 <= j < k - 1 implies a.drop_first()[j] == b.drop_first()[j] by {
                assert(a.take(k)[j + 1] == b.take(k)[j + 1]);
                assert(a.drop_first()[j] == a[j + 1]);
                assert(b.drop_first()[j] == b[j + 1]);
                assert(a.take(k)[j + 1] == a[j + 1]);
                assert(b.take(k)[j + 1] == b[j + 1]);
            }
        }
        lemma_lex_from_common_prefix(a.drop_first(), b.drop_first(), k - 1);
    } else if a.len() == 0 && b.len() == 0 {
    }
}

} // verus!
