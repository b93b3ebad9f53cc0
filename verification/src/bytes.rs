//! Byte classes, runs of bytes of one class, and the search primitives the
//! scanners are built on.

use vstd::prelude::*;
use vstd::string::StringSliceAdditionalSpecFns;

verus! {

pub const TAB: u8 = 0x09;
pub const LF: u8 = 0x0a;
pub const CR: u8 = 0x0d;
pub const SPACE: u8 = 0x20;
pub const BANG: u8 = 0x21;
pub const DQUOTE: u8 = 0x22;
pub const HASH: u8 = 0x23;
pub const SQUOTE: u8 = 0x27;
pub const STAR: u8 = 0x2a;
pub const DASH: u8 = 0x2d;
pub const DOT: u8 = 0x2e;
pub const SLASH: u8 = 0x2f;
pub const COLON: u8 = 0x3a;
pub const LT: u8 = 0x3c;
pub const EQUALS: u8 = 0x3d;
pub const GT: u8 = 0x3e;
pub const UNDERSCORE: u8 = 0x5f;
pub const BACKTICK: u8 = 0x60;
pub const TILDE: u8 = 0x7e;

/// Space, tab, line feed or carriage return.
pub open spec fn ws(b: u8) -> bool {
    b == SPACE || b == TAB || b == LF || b == CR
}

/// Space or tab.
pub open spec fn space_tab(b: u8) -> bool {
    b == SPACE || b == TAB
}

/// A byte that may occur in a tag or attribute name.
pub open spec fn name_char(b: u8) -> bool {
    (0x30 <= b <= 0x39) || (0x41 <= b <= 0x5a) || (0x61 <= b <= 0x7a) || b == DASH
        || b == UNDERSCORE || b == COLON
}

/// An ASCII digit.
pub open spec fn digit(b: u8) -> bool {
    0x30 <= b <= 0x39
}

/// The ASCII lower-case form of a byte.
pub open spec fn lower(b: u8) -> u8 {
    if 0x41 <= b <= 0x5a {
        (b + 0x20) as u8
    } else {
        b
    }
}

/// A byte string in ASCII lower case.
pub open spec fn lowered(s: Seq<u8>) -> Seq<u8> {
    Seq::new(s.len(), |i: int| lower(s[i]))
}

/// Equality of two byte strings up to ASCII case.
pub open spec fn same_ignoring_case(a: Seq<u8>, b: Seq<u8>) -> bool {
    lowered(a) =~= lowered(b)
}

/// `name` equals some member of `set` up to ASCII case.
pub open spec fn matches_any(name: Seq<u8>, set: Seq<Seq<u8>>) -> bool {
    exists|k: int| 0 <= k < set.len() && same_ignoring_case(name, #[trigger] set[k])
}

/// The bytes of a word of a name table.
pub open spec fn word(s: &str) -> Seq<u8> {
    s.spec_bytes()
}

/// The members of a name table as byte strings.
pub open spec fn views(set: Seq<&[u8]>) -> Seq<Seq<u8>> {
    Seq::new(set.len(), |k: int| set[k]@)
}

/// The classes of bytes that the scanners skip over.
#[derive(Clone, Copy, Debug)]
pub enum Class {
    /// Space, tab, line feed, carriage return.
    Ws,
    /// Space, tab.
    SpaceTab,
    /// Space, tab, line feed: the whitespace that text reflow folds.
    Fold,
    /// Name characters.
    Name,
    /// Whitespace or `/`.
    WsSlash,
    /// ASCII digits.
    Digit,
    /// Exactly the given byte.
    Only(u8),
    /// Every byte but the given one.
    Except(u8),
    /// Every byte that may stand in an unquoted attribute value.
    Bare,
}

impl Class {
    /// Whether `b` is of the class.
    pub open spec fn has(self, b: u8) -> bool {
        match self {
            Class::Ws => ws(b),
            Class::SpaceTab => space_tab(b),
            Class::Fold => b == SPACE || b == TAB || b == LF,
            Class::Name => name_char(b),
            Class::WsSlash => ws(b) || b == SLASH,
            Class::Digit => digit(b),
            Class::Only(c) => b == c,
            Class::Except(c) => b != c,
            Class::Bare => !ws(b) && b != GT,
        }
    }

    /// Whether `b` is of the class.
    pub fn contains(self, b: u8) -> (r: bool)
        ensures
            r == self.has(b),
    {
        match self {
            Class::Ws => is_ws(b),
            Class::SpaceTab => is_space_tab(b),
            Class::Fold => b == SPACE || b == TAB || b == LF,
            Class::Name => is_name_char(b),
            Class::WsSlash => is_ws(b) || b == SLASH,
            Class::Digit => 0x30 <= b && b <= 0x39,
            Class::Only(c) => b == c,
            Class::Except(c) => b != c,
            Class::Bare => !is_ws(b) && b != GT,
        }
    }
}

/// The end of the longest run of bytes of class `c` that starts at `i`.
pub open spec fn run_end(s: Seq<u8>, i: int, c: Class) -> int
    decreases s.len() - i,
{
    if 0 <= i < s.len() && c.has(s[i]) {
        run_end(s, i + 1, c)
    } else {
        i
    }
}

/// The start of the longest run of bytes of class `c` that ends before `j`.
pub open spec fn run_start(s: Seq<u8>, j: int, c: Class) -> int
    decreases j,
{
    if 0 < j <= s.len() && c.has(s[j - 1]) {
        run_start(s, j - 1, c)
    } else {
        j
    }
}

/// Some byte of `s` in `[i, j)` is a line feed.
pub open spec fn has_lf(s: Seq<u8>, i: int, j: int) -> bool {
    exists|k: int| i <= k < j && 0 <= k < s.len() && s[k] == LF
}

/// The first index at or after `i` that holds `b`, if any.
pub open spec fn first_at(s: Seq<u8>, i: int, b: u8) -> Option<int> {
    let r = run_end(s, i, Class::Except(b));
    if 0 <= r < s.len() {
        Some(r)
    } else {
        None
    }
}

/// The index just behind the last `b` before `j`, or 0 where there is none:
/// for a line feed, the start of the line that `j` lies on.
pub open spec fn after_last(s: Seq<u8>, j: int, b: u8) -> int {
    run_start(s, j, Class::Except(b))
}

/// A run ends inside the byte string, holds bytes of its class alone, and
/// is followed by none.
pub proof fn lemma_run_end(s: Seq<u8>, i: int, c: Class)
    requires
        0 <= i <= s.len(),
    ensures
        i <= run_end(s, i, c) <= s.len(),
        forall|k: int| i <= k < run_end(s, i, c) ==> c.has(#[trigger] s[k]),
        run_end(s, i, c) < s.len() ==> !c.has(s[run_end(s, i, c)]),
    decreases s.len() - i,
{
    if i < s.len() && c.has(s[i]) {
        lemma_run_end(s, i + 1, c);
    }
}

/// Where a run ends: at the first byte that is not of its class.
pub proof fn lemma_run_end_is(s: Seq<u8>, i: int, r: int, c: Class)
    requires
        0 <= i <= r <= s.len(),
        forall|k: int| i <= k < r ==> c.has(#[trigger] s[k]),
        r < s.len() ==> !c.has(s[r]),
    ensures
        run_end(s, i, c) == r,
    decreases r - i,
{
    if i < r {
        assert(c.has(s[i]));
        lemma_run_end_is(s, i + 1, r, c);
    }
}

/// A run starts inside the byte string, holds bytes of its class alone, and
/// follows none.
pub proof fn lemma_run_start(s: Seq<u8>, j: int, c: Class)
    requires
        0 <= j <= s.len(),
    ensures
        0 <= run_start(s, j, c) <= j,
        forall|k: int| run_start(s, j, c) <= k < j ==> c.has(#[trigger] s[k]),
        run_start(s, j, c) > 0 ==> !c.has(s[run_start(s, j, c) - 1]),
    decreases j,
{
    if 0 < j && c.has(s[j - 1]) {
        lemma_run_start(s, j - 1, c);
    }
}

/// Where a run starts: behind the last byte that is not of its class.
pub proof fn lemma_run_start_is(s: Seq<u8>, j: int, r: int, c: Class)
    requires
        0 <= r <= j <= s.len(),
        forall|k: int| r <= k < j ==> c.has(#[trigger] s[k]),
        r > 0 ==> !c.has(s[r - 1]),
    ensures
        run_start(s, j, c) == r,
    decreases j - r,
{
    if r < j {
        assert(c.has(s[j - 1]));
        lemma_run_start_is(s, j - 1, r, c);
    }
}

/// Whether `b` may occur in a tag or attribute name: an ASCII letter or
/// digit, `-`, `_` or `:`.
pub fn is_name_char(b: u8) -> (r: bool)
    ensures
        r == name_char(b),
{
    (0x30 <= b && b <= 0x39) || (0x41 <= b && b <= 0x5a) || (0x61 <= b && b <= 0x7a) || b == DASH
        || b == UNDERSCORE || b == COLON
}

/// Whether `b` is a space or a tab.
pub fn is_space_tab(b: u8) -> (r: bool)
    ensures
        r == space_tab(b),
{
    b == SPACE || b == TAB
}

/// Whether `b` is a space, a tab, a line feed or a carriage return.
pub fn is_ws(b: u8) -> (r: bool)
    ensures
        r == ws(b),
{
    b == SPACE || b == TAB || b == LF || b == CR
}

/// The ASCII lower-case form of `b`.
pub fn to_lower(b: u8) -> (r: u8)
    ensures
        r == lower(b),
{
    if 0x41 <= b && b <= 0x5a {
        b + 0x20
    } else {
        b
    }
}

/// Compares two byte strings up to ASCII case.
pub fn eq_ignore_case(a: &[u8], b: &[u8]) -> (r: bool)
    ensures
        r == same_ignoring_case(a@, b@),
{
    if a.len() != b.len() {
        assert(lowered(a@).len() != lowered(b@).len());
        return false;
    }
    let mut k: usize = 0;
    while k < a.len()
        invariant
            k <= a.len(),
            a.len() == b.len(),
            forall|m: int| 0 <= m < k ==> lower(a@[m]) == lower(b@[m]),
        decreases a.len() - k,
    {
        if to_lower(a[k]) != to_lower(b[k]) {
            assert(lowered(a@)[k as int] != lowered(b@)[k as int]);
            return false;
        }
        k += 1;
    }
    true
}

/// Whether `name` equals some member of `set` up to ASCII case.
pub fn matches_ignore_ascii_case(name: &[u8], set: &[&[u8]]) -> (r: bool)
    ensures
        r == matches_any(name@, views(set@)),
{
    let mut k: usize = 0;
    while k < set.len()
        invariant
            k <= set.len(),
            forall|m: int| 0 <= m < k ==> !same_ignoring_case(name@, #[trigger] views(set@)[m]),
        decreases set.len() - k,
    {
        if eq_ignore_case(name, set[k]) {
            assert(same_ignoring_case(name@, views(set@)[k as int]));
            return true;
        }
        k += 1;
    }
    false
}

/// Walks forward from `i` over bytes of class `c`.
pub fn skip_run(s: &[u8], i: usize, c: Class) -> (r: usize)
    requires
        i <= s.len(),
    ensures
        r == run_end(s@, i as int, c),
        i <= r <= s.len(),
{
    let mut k: usize = i;
    while k < s.len() && c.contains(s[k])
        invariant
            i <= k <= s.len(),
            forall|m: int| i <= m < k ==> c.has(#[trigger] s@[m]),
        decreases s.len() - k,
    {
        k += 1;
    }
    proof {
        lemma_run_end_is(s@, i as int, k as int, c);
    }
    k
}

/// Walks backward from `j` over bytes of class `c`.
pub fn skip_run_back(s: &[u8], j: usize, c: Class) -> (r: usize)
    requires
        j <= s.len(),
    ensures
        r == run_start(s@, j as int, c),
        r <= j,
{
    let mut k: usize = j;
    while k > 0 && c.contains(s[k - 1])
        invariant
            k <= j <= s.len(),
            forall|m: int| k <= m < j ==> c.has(#[trigger] s@[m]),
        decreases k,
    {
        k -= 1;
    }
    proof {
        lemma_run_start_is(s@, j as int, k as int, c);
    }
    k
}

/// Whether a line feed stands in `s[i..j]`.
pub fn contains_lf(s: &[u8], i: usize, j: usize) -> (r: bool)
    requires
        i <= j <= s.len(),
    ensures
        r == has_lf(s@, i as int, j as int),
{
    let mut k: usize = i;
    while k < j
        invariant
            i <= k <= j <= s.len(),
            forall|m: int| i <= m < k ==> s@[m] != LF,
        decreases j - k,
    {
        if s[k] == LF {
            return true;
        }
        k += 1;
    }
    false
}

/// `memchr::memchr` returns the index of the first byte of `haystack` equal
/// to `needle`, or `None` where no byte of it is.
pub assume_specification[ memchr::memchr ](needle: u8, haystack: &[u8]) -> (r: Option<usize>)
    ensures
        match r {
            Some(i) => i < haystack@.len() && haystack@[i as int] == needle && forall|j: int|
                0 <= j < i ==> haystack@[j] != needle,
            None => forall|j: int| 0 <= j < haystack@.len() ==> haystack@[j] != needle,
        },
;

/// `memchr::memrchr` returns the index of the last byte of `haystack` equal
/// to `needle`, or `None` where no byte of it is.
pub assume_specification[ memchr::memrchr ](needle: u8, haystack: &[u8]) -> (r: Option<usize>)
    ensures
        match r {
            Some(i) => i < haystack@.len() && haystack@[i as int] == needle && forall|j: int|
                i < j < haystack@.len() ==> haystack@[j] != needle,
            None => forall|j: int| 0 <= j < haystack@.len() ==> haystack@[j] != needle,
        },
;

/// The first index at or after `i` that holds `b`.
pub fn find_from(s: &[u8], i: usize, b: u8) -> (r: Option<usize>)
    requires
        i <= s.len(),
    ensures
        match r {
            Some(p) => first_at(s@, i as int, b) == Some(p as int) && i <= p < s.len(),
            None => first_at(s@, i as int, b) is None,
        },
{
    let tail = &s[i..s.len()];
    match memchr::memchr(b, tail) {
        Some(off) => {
            proof {
                assert forall|k: int| i <= k < i + off implies Class::Except(b).has(
                    #[trigger] s@[k],
                ) by {
                    assert(tail@[k - i] == s@[k]);
                }
                assert(tail@[off as int] == s@[i + off]);
                lemma_run_end_is(s@, i as int, i + off, Class::Except(b));
            }
            Some(i + off)
        },
        None => {
            proof {
                assert forall|k: int| i <= k < s.len() implies Class::Except(b).has(
                    #[trigger] s@[k],
                ) by {
                    assert(tail@[k - i] == s@[k]);
                }
                lemma_run_end_is(s@, i as int, s.len() as int, Class::Except(b));
            }
            None
        },
    }
}

/// The index just behind the last `b` before `j`, or 0.
pub fn start_after_last(s: &[u8], j: usize, b: u8) -> (r: usize)
    requires
        j <= s.len(),
    ensures
        r == after_last(s@, j as int, b),
        r <= j,
{
    let head = &s[0..j];
    match memchr::memrchr(b, head) {
        Some(p) => {
            proof {
                assert forall|k: int| p + 1 <= k < j implies Class::Except(b).has(
                    #[trigger] s@[k],
                ) by {
                    assert(head@[k] == s@[k]);
                }
                assert(head@[p as int] == s@[p as int]);
                lemma_run_start_is(s@, j as int, p + 1, Class::Except(b));
            }
            p + 1
        },
        None => {
            proof {
                assert forall|k: int| 0 <= k < j implies Class::Except(b).has(#[trigger] s@[k]) by {
                    assert(head@[k] == s@[k]);
                }
                lemma_run_start_is(s@, j as int, 0, Class::Except(b));
            }
            0
        },
    }
}

/// Appends `s` to `out`.
pub fn append(out: &mut Vec<u8>, s: &[u8])
    ensures
        final(out)@ == old(out)@ + s@,
{
    out.extend_from_slice(s);
    assert(out@ =~= old(out)@ + s@);
}

/// Appends `s[i..j]` to `out`.
pub fn append_range(out: &mut Vec<u8>, s: &[u8], i: usize, j: usize)
    requires
        i <= j <= s.len(),
    ensures
        final(out)@ == old(out)@ + s@.subrange(i as int, j as int),
{
    append(out, &s[i..j]);
}

/// A byte string without the spaces at its two ends.
pub open spec fn trimmed_spaces(s: Seq<u8>) -> Seq<u8> {
    let a = run_end(s, 0, Class::Only(SPACE));
    let b = run_start(s, s.len() as int, Class::Only(SPACE));
    if a < b {
        s.subrange(a, b)
    } else {
        Seq::empty()
    }
}

/// Removes the spaces at both ends of `buf`.
pub fn trim_spaces(buf: &mut Vec<u8>)
    ensures
        final(buf)@ == trimmed_spaces(old(buf)@),
{
    let start = skip_run(buf.as_slice(), 0, Class::Only(SPACE));
    let end = skip_run_back(buf.as_slice(), buf.len(), Class::Only(SPACE));
    if start == 0 && end == buf.len() {
        assert(buf@.subrange(0, buf.len() as int) =~= buf@);
        proof {
            if !(start < end) {
                assert(buf@ =~= Seq::<u8>::empty());
            }
        }
        return;
    }
    let mut tmp: Vec<u8> = Vec::new();
    if start < end {
        append_range(&mut tmp, buf.as_slice(), start, end);
    }
    assert(tmp@ =~= trimmed_spaces(buf@));
    *buf = tmp;
}

} // verus!
