//! Lines of Markdown text: how a text is cut into lines, what counts as
//! whitespace at a line's ends, and the tests that tell the kinds of line
//! apart.

use crate::bytes::{
    append_range, find_from, is_space_tab, lemma_run_end, run_end, run_start, skip_run, space_tab,
    Class, BACKTICK, COLON, DASH, DOT, EQUALS, GT, HASH, LF, SPACE, STAR, TILDE, UNDERSCORE,
};
use vstd::prelude::*;

verus! {

/// Where the line that starts at `i` stops: at its line feed, or at the end
/// of the text.
pub open spec fn line_stop(text: Seq<u8>, i: int) -> int {
    run_end(text, i, Class::Except(LF))
}

/// Where the line behind the one that starts at `i` starts.
pub open spec fn next_line(text: Seq<u8>, i: int) -> int {
    if line_stop(text, i) < text.len() {
        line_stop(text, i) + 1
    } else {
        line_stop(text, i)
    }
}

/// The line that starts at `i`, without its line feed.
pub open spec fn line_at(text: Seq<u8>, i: int) -> Seq<u8> {
    text.subrange(i, line_stop(text, i))
}

/// A line lies inside its text, and the next line starts behind it.
pub proof fn lemma_line(text: Seq<u8>, i: int)
    requires
        0 <= i < text.len(),
    ensures
        i <= line_stop(text, i) <= text.len(),
        i < next_line(text, i) <= text.len(),
        line_stop(text, i) < text.len() ==> text[line_stop(text, i)] == LF,
        next_line(text, i) > line_stop(text, i) ==> text[next_line(text, i) - 1] == LF,
{
    lemma_run_end(text, i, Class::Except(LF));
}

/// The stop of the line that starts at `i`.
pub fn find_line_stop(text: &[u8], i: usize) -> (r: usize)
    requires
        i <= text.len(),
    ensures
        r == line_stop(text@, i as int),
        i <= r <= text.len(),
{
    proof {
        lemma_run_end(text@, i as int, Class::Except(LF));
    }
    match find_from(text, i, LF) {
        Some(p) => p,
        None => text.len(),
    }
}

/// One of the ASCII whitespace characters: tab to carriage return, or space.
pub open spec fn ascii_space(b: u8) -> bool {
    (0x09 <= b <= 0x0d) || b == SPACE
}

/// The two-byte encodings of whitespace characters: U+0085 and U+00A0.
pub open spec fn space2(a: u8, b: u8) -> bool {
    a == 0xc2 && (b == 0x85 || b == 0xa0)
}

/// The three-byte encodings of whitespace characters: U+1680, U+2000 to
/// U+200A, U+2028, U+2029, U+202F, U+205F and U+3000.
pub open spec fn space3(a: u8, b: u8, c: u8) -> bool {
    ||| a == 0xe1 && b == 0x9a && c == 0x80
    ||| a == 0xe2 && b == 0x80 && ((0x80 <= c <= 0x8a) || c == 0xa8 || c == 0xa9 || c == 0xaf)
    ||| a == 0xe2 && b == 0x81 && c == 0x9f
    ||| a == 0xe3 && b == 0x80 && c == 0x80
}

/// The length of the encoding of a whitespace character that starts at `i`,
/// or 0 where none does.
pub open spec fn space_len_at(s: Seq<u8>, i: int) -> int {
    if i < 0 || i >= s.len() {
        0
    } else if ascii_space(s[i]) {
        1
    } else if i + 1 < s.len() && space2(s[i], s[i + 1]) {
        2
    } else if i + 2 < s.len() && space3(s[i], s[i + 1], s[i + 2]) {
        3
    } else {
        0
    }
}

/// The length of the encoding of a whitespace character that ends just
/// before `j` and starts at or behind `lo`, or 0 where none does.
pub open spec fn space_len_before(s: Seq<u8>, lo: int, j: int) -> int {
    if j > s.len() || lo < 0 {
        0
    } else if j - 1 >= lo && ascii_space(s[j - 1]) {
        1
    } else if j - 2 >= lo && space2(s[j - 2], s[j - 1]) {
        2
    } else if j - 3 >= lo && space3(s[j - 3], s[j - 2], s[j - 1]) {
        3
    } else {
        0
    }
}

/// The first index at or behind `i` at which no whitespace character starts.
pub open spec fn text_start(s: Seq<u8>, i: int) -> int
    decreases s.len() - i,
{
    if space_len_at(s, i) > 0 {
        text_start(s, i + space_len_at(s, i))
    } else {
        i
    }
}

/// The last index at or before `j` before which no whitespace character
/// ends, going back no further than `lo`.
pub open spec fn text_stop(s: Seq<u8>, lo: int, j: int) -> int
    decreases j,
{
    if space_len_before(s, lo, j) > 0 {
        text_stop(s, lo, j - space_len_before(s, lo, j))
    } else {
        j
    }
}

/// A line without the whitespace characters at its two ends. On UTF-8 text
/// these are the characters that Unicode calls White_Space.
pub open spec fn stripped(s: Seq<u8>) -> Seq<u8> {
    let a = text_start(s, 0);
    s.subrange(a, text_stop(s, a, s.len() as int))
}

/// A line of whitespace characters alone.
pub open spec fn blank(s: Seq<u8>) -> bool {
    stripped(s).len() == 0
}

/// Whether `b` is ASCII whitespace.
fn is_ascii_space(b: u8) -> (r: bool)
    ensures
        r == ascii_space(b),
{
    (0x09 <= b && b <= 0x0d) || b == SPACE
}

/// Whether two bytes encode a whitespace character.
fn is_space2(a: u8, b: u8) -> (r: bool)
    ensures
        r == space2(a, b),
{
    a == 0xc2 && (b == 0x85 || b == 0xa0)
}

/// Whether three bytes encode a whitespace character.
fn is_space3(a: u8, b: u8, c: u8) -> (r: bool)
    ensures
        r == space3(a, b, c),
{
    (a == 0xe1 && b == 0x9a && c == 0x80) || (a == 0xe2 && b == 0x80 && ((0x80 <= c && c <= 0x8a)
        || c == 0xa8 || c == 0xa9 || c == 0xaf)) || (a == 0xe2 && b == 0x81 && c == 0x9f) || (a
        == 0xe3 && b == 0x80 && c == 0x80)
}

/// The bounds of `s` without the whitespace characters at its two ends.
pub fn strip_bounds(s: &[u8]) -> (r: (usize, usize))
    ensures
        r.0 <= r.1 <= s.len(),
        r.0 == text_start(s@, 0),
        r.1 == text_stop(s@, r.0 as int, s.len() as int),
        s@.subrange(r.0 as int, r.1 as int) == stripped(s@),
{
    let n = s.len();
    let mut a: usize = 0;
    loop
        invariant
            a <= n,
            n == s.len(),
            text_start(s@, a as int) == text_start(s@, 0),
        ensures
            a <= n,
            a == text_start(s@, 0),
        decreases n - a,
    {
        if a >= n {
            break ;
        }
        if is_ascii_space(s[a]) {
            a += 1;
        } else if n - a > 1 && is_space2(s[a], s[a + 1]) {
            a += 2;
        } else if n - a > 2 && is_space3(s[a], s[a + 1], s[a + 2]) {
            a += 3;
        } else {
            break ;
        }
    }
    let mut b: usize = n;
    loop
        invariant
            a <= b <= n,
            n == s.len(),
            text_stop(s@, a as int, b as int) == text_stop(s@, a as int, n as int),
        ensures
            a <= b <= n,
            b == text_stop(s@, a as int, n as int),
        decreases b,
    {
        if b - a >= 1 && is_ascii_space(s[b - 1]) {
            b -= 1;
        } else if b - a >= 2 && is_space2(s[b - 2], s[b - 1]) {
            b -= 2;
        } else if b - a >= 3 && is_space3(s[b - 3], s[b - 2], s[b - 1]) {
            b -= 3;
        } else {
            break ;
        }
    }
    (a, b)
}

/// Where the indentation of a line ends.
pub open spec fn indent(line: Seq<u8>) -> int {
    run_end(line, 0, Class::SpaceTab)
}

/// A line without the spaces and tabs at its start.
pub open spec fn without_indent(line: Seq<u8>) -> Seq<u8> {
    line.subrange(indent(line), line.len() as int)
}

/// A line without the spaces and tabs at its end.
pub open spec fn without_trail(line: Seq<u8>) -> Seq<u8> {
    line.subrange(0, run_start(line, line.len() as int, Class::SpaceTab))
}

/// How often `c` occurs in `s`.
pub open spec fn count_of(s: Seq<u8>, c: u8) -> nat
    decreases s.len(),
{
    if s.len() == 0 {
        0
    } else {
        count_of(s.drop_last(), c) + if s.last() == c {
            1nat
        } else {
            0nat
        }
    }
}

/// The first byte of a line behind its indentation.
pub open spec fn mark(s: Seq<u8>) -> u8 {
    s[indent(s)]
}

/// A line made of one character, repeated, with nothing but spaces and tabs
/// around and between.
pub open spec fn ruled(s: Seq<u8>) -> bool {
    &&& indent(s) < s.len()
    &&& forall|k: int| indent(s) <= k < s.len() ==> s[k] == mark(s) || space_tab(#[trigger] s[k])
}

/// A horizontal rule: `*`, `-` or `_` at least three times, with nothing
/// but spaces and tabs between them.
pub open spec fn hr_line(s: Seq<u8>) -> bool {
    &&& ruled(s)
    &&& mark(s) == STAR || mark(s) == DASH || mark(s) == UNDERSCORE
    &&& count_of(s, mark(s)) >= 3
}

/// The underline of a setext heading: `-` or `=` at least twice, with
/// nothing but spaces and tabs between them.
pub open spec fn setext_underline(s: Seq<u8>) -> bool {
    &&& ruled(s)
    &&& mark(s) == DASH || mark(s) == EQUALS
    &&& count_of(s, mark(s)) >= 2
}

/// For a ruled line, its character and how often it occurs.
fn count_rule(s: &[u8]) -> (r: Option<(u8, usize)>)
    ensures
        match r {
            Some((c, count)) => ruled(s@) && c == mark(s@) && count == count_of(s@, c),
            None => !ruled(s@),
        },
{
    let n = s.len();
    let p = skip_run(s, 0, Class::SpaceTab);
    proof {
        lemma_run_end(s@, 0, Class::SpaceTab);
    }
    if p >= n {
        return None;
    }
    let c = s[p];
    let mut k: usize = 0;
    let mut count: usize = 0;
    assert(s@.subrange(0, 0) =~= Seq::<u8>::empty());
    while k < n
        invariant
            k <= n,
            n == s.len(),
            p < n,
            c == s@[p as int],
            p == indent(s@),
            forall|m: int| 0 <= m < p ==> space_tab(#[trigger] s@[m]),
            count <= k,
            count == count_of(s@.subrange(0, k as int), c),
            forall|m: int| p <= m < k ==> s@[m] == c || space_tab(#[trigger] s@[m]),
        decreases n - k,
    {
        let b = s[k];
        assert(s@.subrange(0, k + 1).drop_last() =~= s@.subrange(0, k as int));
        if b == c {
            count += 1;
        } else if !is_space_tab(b) {
            return None;
        }
        k += 1;
    }
    assert(s@.subrange(0, n as int) =~= s@);
    Some((c, count))
}

/// Whether a line, without the whitespace at its ends, is a horizontal
/// rule.
pub fn is_hr_line_stripped(s: &[u8]) -> (r: bool)
    ensures
        r == hr_line(s@),
{
    match count_rule(s) {
        Some((c, count)) => (c == STAR || c == DASH || c == UNDERSCORE) && count >= 3,
        None => false,
    }
}

/// Whether a line, without the whitespace at its ends, is the underline of
/// a setext heading.
pub fn is_setext_underline_stripped(s: &[u8]) -> (r: bool)
    ensures
        r == setext_underline(s@),
{
    match count_rule(s) {
        Some((c, count)) => (c == DASH || c == EQUALS) && count >= 2,
        None => false,
    }
}

/// The marker of a container line and the text behind it.
pub struct Item {
    /// Indentation, marker and one space.
    pub prefix: Seq<u8>,
    /// What follows the marker and the spaces and tabs behind it.
    pub first: Seq<u8>,
}

/// The item that a result of one of the marker tests stands for.
pub open spec fn item_of(r: Option<(Vec<u8>, Vec<u8>)>) -> Option<Item> {
    match r {
        Some((p, f)) => Some(Item { prefix: p@, first: f@ }),
        None => None,
    }
}

/// A bullet item: indentation, `*` or `-`, then at least one space or tab.
pub open spec fn bullet(line: Seq<u8>) -> Option<Item> {
    let i = indent(line);
    if i + 1 < line.len() && (line[i] == STAR || line[i] == DASH) && space_tab(line[i + 1]) {
        Some(
            Item {
                prefix: line.subrange(0, i + 1).push(SPACE),
                first: line.subrange(run_end(line, i + 1, Class::SpaceTab), line.len() as int),
            },
        )
    } else {
        None
    }
}

/// An ordered item: indentation, digits, `.`, then at least one space or tab.
pub open spec fn ordered(line: Seq<u8>) -> Option<Item> {
    let i = indent(line);
    let d = run_end(line, i, Class::Digit);
    if i < d && d + 1 < line.len() && line[d] == DOT && space_tab(line[d + 1]) {
        Some(
            Item {
                prefix: line.subrange(0, d + 1).push(SPACE),
                first: line.subrange(run_end(line, d + 1, Class::SpaceTab), line.len() as int),
            },
        )
    } else {
        None
    }
}

/// A definition line whose marker ends before `j`: the marker ends the line,
/// or a space or tab follows it. The prefix has its space only where text
/// follows.
pub open spec fn definition(line: Seq<u8>, j: int) -> Option<Item> {
    let c = run_end(line, j, Class::SpaceTab);
    if j == line.len() {
        Some(Item { prefix: line, first: Seq::empty() })
    } else if space_tab(line[j]) {
        Some(
            Item {
                prefix: if c == line.len() {
                    line.subrange(0, j)
                } else {
                    line.subrange(0, j).push(SPACE)
                },
                first: line.subrange(c, line.len() as int),
            },
        )
    } else {
        None
    }
}

/// A definition term: indentation, `:`, then a space, a tab or the end.
pub open spec fn def_term(line: Seq<u8>) -> Option<Item> {
    let i = indent(line);
    if i < line.len() && line[i] == COLON {
        definition(line, i + 1)
    } else {
        None
    }
}

/// A definition description: indentation, `::`, then a space, a tab or the
/// end.
pub open spec fn def_desc(line: Seq<u8>) -> Option<Item> {
    let i = indent(line);
    if i + 1 < line.len() && line[i] == COLON && line[i + 1] == COLON {
        definition(line, i + 2)
    } else {
        None
    }
}

/// An ATX heading: indentation, one to six `#`, then a space or tab.
pub open spec fn atx_heading(line: Seq<u8>) -> bool {
    let i = indent(line);
    let h = run_end(line, i, Class::Only(HASH));
    1 <= h - i <= 6 && h < line.len() && space_tab(line[h])
}

/// A block quote: indentation, `>`, then a space, a tab or the end.
pub open spec fn blockquote(line: Seq<u8>) -> bool {
    let i = indent(line);
    i < line.len() && line[i] == GT && (i + 1 == line.len() || space_tab(line[i + 1]))
}

/// The character and the length of the fence that opened a code block.
#[derive(Clone, Copy, Debug)]
pub struct Fence {
    /// `` ` `` or `~`.
    pub ch: u8,
    /// How often the opener repeats it.
    pub min: usize,
}

/// A line that opens a fenced code block: indentation, then `` ` `` or `~`
/// at least three times.
pub open spec fn opened_fence(line: Seq<u8>) -> Option<Fence> {
    let i = indent(line);
    if i < line.len() && (line[i] == BACKTICK || line[i] == TILDE) && run_end(
        line,
        i,
        Class::Only(line[i]),
    ) - i >= 3 {
        Some(Fence { ch: line[i], min: (run_end(line, i, Class::Only(line[i])) - i) as usize })
    } else {
        None
    }
}

/// A line that closes the fence `f`: indentation, the fence character at
/// least as often as in the opener, then spaces and tabs to the end.
pub open spec fn closes_fence(line: Seq<u8>, f: Fence) -> bool {
    let i = indent(line);
    let c = run_end(line, i, Class::Only(f.ch));
    c - i >= f.min && run_end(line, c, Class::SpaceTab) == line.len()
}

/// The prefix of an item, which ends at `marker_end`, and its text, which
/// starts at `from`.
fn make_item(line: &[u8], marker_end: usize, spaced: bool, from: usize) -> (r: (Vec<u8>, Vec<u8>))
    requires
        marker_end <= from <= line.len(),
    ensures
        r.0@ == if spaced {
            line@.subrange(0, marker_end as int).push(SPACE)
        } else {
            line@.subrange(0, marker_end as int)
        },
        r.1@ == line@.subrange(from as int, line.len() as int),
{
    let mut prefix: Vec<u8> = Vec::new();
    append_range(&mut prefix, line, 0, marker_end);
    if spaced {
        prefix.push(SPACE);
    }
    let mut first: Vec<u8> = Vec::new();
    append_range(&mut first, line, from, line.len());
    (prefix, first)
}

/// For a bullet item, its prefix and the text behind it.
pub fn starts_with_bullet(line: &[u8]) -> (r: Option<(Vec<u8>, Vec<u8>)>)
    ensures
        item_of(r) == bullet(line@),
{
    let n = line.len();
    let i = skip_run(line, 0, Class::SpaceTab);
    if n - i > 1 && (line[i] == STAR || line[i] == DASH) && is_space_tab(line[i + 1]) {
        let j = skip_run(line, i + 1, Class::SpaceTab);
        Some(make_item(line, i + 1, true, j))
    } else {
        None
    }
}

/// For an ordered item, its prefix and the text behind it.
pub fn starts_with_ol(line: &[u8]) -> (r: Option<(Vec<u8>, Vec<u8>)>)
    ensures
        item_of(r) == ordered(line@),
{
    let n = line.len();
    let i = skip_run(line, 0, Class::SpaceTab);
    let d = skip_run(line, i, Class::Digit);
    if i < d && n - d > 1 && line[d] == DOT && is_space_tab(line[d + 1]) {
        let j = skip_run(line, d + 1, Class::SpaceTab);
        Some(make_item(line, d + 1, true, j))
    } else {
        None
    }
}

/// For a definition line whose marker ends before `j`, its prefix and the
/// text behind it.
fn parse_definition(line: &[u8], j: usize) -> (r: Option<(Vec<u8>, Vec<u8>)>)
    requires
        j <= line.len(),
    ensures
        item_of(r) == definition(line@, j as int),
{
    let n = line.len();
    if j == n {
        let r = make_item(line, n, false, n);
        assert(r.0@ =~= line@);
        assert(r.1@ =~= Seq::<u8>::empty());
        Some(r)
    } else if is_space_tab(line[j]) {
        let c = skip_run(line, j, Class::SpaceTab);
        Some(make_item(line, j, c != n, c))
    } else {
        None
    }
}

/// For a definition term, its prefix and the text behind it.
pub fn parse_dt(line: &[u8]) -> (r: Option<(Vec<u8>, Vec<u8>)>)
    ensures
        item_of(r) == def_term(line@),
{
    let i = skip_run(line, 0, Class::SpaceTab);
    if i < line.len() && line[i] == COLON {
        parse_definition(line, i + 1)
    } else {
        None
    }
}

/// For a definition description, its prefix and the text behind it.
pub fn parse_dd(line: &[u8]) -> (r: Option<(Vec<u8>, Vec<u8>)>)
    ensures
        item_of(r) == def_desc(line@),
{
    let n = line.len();
    let i = skip_run(line, 0, Class::SpaceTab);
    if n - i > 1 && line[i] == COLON && line[i + 1] == COLON {
        parse_definition(line, i + 2)
    } else {
        None
    }
}

/// Whether the line is an ATX heading.
pub fn is_atx_heading(line: &[u8]) -> (r: bool)
    ensures
        r == atx_heading(line@),
{
    let i = skip_run(line, 0, Class::SpaceTab);
    let h = skip_run(line, i, Class::Only(HASH));
    1 <= h - i && h - i <= 6 && h < line.len() && is_space_tab(line[h])
}

/// Whether the line is a block quote.
pub fn is_blockquote(line: &[u8]) -> (r: bool)
    ensures
        r == blockquote(line@),
{
    let n = line.len();
    let i = skip_run(line, 0, Class::SpaceTab);
    i < n && line[i] == GT && (i + 1 == n || is_space_tab(line[i + 1]))
}

/// For a line that opens a fenced code block, its fence.
pub fn fence_open(line: &[u8]) -> (r: Option<Fence>)
    ensures
        r == opened_fence(line@),
{
    let i = skip_run(line, 0, Class::SpaceTab);
    if i < line.len() && (line[i] == BACKTICK || line[i] == TILDE) {
        let ch = line[i];
        let j = skip_run(line, i, Class::Only(ch));
        if j - i >= 3 {
            return Some(Fence { ch, min: j - i });
        }
    }
    None
}

/// Whether the line closes the fence `f`.
pub fn fence_close(line: &[u8], f: Fence) -> (r: bool)
    ensures
        r == closes_fence(line@, f),
{
    let i = skip_run(line, 0, Class::SpaceTab);
    let c = skip_run(line, i, Class::Only(f.ch));
    if c - i < f.min {
        return false;
    }
    skip_run(line, c, Class::SpaceTab) == line.len()
}

} // verus!
