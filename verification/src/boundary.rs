//! What stands around a run of text: the token that follows it, the line
//! that precedes it, and the line feeds and definition markers at its edges.

use crate::bytes::{
    after_last, is_space_tab, lemma_run_start, run_end, run_start, skip_run, skip_run_back,
    space_tab, start_after_last, Class, BANG, COLON, DASH, GT, LF, LT,
};
use crate::comment::{comment_at, comment_close, comment_standalone, scan_comment};
use crate::line::count_of;
use crate::names::{is_structural, structural_name};
use crate::tag::{
    find_tag_end, parse_tag_info, tag_end, tag_is_end, tag_name, tag_shape, TagInfo, TagShape,
};
use vstd::prelude::*;

verus! {

/// The line before `boundary` ends in the start tag of a block-level
/// element. The line is what stands between the start of the line that
/// `boundary` lies on and `boundary`; where that is empty or holds only
/// spaces and tabs, it is the line before, and so on. Spaces and tabs at the
/// end of the line do not count.
pub open spec fn after_block_start(s: Seq<u8>, boundary: int) -> bool
    decreases boundary,
{
    let line_start = after_last(s, boundary, LF);
    let end = run_start(s, boundary, Class::SpaceTab);
    let lt = after_last(s, end, LT) - 1;
    if boundary < 0 || boundary > s.len() {
        false
    } else if end > line_start {
        &&& s[end - 1] == GT
        &&& lt >= line_start
        &&& !tag_is_end(s.subrange(lt, end))
        &&& structural_name(tag_name(s.subrange(lt, end)))
    } else {
        proof {
            lemma_run_start(s, boundary, Class::Except(LF));
        }
        line_start > 0 && after_block_start(s, line_start - 1)
    }
}

/// Whether the line before `boundary` ends in the start tag of a block-level
/// element.
pub fn prev_line_ends_with_structural_start(s: &[u8], boundary: usize) -> (r: bool)
    ensures
        r == after_block_start(s@, boundary as int),
{
    if boundary > s.len() {
        return false;
    }
    let mut b: usize = boundary;
    loop
        invariant
            b <= s.len(),
            after_block_start(s@, b as int) == after_block_start(s@, boundary as int),
        decreases b,
    {
        let line_start = start_after_last(s, b, LF);
        let end = skip_run_back(s, b, Class::SpaceTab);
        proof {
            lemma_run_start(s@, b as int, Class::Except(LF));
            lemma_run_start(s@, b as int, Class::SpaceTab);
        }
        if end > line_start {
            if s[end - 1] != GT {
                return false;
            }
            let after_lt = start_after_last(s, end, LT);
            if after_lt <= line_start {
                return false;
            }
            let ti = parse_tag_info(&s[after_lt - 1..end]);
            if ti.is_end {
                return false;
            }
            return is_structural(ti.name);
        } else {
            if line_start == 0 {
                return false;
            }
            b = line_start - 1;
        }
    }
}

/// Exactly one byte of the chunk is a line feed.
pub open spec fn single_lf(chunk: Seq<u8>) -> bool {
    count_of(chunk, LF) == 1
}

/// Whether exactly one byte of the chunk is a line feed.
pub fn has_single_lf(chunk: &[u8]) -> (r: bool)
    ensures
        r == single_lf(chunk@),
{
    let n = chunk.len();
    let mut count: usize = 0;
    let mut k: usize = 0;
    assert(chunk@.subrange(0, 0) =~= Seq::<u8>::empty());
    while k < n
        invariant
            k <= n,
            n == chunk.len(),
            count <= 1,
            count == count_of(chunk@.subrange(0, k as int), LF),
        decreases n - k,
    {
        assert(chunk@.subrange(0, k + 1).drop_last() =~= chunk@.subrange(0, k as int));
        if chunk[k] == LF {
            if count == 1 {
                proof {
                    lemma_count_grows(chunk@, k + 1, LF);
                }
                return false;
            }
            count += 1;
        }
        k += 1;
    }
    assert(chunk@.subrange(0, n as int) =~= chunk@);
    count == 1
}

/// A prefix holds a byte no more often than the whole.
pub proof fn lemma_count_grows(s: Seq<u8>, k: int, c: u8)
    requires
        0 <= k <= s.len(),
    ensures
        count_of(s.subrange(0, k), c) <= count_of(s, c),
    decreases s.len() - k,
{
    if k < s.len() {
        lemma_count_grows(s, k + 1, c);
        assert(s.subrange(0, k + 1).drop_last() =~= s.subrange(0, k));
    } else {
        assert(s.subrange(0, k) =~= s);
    }
}

/// How many line feeds end the chunk, not counting the spaces and tabs
/// behind them.
pub open spec fn trailing_lfs(chunk: Seq<u8>) -> int {
    let i = run_start(chunk, chunk.len() as int, Class::SpaceTab);
    i - run_start(chunk, i, Class::Only(LF))
}

/// How many line feeds end the chunk, not counting the spaces and tabs
/// behind them.
pub fn trailing_lf_count_ignoring_spaces(chunk: &[u8]) -> (r: usize)
    ensures
        r == trailing_lfs(chunk@),
{
    let i = skip_run_back(chunk, chunk.len(), Class::SpaceTab);
    let j = skip_run_back(chunk, i, Class::Only(LF));
    i - j
}

/// A definition marker stands at `i`: `:` or `::`, and behind it a space, a
/// tab or the end.
pub open spec fn def_marker_at(s: Seq<u8>, i: int) -> bool {
    let k = if i + 1 < s.len() && s[i + 1] == COLON {
        i + 2
    } else {
        i + 1
    };
    0 <= i < s.len() && s[i] == COLON && (k >= s.len() || space_tab(s[k]))
}

/// Whether a definition marker stands at `i`.
fn is_def_marker_at(s: &[u8], i: usize) -> (r: bool)
    requires
        i <= s.len(),
    ensures
        r == def_marker_at(s@, i as int),
{
    let n = s.len();
    if i >= n || s[i] != COLON {
        return false;
    }
    let k: usize = if n - i > 1 && s[i + 1] == COLON {
        i + 2
    } else {
        i + 1
    };
    k >= n || is_space_tab(s[k])
}

/// The body starts with one line feed, indentation and a definition marker.
pub open spec fn begins_with_def(body: Seq<u8>) -> bool {
    body.len() > 0 && body[0] == LF && def_marker_at(body, run_end(body, 1, Class::SpaceTab))
}

/// Whether the body starts with one line feed, indentation and a definition
/// marker.
pub fn body_begins_with_dt_or_dd_after_single_lf(body: &[u8]) -> (r: bool)
    ensures
        r == begins_with_def(body@),
{
    if body.len() == 0 || body[0] != LF {
        return false;
    }
    let j = skip_run(body, 1, Class::SpaceTab);
    is_def_marker_at(body, j)
}

/// Where the indentation ends behind the line feed that starts the body,
/// if a definition marker follows it.
pub open spec fn def_indent_end(body: Seq<u8>) -> Option<int> {
    if begins_with_def(body) {
        Some(run_end(body, 1, Class::SpaceTab))
    } else {
        None
    }
}

/// Where the indentation ends behind the line feed that starts the body, if
/// a definition marker follows it.
pub fn leading_lf_indent_end_before_dt_or_dd(body: &[u8]) -> (r: Option<usize>)
    ensures
        match r {
            Some(j) => def_indent_end(body@) == Some(j as int) && 1 <= j < body.len(),
            None => def_indent_end(body@) is None,
        },
{
    if body.len() == 0 || body[0] != LF {
        return None;
    }
    let j = skip_run(body, 1, Class::SpaceTab);
    if is_def_marker_at(body, j) {
        Some(j)
    } else {
        None
    }
}

/// The line that `pos` lies on starts, behind its indentation, with a
/// definition marker.
pub open spec fn def_line_at(src: Seq<u8>, pos: int) -> bool {
    0 <= pos <= src.len() && def_marker_at(
        src,
        run_end(src, after_last(src, pos, LF), Class::SpaceTab),
    )
}

/// Whether the line that `pos` lies on starts, behind its indentation, with a
/// definition marker.
pub fn line_at_pos_starts_with_dt_or_dd(src: &[u8], pos: usize) -> (r: bool)
    ensures
        r == def_line_at(src@, pos as int),
{
    if pos > src.len() {
        return false;
    }
    let line_start = start_after_last(src, pos, LF);
    let i = skip_run(src, line_start, Class::SpaceTab);
    is_def_marker_at(src, i)
}

/// What follows a run of text.
pub enum Ahead {
    /// The end of the input, or markup that is never closed.
    Nothing,
    /// A comment that stands alone on its line.
    StandaloneComment,
    /// Any other comment.
    InlineComment,
    /// A tag.
    Tag(TagShape),
}

/// The token that starts at `next_lt`.
#[verifier::opaque]
pub open spec fn ahead(src: Seq<u8>, next_lt: int) -> Ahead {
    if next_lt < 0 || next_lt >= src.len() {
        Ahead::Nothing
    } else if comment_at(src, next_lt) {
        match comment_close(src, next_lt) {
            Some(j) => if comment_standalone(src, next_lt, j) {
                Ahead::StandaloneComment
            } else {
                Ahead::InlineComment
            },
            None => Ahead::Nothing,
        }
    } else if src[next_lt] == LT {
        match tag_end(src, next_lt) {
            Some(j) => Ahead::Tag(tag_shape(src.subrange(next_lt, j + 1))),
            None => Ahead::Nothing,
        }
    } else {
        Ahead::Nothing
    }
}

/// The token that a result of `classify_ahead` stands for.
pub open spec fn ahead_of(r: (bool, bool, Option<TagInfo<'_>>)) -> Ahead {
    if r.0 {
        Ahead::StandaloneComment
    } else if r.1 {
        Ahead::InlineComment
    } else {
        match r.2 {
            Some(ti) => Ahead::Tag(ti@),
            None => Ahead::Nothing,
        }
    }
}

/// Whether `<!--` stands at `i`.
pub fn starts_comment(s: &[u8], i: usize) -> (r: bool)
    ensures
        r == comment_at(s@, i as int),
{
    let n = s.len();
    if n < 4 || i > n - 4 {
        return false;
    }
    let r = s[i] == LT && s[i + 1] == BANG && s[i + 2] == DASH && s[i + 3] == DASH;
    proof {
        let w = s@.subrange(i as int, i + 4);
        assert(w[0] == s@[i as int] && w[1] == s@[i + 1] && w[2] == s@[i + 2] && w[3] == s@[i
            + 3]);
        if r {
            assert(w =~= crate::comment::comment_open());
        }
    }
    r
}

/// Classifies the token that starts at `next_lt`: whether it is a comment
/// that stands alone, whether it is any other comment, and, for a tag, what
/// the tag says of itself.
pub fn classify_ahead(src: &[u8], next_lt: usize) -> (r: (bool, bool, Option<TagInfo<'_>>))
    ensures
        ahead_of(r) == ahead(src@, next_lt as int),
        !(r.0 && r.1),
        r.0 || r.1 ==> r.2 is None,
{
    reveal(ahead);
    if next_lt >= src.len() {
        return (false, false, None);
    }
    if starts_comment(src, next_lt) {
        let (j_end, standalone) = scan_comment(src, next_lt);
        if j_end == usize::MAX {
            return (false, false, None);
        }
        return (standalone, !standalone, None);
    }
    if src[next_lt] == LT {
        if let Some(j) = find_tag_end(src, next_lt) {
            let ti = parse_tag_info(&src[next_lt..j + 1]);
            return (false, false, Some(ti));
        }
    }
    (false, false, None)
}

} // verus!
