//! Markdown-aware reflow: lines are sorted into blank lines, fenced code,
//! container items, block lines and paragraph text, and each item or
//! paragraph is joined with the lines that continue it.

use crate::bytes::{append, append_range, skip_run, skip_run_back, Class, LF, SPACE};
use crate::line::{
    atx_heading, blank, blockquote, bullet, closes_fence, def_desc, def_term, fence_close,
    fence_open, find_line_stop, hr_line, is_atx_heading, is_blockquote, is_hr_line_stripped,
    is_setext_underline_stripped, item_of, lemma_line, line_at, next_line, opened_fence, ordered,
    parse_dd, parse_dt, setext_underline, starts_with_bullet, starts_with_ol, strip_bounds,
    stripped, without_indent, without_trail, Fence, Item,
};
use vstd::prelude::*;

verus! {

/// The container marker that a line starts with, if any: a bullet, an
/// ordered item, a definition term or a definition description.
pub open spec fn marker(line: Seq<u8>) -> Option<Item> {
    if bullet(line) is Some {
        bullet(line)
    } else if ordered(line) is Some {
        ordered(line)
    } else if def_term(line) is Some {
        def_term(line)
    } else {
        def_desc(line)
    }
}

/// A line that continues the item or paragraph before it: not blank, and
/// the start of nothing else.
pub open spec fn lazy_continuation(line: Seq<u8>) -> bool {
    &&& !blank(line)
    &&& opened_fence(line) is None
    &&& !atx_heading(line)
    &&& marker(line) is None
    &&& !blockquote(line)
    &&& !hr_line(stripped(line))
    &&& !setext_underline(stripped(line))
}

/// Where the lines end that continue an item whose first line ends before
/// `e`.
pub open spec fn group_end(text: Seq<u8>, e: int) -> int
    decreases text.len() - e,
{
    if 0 <= e < text.len() && lazy_continuation(line_at(text, e)) {
        proof {
            lemma_line(text, e);
        }
        group_end(text, next_line(text, e))
    } else {
        e
    }
}

/// What the lines that continue an item add to it: for each, a space and
/// the line without its indentation.
pub open spec fn group_tail(text: Seq<u8>, e: int) -> Seq<u8>
    decreases text.len() - e,
{
    if 0 <= e < text.len() && lazy_continuation(line_at(text, e)) {
        proof {
            lemma_line(text, e);
        }
        seq![SPACE] + without_indent(line_at(text, e)) + group_tail(text, next_line(text, e))
    } else {
        Seq::empty()
    }
}

/// A line feed where the line that ends before `c` ends in one.
pub open spec fn closing_lf(text: Seq<u8>, c: int) -> Seq<u8> {
    if 0 < c <= text.len() && text[c - 1] == LF {
        seq![LF]
    } else {
        Seq::empty()
    }
}

/// An item or paragraph joined with the lines that continue it. `first` is
/// the text of its first line, which ends before `e`: it loses the spaces
/// and tabs at its end, each further line those at its start, and single
/// spaces join them. The line feed of the last line stays.
pub open spec fn joined(first: Seq<u8>, text: Seq<u8>, e: int) -> Seq<u8> {
    without_trail(first) + group_tail(text, e) + closing_lf(text, group_end(text, e))
}

/// Where the code block ends whose fence `f` was opened on the line before
/// `e`: behind the line that closes it, or at the end of the text.
pub open spec fn fence_end(text: Seq<u8>, e: int, f: Fence) -> int
    decreases text.len() - e,
{
    if 0 <= e < text.len() {
        proof {
            lemma_line(text, e);
        }
        if closes_fence(line_at(text, e), f) {
            next_line(text, e)
        } else {
            fence_end(text, next_line(text, e), f)
        }
    } else {
        e
    }
}

/// The lines that continue an item end inside the text.
pub proof fn lemma_group_end(text: Seq<u8>, e: int)
    requires
        0 <= e <= text.len(),
    ensures
        e <= group_end(text, e) <= text.len(),
    decreases text.len() - e,
{
    if e < text.len() && lazy_continuation(line_at(text, e)) {
        lemma_line(text, e);
        lemma_group_end(text, next_line(text, e));
    }
}

/// A fenced code block ends inside the text.
pub proof fn lemma_fence_end(text: Seq<u8>, e: int, f: Fence)
    requires
        0 <= e <= text.len(),
    ensures
        e <= fence_end(text, e, f) <= text.len(),
    decreases text.len() - e,
{
    if e < text.len() {
        lemma_line(text, e);
        if !closes_fence(line_at(text, e), f) {
            lemma_fence_end(text, next_line(text, e), f);
        }
    }
}

/// A line that stands for itself: an ATX heading, a block quote, a
/// horizontal rule, or, behind paragraph text, a setext underline.
pub open spec fn block_line(line: Seq<u8>, after_para: bool) -> bool {
    ||| atx_heading(line)
    ||| blockquote(line)
    ||| hr_line(stripped(line))
    ||| (after_para && setext_underline(stripped(line)))
}

/// One block of a text: what reflow makes of it, where it ends, and whether
/// it is a paragraph.
pub struct Block {
    pub text: Seq<u8>,
    pub end: int,
    pub para: bool,
}

/// The block that starts with the line at `i`; `after_para` says that the
/// line before was paragraph text.
///
/// A blank line and a block line stay as they are. A fenced code block stays
/// as it is, from the line that opens it to the line that closes it. A
/// container item keeps its marker and is joined with the lines that continue
/// it; so is a paragraph.
pub open spec fn block_at(text: Seq<u8>, i: int, after_para: bool) -> Block {
    let line = line_at(text, i);
    let e = next_line(text, i);
    if blank(line) {
        Block { text: text.subrange(i, e), end: e, para: false }
    } else if let Some(f) = opened_fence(line) {
        Block { text: text.subrange(i, fence_end(text, e, f)), end: fence_end(text, e, f), para: false }
    } else if let Some(item) = marker(line) {
        Block {
            text: item.prefix + joined(item.first, text, e),
            end: group_end(text, e),
            para: false,
        }
    } else if block_line(line, after_para) {
        Block { text: text.subrange(i, e), end: e, para: false }
    } else {
        Block { text: joined(line, text, e), end: group_end(text, e), para: true }
    }
}

/// A block holds at least its first line and ends inside the text.
pub proof fn lemma_block_at(text: Seq<u8>, i: int, after_para: bool)
    requires
        0 <= i < text.len(),
    ensures
        i < block_at(text, i, after_para).end <= text.len(),
{
    lemma_line(text, i);
    let e = next_line(text, i);
    lemma_group_end(text, e);
    if let Some(f) = opened_fence(line_at(text, i)) {
        lemma_fence_end(text, e, f);
    }
}

/// The Markdown reflow of `text[i..]`, where a line starts at `i`: its
/// blocks in turn.
pub open spec fn md_from(text: Seq<u8>, i: int, after_para: bool) -> Seq<u8>
    decreases text.len() - i,
{
    if i < 0 || i >= text.len() {
        Seq::empty()
    } else {
        let b = block_at(text, i, after_para);
        proof {
            lemma_block_at(text, i, after_para);
        }
        b.text + md_from(text, b.end, b.para)
    }
}

/// The Markdown reflow of a text.
pub open spec fn markdown_reflow(text: Seq<u8>) -> Seq<u8> {
    md_from(text, 0, false)
}

/// For a container line, its prefix and the text behind it.
fn parse_marker(line: &[u8]) -> (r: Option<(Vec<u8>, Vec<u8>)>)
    ensures
        item_of(r) == marker(line@),
{
    let b = starts_with_bullet(line);
    if b.is_some() {
        return b;
    }
    let o = starts_with_ol(line);
    if o.is_some() {
        return o;
    }
    let t = parse_dt(line);
    if t.is_some() {
        return t;
    }
    parse_dd(line)
}

/// Whether the line continues the item or paragraph before it.
fn is_lazy_continuation(line: &[u8]) -> (r: bool)
    ensures
        r == lazy_continuation(line@),
{
    let (a, b) = strip_bounds(line);
    if a == b {
        return false;
    }
    let core = &line[a..b];
    !(fence_open(line).is_some() || is_atx_heading(line) || parse_marker(line).is_some()
        || is_blockquote(line) || is_hr_line_stripped(core) || is_setext_underline_stripped(core))
}

/// Appends to `out` the item whose first line holds `first` and ends before
/// `e`, joined with the lines that continue it; returns where they end.
fn emit_group(text: &[u8], e: usize, first: &[u8], out: &mut Vec<u8>) -> (c: usize)
    requires
        e <= text.len(),
    ensures
        final(out)@ == old(out)@ + joined(first@, text@, e as int),
        c == group_end(text@, e as int),
        e <= c <= text.len(),
{
    let n = text.len();
    let t = skip_run_back(first, first.len(), Class::SpaceTab);
    append_range(out, first, 0, t);
    let mut k: usize = e;
    loop
        invariant
            e <= k <= n,
            n == text.len(),
            group_end(text@, k as int) == group_end(text@, e as int),
            out@ + group_tail(text@, k as int) == old(out)@ + without_trail(first@) + group_tail(
                text@,
                e as int,
            ),
        ensures
            e <= k <= n,
            k == group_end(text@, e as int),
            out@ == old(out)@ + without_trail(first@) + group_tail(text@, e as int),
        decreases n - k,
    {
        if k >= n {
            assert(out@ + Seq::<u8>::empty() =~= out@);
            break ;
        }
        let stop = find_line_stop(text, k);
        let line = &text[k..stop];
        if !is_lazy_continuation(line) {
            assert(out@ + Seq::<u8>::empty() =~= out@);
            break ;
        }
        proof {
            lemma_line(text@, k as int);
        }
        let ghost before = out@;
        out.push(SPACE);
        let a = skip_run(line, 0, Class::SpaceTab);
        append_range(out, line, a, line.len());
        let next: usize = if stop < n {
            stop + 1
        } else {
            stop
        };
        assert(out@ + group_tail(text@, next as int) =~= before + group_tail(text@, k as int));
        k = next;
    }
    if k > 0 && text[k - 1] == LF {
        out.push(LF);
    }
    assert(out@ =~= old(out)@ + joined(first@, text@, e as int));
    k
}

/// Where the code block ends whose fence `f` was opened on the line before
/// `e`.
fn skip_fence(text: &[u8], e: usize, f: Fence) -> (c: usize)
    requires
        e <= text.len(),
    ensures
        c == fence_end(text@, e as int, f),
        e <= c <= text.len(),
{
    let n = text.len();
    let mut k: usize = e;
    while k < n
        invariant
            e <= k <= n,
            n == text.len(),
            fence_end(text@, k as int, f) == fence_end(text@, e as int, f),
        decreases n - k,
    {
        let stop = find_line_stop(text, k);
        proof {
            lemma_line(text@, k as int);
        }
        let next: usize = if stop < n {
            stop + 1
        } else {
            stop
        };
        if fence_close(&text[k..stop], f) {
            return next;
        }
        k = next;
    }
    k
}

/// Appends to `out` the reflow of the block that starts with the line at
/// `i`; returns where the block ends and whether it is a paragraph.
fn emit_block(text: &[u8], i: usize, after_para: bool, out: &mut Vec<u8>) -> (r: (usize, bool))
    requires
        i < text.len(),
    ensures
        final(out)@ == old(out)@ + block_at(text@, i as int, after_para).text,
        r.0 == block_at(text@, i as int, after_para).end,
        r.1 == block_at(text@, i as int, after_para).para,
        i < r.0 <= text.len(),
{
    let n = text.len();
    let stop = find_line_stop(text, i);
    proof {
        lemma_line(text@, i as int);
    }
    let e: usize = if stop < n {
        stop + 1
    } else {
        stop
    };
    let line = &text[i..stop];
    let (a, b) = strip_bounds(line);
    if a == b {
        append_range(out, text, i, e);
        return (e, false);
    }
    if let Some(f) = fence_open(line) {
        let c = skip_fence(text, e, f);
        append_range(out, text, i, c);
        return (c, false);
    }
    if let Some((prefix, first)) = parse_marker(line) {
        let ghost before = out@;
        append(out, prefix.as_slice());
        let c = emit_group(text, e, first.as_slice(), out);
        assert(out@ =~= before + (prefix@ + joined(first@, text@, e as int)));
        return (c, false);
    }
    if is_atx_heading(line) || is_blockquote(line) || is_hr_line_stripped(&line[a..b]) || (
    after_para && is_setext_underline_stripped(&line[a..b])) {
        append_range(out, text, i, e);
        return (e, false);
    }
    let c = emit_group(text, e, line, out);
    (c, true)
}

/// Appends the Markdown reflow of `text` to `out`.
pub fn markdown_into(text: &[u8], out: &mut Vec<u8>)
    ensures
        final(out)@ == old(out)@ + markdown_reflow(text@),
{
    let n = text.len();
    let mut i: usize = 0;
    let mut after_para = false;
    while i < n
        invariant
            i <= n,
            n == text.len(),
            out@ + md_from(text@, i as int, after_para) == old(out)@ + markdown_reflow(text@),
        decreases n - i,
    {
        let ghost before = out@;
        let ghost blk = block_at(text@, i as int, after_para);
        let (next, next_after) = emit_block(text, i, after_para, out);
        assert(out@ + md_from(text@, next as int, next_after) =~= before + (blk.text + md_from(
            text@,
            blk.end,
            blk.para,
        )));
        i = next;
        after_para = next_after;
    }
    assert(out@ + Seq::<u8>::empty() =~= out@);
}

/// The Markdown reflow of `text`.
pub fn reflow_markdown_text(text: &[u8]) -> (r: Vec<u8>)
    ensures
        r@ == markdown_reflow(text@),
{
    let mut out: Vec<u8> = Vec::with_capacity(text.len());
    markdown_into(text, &mut out);
    assert(Seq::<u8>::empty() + markdown_reflow(text@) =~= markdown_reflow(text@));
    out
}

} // verus!
