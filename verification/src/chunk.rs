//! Reflow of one run of text in its context: which of its edges are kept,
//! what becomes of the rest, and how it joins the token that follows.

use crate::boundary::{
    after_block_start, ahead, ahead_of, begins_with_def, body_begins_with_dt_or_dd_after_single_lf,
    classify_ahead, def_indent_end, def_line_at, has_single_lf,
    leading_lf_indent_end_before_dt_or_dd, line_at_pos_starts_with_dt_or_dd,
    prev_line_ends_with_structural_start, single_lf, trailing_lf_count_ignoring_spaces,
    trailing_lfs, Ahead,
};
use crate::bytes::{
    append, append_range, lemma_run_end, lemma_run_start, run_end, run_start, skip_run,
    skip_run_back, Class, LF, SPACE,
};
use crate::markdown::{markdown_into, markdown_reflow};
use crate::names::{inline_name, is_inline, is_structural, structural_name};
use crate::plain::{fold_into, plain_reflow};
use crate::tag::TagInfo;
use vstd::prelude::*;

verus! {

/// The reflow of a text: Markdown-aware or plain.
pub open spec fn text_reflow(text: Seq<u8>, markdown: bool) -> Seq<u8> {
    if markdown {
        markdown_reflow(text)
    } else {
        plain_reflow(text)
    }
}

/// The reflow of `text`: Markdown-aware or plain.
pub fn reflow_text(text: &[u8], use_markdown: bool) -> (r: Vec<u8>)
    ensures
        r@ == text_reflow(text@, use_markdown),
{
    let mut out: Vec<u8> = Vec::with_capacity(text.len());
    if use_markdown {
        markdown_into(text, &mut out);
    } else {
        fold_into(text, &mut out);
    }
    assert(Seq::<u8>::empty() + text_reflow(text@, use_markdown) =~= text_reflow(
        text@,
        use_markdown,
    ));
    out
}

/// The chunk holds nothing but whitespace.
pub open spec fn ws_only(chunk: Seq<u8>) -> bool {
    run_end(chunk, 0, Class::Ws) == chunk.len()
}

/// The start tag of an inline element follows.
pub open spec fn inline_start(a: Ahead) -> bool {
    match a {
        Ahead::Tag(t) => !t.is_end && inline_name(t.name),
        _ => false,
    }
}

/// A tag of a block-level element follows, start or end.
pub open spec fn block_tag(a: Ahead) -> bool {
    match a {
        Ahead::Tag(t) => structural_name(t.name),
        _ => false,
    }
}

/// What becomes of a chunk of whitespace alone. It stays as it is, unless
/// the start tag of an inline element follows, the chunk holds exactly one
/// line feed, and the line before did not end in the start tag of a
/// block-level element: then it becomes one space.
pub open spec fn gap_reflow(chunk: Seq<u8>, src: Seq<u8>, next_lt: int) -> Seq<u8> {
    let a = ahead(src, next_lt);
    if !block_tag(a) && inline_start(a) && single_lf(chunk) && !after_block_start(src, next_lt) {
        seq![SPACE]
    } else {
        chunk
    }
}

/// The line feed that starts the body is a soft wrap: one line feed, not
/// two; the text before the chunk does not end in the start tag of a
/// block-level element; no edge is held by what came before; and in Markdown
/// no definition marker follows.
pub open spec fn soft_wrap(body: Seq<u8>, src: Seq<u8>, at: int, markdown: bool, held: bool) -> bool {
    &&& body.len() > 0 && body[0] == LF
    &&& body.len() == 1 || body[1] != LF
    &&& !after_block_start(src, at)
    &&& !held
    &&& !(markdown && begins_with_def(body))
}

/// The body with a soft wrap at its start replaced by one space.
pub open spec fn soft_wrapped(
    body: Seq<u8>,
    src: Seq<u8>,
    at: int,
    markdown: bool,
    held: bool,
) -> Seq<u8> {
    if soft_wrap(body, src, at, markdown, held) {
        seq![SPACE] + body.subrange(run_end(body, 1, Class::SpaceTab), body.len() as int)
    } else {
        body
    }
}

/// The reflow of the body of a chunk. In Markdown a definition marker
/// behind the first line feed keeps its line: line feed and indentation
/// stay, and the rest is reflowed. Else the body is reflowed with a soft
/// wrap at its start replaced by a space.
#[verifier::opaque]
pub open spec fn core_reflow(
    body: Seq<u8>,
    src: Seq<u8>,
    at: int,
    markdown: bool,
    held: bool,
) -> Seq<u8> {
    if markdown && def_indent_end(body) is Some {
        seq![LF] + body.subrange(1, def_indent_end(body).unwrap()) + text_reflow(
            body.subrange(def_indent_end(body).unwrap(), body.len() as int),
            markdown,
        )
    } else {
        text_reflow(soft_wrapped(body, src, at, markdown, held), markdown)
    }
}

/// Reflowed text without the spaces and tabs at its end, and without one
/// line feed before them and the spaces and tabs before that.
pub open spec fn without_tail(r: Seq<u8>) -> Seq<u8> {
    let a = run_start(r, r.len() as int, Class::SpaceTab);
    if a > 0 && r[a - 1] == LF {
        r.subrange(0, run_start(r, a - 1, Class::SpaceTab))
    } else {
        r.subrange(0, a)
    }
}

/// The whitespace at the end of the chunk is kept as it is: a tag of a
/// block-level element or a comment that stands alone follows, or in
/// Markdown the line of the following token starts with a definition marker.
pub open spec fn keeps_tail(chunk: Seq<u8>, src: Seq<u8>, next_lt: int, markdown: bool, at: int) -> bool {
    ||| ahead(src, next_lt) is StandaloneComment
    ||| block_tag(ahead(src, next_lt))
    ||| (markdown && def_line_at(src, at + chunk.len()))
}

/// The chunk ends in exactly one line feed that may be joined away.
pub open spec fn joinable(chunk: Seq<u8>, src: Seq<u8>, at: int) -> bool {
    trailing_lfs(chunk) == 1 && !after_block_start(src, at + chunk.len())
}

/// Where the start of the chunk that is written as it is ends: behind all
/// its whitespace where the start is held, else behind its spaces and tabs.
pub open spec fn head_end(chunk: Seq<u8>, keep_head: bool) -> int {
    if keep_head {
        run_end(chunk, 0, Class::Ws)
    } else {
        run_end(chunk, 0, Class::SpaceTab)
    }
}

/// Where the end of the chunk that is written as it is starts: before all
/// its whitespace where the end is kept, else before its spaces and tabs.
pub open spec fn tail_start(chunk: Seq<u8>, keep_tail: bool) -> int {
    if keep_tail {
        run_start(chunk, chunk.len() as int, Class::Ws)
    } else {
        run_start(chunk, chunk.len() as int, Class::SpaceTab)
    }
}

/// The line feed that ends the chunk is joined away: the end is not kept,
/// the start tag of an inline element or a comment follows, and the chunk
/// ends in exactly one line feed that may go.
pub open spec fn joins(
    chunk: Seq<u8>,
    src: Seq<u8>,
    next_lt: int,
    markdown: bool,
    at: int,
) -> bool {
    &&& !keeps_tail(chunk, src, next_lt, markdown, at)
    &&& inline_start(ahead(src, next_lt)) || ahead(src, next_lt) is InlineComment
    &&& joinable(chunk, src, at)
}

/// What becomes of a chunk that holds more than whitespace. A held start
/// and a kept end are written as they are with all their whitespace, any
/// other start or end with its spaces and tabs; what lies between is
/// reflowed. Where the line feed that ends the chunk is joined away, the
/// reflowed text loses it, with the spaces and tabs around it, and one space
/// takes the place of all of it.
pub open spec fn edge_reflow(
    chunk: Seq<u8>,
    src: Seq<u8>,
    next_lt: int,
    markdown: bool,
    keep_head: bool,
    at: int,
) -> Seq<u8> {
    let n = chunk.len() as int;
    let head = head_end(chunk, keep_head);
    let tail = tail_start(chunk, keeps_tail(chunk, src, next_lt, markdown, at));
    let body = chunk.subrange(head, tail);
    let core = core_reflow(body, src, at, markdown, keep_head);
    if joins(chunk, src, next_lt, markdown, at) && !(markdown && def_indent_end(body) is Some) {
        chunk.subrange(0, head) + without_tail(core) + seq![SPACE]
    } else {
        chunk.subrange(0, head) + core + chunk.subrange(tail, n)
    }
}

/// What becomes of the run of text `chunk`, which starts at `at` in `src`
/// and is followed by the token at `next_lt`.
#[verifier::opaque]
pub open spec fn chunk_reflow(
    chunk: Seq<u8>,
    src: Seq<u8>,
    next_lt: int,
    markdown: bool,
    after_boundary: bool,
    after_br: bool,
    at: int,
) -> Seq<u8> {
    if ws_only(chunk) {
        gap_reflow(chunk, src, next_lt)
    } else {
        edge_reflow(chunk, src, next_lt, markdown, after_boundary || after_br, at)
    }
}

/// In a chunk that holds more than whitespace, the whitespace at the start
/// ends before the whitespace at the end starts.
pub proof fn lemma_edges(chunk: Seq<u8>)
    requires
        !ws_only(chunk),
    ensures
        0 <= run_end(chunk, 0, Class::SpaceTab) <= run_end(chunk, 0, Class::Ws) < run_start(
            chunk,
            chunk.len() as int,
            Class::Ws,
        ) <= run_start(chunk, chunk.len() as int, Class::SpaceTab) <= chunk.len(),
{
    let n = chunk.len() as int;
    lemma_run_end(chunk, 0, Class::Ws);
    lemma_run_end(chunk, 0, Class::SpaceTab);
    lemma_run_start(chunk, n, Class::Ws);
    lemma_run_start(chunk, n, Class::SpaceTab);
    let p = run_end(chunk, 0, Class::Ws);
    assert(!Class::Ws.has(chunk[p]));
    let a = run_end(chunk, 0, Class::SpaceTab);
    if a > p {
        assert(Class::SpaceTab.has(chunk[p]));
    }
    let b = run_start(chunk, n, Class::Ws);
    if b <= p {
        assert(Class::Ws.has(chunk[p]));
    }
    let c = run_start(chunk, n, Class::SpaceTab);
    if c < b {
        assert(Class::SpaceTab.has(chunk[b - 1]));
        assert(Class::Ws.has(chunk[b - 1]));
    }
}

/// Whether the tag is the start tag of an inline element.
fn is_inline_start(t: &Option<TagInfo<'_>>) -> (r: bool)
    ensures
        r == match *t {
            Some(ti) => !ti.is_end && inline_name(ti.name@),
            None => false,
        },
{
    match t {
        Some(ti) => !ti.is_end && is_inline(ti.name),
        None => false,
    }
}

/// Whether the tag is a tag of a block-level element.
fn is_block_tag(t: &Option<TagInfo<'_>>) -> (r: bool)
    ensures
        r == match *t {
            Some(ti) => structural_name(ti.name@),
            None => false,
        },
{
    match t {
        Some(ti) => is_structural(ti.name),
        None => false,
    }
}

/// The reflow of the body of a chunk.
fn core_text(body: &[u8], src: &[u8], at: usize, markdown: bool, held: bool) -> (r: Vec<u8>)
    ensures
        r@ == core_reflow(body@, src@, at as int, markdown, held),
{
    reveal(core_reflow);
    let n = body.len();
    if markdown {
        if let Some(indent_end) = leading_lf_indent_end_before_dt_or_dd(body) {
            let mut out: Vec<u8> = Vec::new();
            out.push(LF);
            append_range(&mut out, body, 1, indent_end);
            markdown_into(&body[indent_end..n], &mut out);
            assert(out@ =~= core_reflow(body@, src@, at as int, markdown, held));
            return out;
        }
    }
    if n > 0 && body[0] == LF && (n == 1 || body[1] != LF) && !held
        && !prev_line_ends_with_structural_start(src, at) && !(markdown
        && body_begins_with_dt_or_dd_after_single_lf(body)) {
        let j = skip_run(body, 1, Class::SpaceTab);
        let mut text: Vec<u8> = Vec::with_capacity(n);
        text.push(SPACE);
        append_range(&mut text, body, j, n);
        assert(text@ =~= soft_wrapped(body@, src@, at as int, markdown, held));
        reflow_text(text.as_slice(), markdown)
    } else {
        reflow_text(body, markdown)
    }
}

/// Cuts the tail off reflowed text.
fn strip_tail(r: &mut Vec<u8>)
    ensures
        final(r)@ == without_tail(old(r)@),
{
    let a = skip_run_back(r.as_slice(), r.len(), Class::SpaceTab);
    if a > 0 && r[a - 1] == LF {
        let b = skip_run_back(r.as_slice(), a - 1, Class::SpaceTab);
        r.truncate(b);
    } else {
        r.truncate(a);
    }
}

/// Where the chunk ends in `src`, if that is a position in it.
fn end_in(src: &[u8], at: usize, len: usize) -> (r: Option<usize>)
    ensures
        match r {
            Some(e) => e == at + len && e <= src.len(),
            None => at + len > src.len(),
        },
{
    let n = src.len();
    if at <= n && len <= n - at {
        Some(at + len)
    } else {
        None
    }
}

/// Appends what becomes of a chunk of whitespace alone.
fn reflow_gap(
    chunk: &[u8],
    src: &[u8],
    next_lt: usize,
    out: &mut Vec<u8>,
    a: (bool, bool, Option<TagInfo<'_>>),
)
    requires
        ahead_of(a) == ahead(src@, next_lt as int),
    ensures
        final(out)@ == old(out)@ + gap_reflow(chunk@, src@, next_lt as int),
{
    if !a.0 && !a.1 && !is_block_tag(&a.2) && is_inline_start(&a.2) && has_single_lf(chunk)
        && !prev_line_ends_with_structural_start(src, next_lt) {
        out.push(SPACE);
        assert(out@ =~= old(out)@ + seq![SPACE]);
    } else {
        append(out, chunk);
    }
}

/// Where the head of a chunk ends and its tail starts, and whether the line
/// feed that ends it is joined away.
fn plan_edges(
    chunk: &[u8],
    src: &[u8],
    next_lt: usize,
    markdown: bool,
    keep_head: bool,
    at: usize,
    a: (bool, bool, Option<TagInfo<'_>>),
) -> (r: (usize, usize, bool))
    requires
        ahead_of(a) == ahead(src@, next_lt as int),
        a.0 || a.1 ==> a.2 is None,
        !ws_only(chunk@),
    ensures
        r.0 == head_end(chunk@, keep_head),
        r.1 == tail_start(chunk@, keeps_tail(chunk@, src@, next_lt as int, markdown, at as int)),
        r.2 == joins(chunk@, src@, next_lt as int, markdown, at as int),
        r.0 < r.1 <= chunk.len(),
{
    let n = chunk.len();
    proof {
        lemma_edges(chunk@);
    }
    let end = end_in(src, at, n);
    let keep_tail = a.0 || is_block_tag(&a.2) || (markdown && match end {
        Some(e) => line_at_pos_starts_with_dt_or_dd(src, e),
        None => false,
    });
    let head = skip_run(
        chunk,
        0,
        if keep_head {
            Class::Ws
        } else {
            Class::SpaceTab
        },
    );
    let tail = skip_run_back(
        chunk,
        n,
        if keep_tail {
            Class::Ws
        } else {
            Class::SpaceTab
        },
    );
    let joined = !keep_tail && !a.0 && (a.1 || is_inline_start(&a.2))
        && trailing_lf_count_ignoring_spaces(chunk) == 1 && match end {
        Some(e) => !prev_line_ends_with_structural_start(src, e),
        None => true,
    };
    (head, tail, joined)
}

/// Appends what becomes of a chunk that holds more than whitespace.
fn reflow_edges(
    chunk: &[u8],
    src: &[u8],
    next_lt: usize,
    out: &mut Vec<u8>,
    markdown: bool,
    keep_head: bool,
    at: usize,
    a: (bool, bool, Option<TagInfo<'_>>),
)
    requires
        ahead_of(a) == ahead(src@, next_lt as int),
        a.0 || a.1 ==> a.2 is None,
        !ws_only(chunk@),
    ensures
        final(out)@ == old(out)@ + edge_reflow(
            chunk@,
            src@,
            next_lt as int,
            markdown,
            keep_head,
            at as int,
        ),
{
    let n = chunk.len();
    let (head, tail, joined) = plan_edges(chunk, src, next_lt, markdown, keep_head, at, a);
    let body = &chunk[head..tail];
    let mut core = core_text(body, src, at, markdown, keep_head);
    let is_def = markdown && leading_lf_indent_end_before_dt_or_dd(body).is_some();
    let ghost front = chunk@.subrange(0, head as int);
    let ghost mid = if joined && !is_def {
        without_tail(core@) + seq![SPACE]
    } else {
        core@ + chunk@.subrange(tail as int, n as int)
    };
    assert(edge_reflow(chunk@, src@, next_lt as int, markdown, keep_head, at as int) =~= front
        + mid);
    append_range(out, chunk, 0, head);
    if joined && !is_def {
        strip_tail(&mut core);
        append(out, core.as_slice());
        out.push(SPACE);
    } else {
        append(out, core.as_slice());
        append_range(out, chunk, tail, n);
    }
    assert(out@ =~= old(out)@ + (front + mid));
}

/// Appends to `out` what becomes of the run of text `chunk`, which starts
/// at `at_index_i` in `src` and is followed by the token at `next_lt`.
/// `after_boundary` says that the start tag of a block-level element or a
/// comment that stands alone came before, `after_br` that a `<br>` did.
pub fn reflow_text_chunk(
    chunk: &[u8],
    src: &[u8],
    next_lt: usize,
    out: &mut Vec<u8>,
    use_markdown: bool,
    after_boundary: bool,
    after_br: bool,
    at_index_i: usize,
)
    ensures
        final(out)@ == old(out)@ + chunk_reflow(
            chunk@,
            src@,
            next_lt as int,
            use_markdown,
            after_boundary,
            after_br,
            at_index_i as int,
        ),
{
    reveal(chunk_reflow);
    let a = classify_ahead(src, next_lt);
    if skip_run(chunk, 0, Class::Ws) == chunk.len() {
        reflow_gap(chunk, src, next_lt, out, a);
    } else {
        reflow_edges(
            chunk,
            src,
            next_lt,
            out,
            use_markdown,
            after_boundary || after_br,
            at_index_i,
            a,
        );
    }
}

} // verus!
