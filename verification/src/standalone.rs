//! Laws of comments that stand alone on their line: they are written as
//! they are, and so is the whitespace that touches them.

use crate::boundary::{after_block_start, ahead, single_lf, Ahead};
use crate::bytes::{lemma_run_end, lemma_run_start, run_end, run_start, Class};
use crate::chunk::{block_tag, chunk_reflow, inline_start, lemma_edges, ws_only};
use crate::comment::{comment_at, comment_close, comment_standalone};
use crate::driver::{comment_step, step, State};
use vstd::prelude::*;

verus! {

/// A comment that stands alone on its line is written as it is, and what
/// follows it follows a boundary.
pub proof fn lemma_standalone_comment_kept(src: Seq<u8>, st: State, markdown: bool, j: int)
    requires
        0 <= st.pos < src.len(),
        st.raw.len() == 0,
        comment_at(src, st.pos),
        comment_close(src, st.pos) == Some(j),
        comment_standalone(src, st.pos, j),
    ensures
        step(src, st, markdown).emit == src.subrange(st.pos, j + 3),
        step(src, st, markdown).next.pos == j + 3,
        step(src, st, markdown).next.after_boundary,
        step(src, st, markdown).next.open == st.open,
{
    reveal(step);
    reveal(comment_step);
}

/// The whitespace that ends a run of text before a comment that stands
/// alone is written as it is; a run of whitespace alone is, as a whole.
pub proof fn lemma_space_before_standalone_kept(
    chunk: Seq<u8>,
    src: Seq<u8>,
    next_lt: int,
    markdown: bool,
    after_boundary: bool,
    after_br: bool,
    at: int,
)
    requires
        ahead(src, next_lt) is StandaloneComment,
    ensures
        ({
            let r = chunk_reflow(chunk, src, next_lt, markdown, after_boundary, after_br, at);
            let kept = chunk.len() - run_start(chunk, chunk.len() as int, Class::Ws);
            &&& 0 <= kept <= r.len()
            &&& r.subrange(r.len() - kept, r.len() as int) == chunk.subrange(
                chunk.len() - kept,
                chunk.len() as int,
            )
            &&& ws_only(chunk) ==> r == chunk
        }),
{
    reveal(chunk_reflow);
    let r = chunk_reflow(chunk, src, next_lt, markdown, after_boundary, after_br, at);
    let n = chunk.len() as int;
    lemma_run_start(chunk, n, Class::Ws);
    let kept = n - run_start(chunk, n, Class::Ws);
    if ws_only(chunk) {
        assert(r == chunk);
        assert(r.subrange(r.len() - kept, r.len() as int) =~= chunk.subrange(n - kept, n));
    } else {
        lemma_edges(chunk);
        assert(r.subrange(r.len() - kept, r.len() as int) =~= chunk.subrange(n - kept, n));
    }
}

/// A run of whitespace alone becomes one space.
pub open spec fn gap_collapses(chunk: Seq<u8>, src: Seq<u8>, next_lt: int) -> bool {
    &&& ws_only(chunk)
    &&& !block_tag(ahead(src, next_lt))
    &&& inline_start(ahead(src, next_lt))
    &&& single_lf(chunk)
    &&& !after_block_start(src, next_lt)
}

/// The whitespace that starts a run of text behind a boundary, such as a
/// comment that stands alone, is written as it is, unless the run is
/// whitespace alone and becomes one space.
pub proof fn lemma_space_after_boundary_kept(
    chunk: Seq<u8>,
    src: Seq<u8>,
    next_lt: int,
    markdown: bool,
    after_br: bool,
    at: int,
)
    requires
        !gap_collapses(chunk, src, next_lt),
    ensures
        ({
            let r = chunk_reflow(chunk, src, next_lt, markdown, true, after_br, at);
            let kept = run_end(chunk, 0, Class::Ws);
            &&& 0 <= kept <= r.len()
            &&& r.subrange(0, kept) == chunk.subrange(0, kept)
            &&& ws_only(chunk) ==> r == chunk
        }),
{
    reveal(chunk_reflow);
    let r = chunk_reflow(chunk, src, next_lt, markdown, true, after_br, at);
    lemma_run_end(chunk, 0, Class::Ws);
    let kept = run_end(chunk, 0, Class::Ws);
    if ws_only(chunk) {
        assert(r == chunk);
    } else {
        lemma_edges(chunk);
        assert(r.subrange(0, kept) =~= chunk.subrange(0, kept));
    }
}

} // verus!
