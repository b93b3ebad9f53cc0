//! Laws of plain mode on text without markup: a second pass changes
//! nothing.

use crate::boundary::{ahead, Ahead};
use crate::bytes::{
    lemma_run_end, lemma_run_end_is, lemma_run_start, run_end, run_start, Class, LF, LT, SPACE,
};
use crate::chunk::{
    chunk_reflow, core_reflow, joins, lemma_edges, soft_wrap, soft_wrapped, ws_only,
};
use crate::comment::{comment_at, comment_open};
use crate::driver::{start, step, text_step, transformed, transformed_from};
use crate::plain::{
    folded_from, lemma_folded_no_lf, lemma_folded_without_lf, no_lf, plain_reflow,
};
use vstd::prelude::*;

verus! {

/// No byte of `s` is `c`.
pub open spec fn without(s: Seq<u8>, c: u8) -> bool {
    forall|k: int| 0 <= k < s.len() ==> s[k] != c
}

/// Plain reflow brings in no byte but the space.
pub proof fn lemma_folded_without(text: Seq<u8>, i: int, c: u8)
    requires
        0 <= i,
        c != SPACE,
        without(text, c),
    ensures
        without(folded_from(text, i), c),
    decreases text.len() - i,
{
    if i < text.len() {
        if Class::Fold.has(text[i]) {
            let j = run_end(text, i, Class::Fold);
            lemma_run_end(text, i, Class::Fold);
            lemma_folded_without(text, j, c);
        } else {
            lemma_folded_without(text, i + 1, c);
        }
    }
}

/// On text without markup the pass is one run of text, with nothing before
/// it and nothing behind.
pub proof fn lemma_transformed_text(x: Seq<u8>, markdown: bool)
    requires
        without(x, LT),
        x.len() > 0,
    ensures
        transformed(x, markdown) == chunk_reflow(
            x,
            x,
            x.len() as int,
            markdown,
            false,
            false,
            0,
        ),
        ahead(x, x.len() as int) is Nothing,
{
    reveal(step);
    reveal(text_step);
    reveal(ahead);
    let st = start();
    assert(!comment_at(x, 0)) by {
        if comment_at(x, 0) {
            assert(x.subrange(0, 4)[0] == x[0]);
            assert(comment_open()[0] == LT);
        }
    }
    assert forall|k: int| 0 <= k < x.len() implies Class::Except(LT).has(#[trigger] x[k]) by {}
    lemma_run_end_is(x, 0, x.len() as int, Class::Except(LT));
    assert(x.subrange(0, x.len() as int) =~= x);
    let s = step(x, st, markdown);
    assert(s.next.pos == x.len());
    assert(transformed_from(x, s.next, markdown) =~= Seq::<u8>::empty());
    assert(s.emit + Seq::<u8>::empty() =~= s.emit);
}

/// Text without markup and without a line feed is its own transform in
/// plain mode.
pub proof fn lemma_settled_text_fixed(o: Seq<u8>)
    requires
        without(o, LT),
        without(o, LF),
    ensures
        transformed(o, false) == o,
{
    if o.len() == 0 {
        assert(transformed(o, false) =~= o);
    } else {
        lemma_transformed_text(o, false);
        reveal(chunk_reflow);
        reveal(core_reflow);
        if !ws_only(o) {
            lemma_edges(o);
            let n = o.len() as int;
            let lead = run_end(o, 0, Class::SpaceTab);
            let trail = run_start(o, n, Class::SpaceTab);
            let body = o.subrange(lead, trail);
            assert(body[0] == o[lead]);
            assert(soft_wrapped(body, o, 0, false, false) == body);
            assert(no_lf(body)) by {
                assert forall|k: int| 0 <= k < body.len() implies body[k] != LF by {
                    assert(body[k] == o[lead + k]);
                }
            }
            lemma_folded_without_lf(body, 0);
            assert(body.subrange(0, body.len() as int) =~= body);
            assert(core_reflow(body, o, 0, false, false) == body);
            assert(!joins(o, o, n, false, 0));
            assert(o.subrange(0, lead) + body + o.subrange(trail, n) =~= o);
        }
    }
}

/// In plain mode the transform of text without markup is idempotent.
pub proof fn lemma_plain_transform_idempotent_on_text(x: Seq<u8>)
    requires
        without(x, LT),
    ensures
        transformed(transformed(x, false), false) == transformed(x, false),
{
    if x.len() == 0 {
        assert(transformed(x, false) =~= x);
    } else {
        lemma_transformed_text(x, false);
        reveal(chunk_reflow);
        reveal(core_reflow);
        let o = transformed(x, false);
        if ws_only(x) {
            assert(o == x);
        } else {
            lemma_edges(x);
            let n = x.len() as int;
            let lead = run_end(x, 0, Class::SpaceTab);
            let trail = run_start(x, n, Class::SpaceTab);
            lemma_run_end(x, 0, Class::SpaceTab);
            lemma_run_start(x, n, Class::SpaceTab);
            let body = x.subrange(lead, trail);
            let sw = soft_wrapped(body, x, 0, false, false);
            let core = plain_reflow(sw);
            assert(core_reflow(body, x, 0, false, false) == core);
            assert(!joins(x, x, n, false, 0));
            assert(o == x.subrange(0, lead) + core + x.subrange(trail, n));
            assert(without(sw, LT)) by {
                assert forall|k: int| 0 <= k < sw.len() implies sw[k] != LT by {
                    if !soft_wrap(body, x, 0, false, false) {
                        assert(body[k] == x[lead + k]);
                    } else {
                        let j = run_end(body, 1, Class::SpaceTab);
                        lemma_run_end(body, 1, Class::SpaceTab);
                        if k > 0 {
                            assert(sw[k] == body.subrange(j, body.len() as int)[k - 1]);
                            assert(sw[k] == x[lead + j + k - 1]);
                        }
                    }
                }
            }
            lemma_folded_without(sw, 0, LT);
            lemma_folded_no_lf(sw, 0);
            assert(without(o, LT) && without(o, LF)) by {
                assert forall|k: int| 0 <= k < o.len() implies o[k] != LT && o[k] != LF by {
                    if k < lead {
                        assert(o[k] == x[k]);
                        assert(Class::SpaceTab.has(x[k]));
                    } else if k < lead + core.len() {
                        assert(o[k] == core[k - lead]);
                    } else {
                        let m = k - lead - core.len() + trail;
                        assert(o[k] == x[m]);
                        assert(Class::SpaceTab.has(x[m]));
                    }
                }
            }
            lemma_settled_text_fixed(o);
        }
    }
}

} // verus!
