//! Laws of the regions that the pass leaves untouched: elements that carry
//! the marker attribute, and the content of raw-text elements; and of the
//! two stacks that tell the pass where it is.

use crate::bytes::{lemma_run_end, lowered, Class, LT};
use crate::comment::{comment_at, lemma_shut_from};
use crate::driver::{
    comment_step, implied_closed, lemma_raw_close_from, lemma_step_advances, match_depth,
    opens_raw, popped, popped_to, raw_close_from, raw_step, stack_after, start, step, tag_out,
    tag_step, text_step, transformed_from, verbatim, Frame, State,
};
use crate::names::{lemma_raw_text_not_void, void_name};
use crate::tag::{has_marker, lemma_tag_end_from, tag_end, tag_is_end, tag_name, tag_shape};
use vstd::prelude::*;

verus! {

/// The state after `k` steps of the pass from `st`. At the end of the input
/// the pass stands still.
pub open spec fn state_after(src: Seq<u8>, st: State, markdown: bool, k: nat) -> State
    decreases k,
{
    if k == 0 {
        st
    } else {
        let p = state_after(src, st, markdown, (k - 1) as nat);
        if 0 <= p.pos < src.len() {
            step(src, p, markdown).next
        } else {
            p
        }
    }
}

/// What `k` steps of the pass from `st` write.
pub open spec fn emitted(src: Seq<u8>, st: State, markdown: bool, k: nat) -> Seq<u8>
    decreases k,
{
    if k == 0 {
        Seq::empty()
    } else {
        let p = state_after(src, st, markdown, (k - 1) as nat);
        emitted(src, st, markdown, (k - 1) as nat) + if 0 <= p.pos < src.len() {
            step(src, p, markdown).emit
        } else {
            Seq::empty()
        }
    }
}

/// The positions of a pass never go back and never leave the input.
pub proof fn lemma_state_after_pos(src: Seq<u8>, st: State, markdown: bool, k: nat)
    requires
        0 <= st.pos <= src.len(),
    ensures
        st.pos <= state_after(src, st, markdown, k).pos <= src.len(),
        k > 0 ==> state_after(src, st, markdown, (k - 1) as nat).pos <= state_after(
            src,
            st,
            markdown,
            k,
        ).pos,
    decreases k,
{
    if k > 0 {
        lemma_state_after_pos(src, st, markdown, (k - 1) as nat);
        let p = state_after(src, st, markdown, (k - 1) as nat);
        if p.pos < src.len() {
            lemma_step_advances(src, p, markdown);
        }
    }
}

/// What the pass writes from `st` on starts with what its first `k` steps
/// write, and goes on with what it writes from the state behind them.
pub proof fn lemma_emitted_is_prefix(src: Seq<u8>, st: State, markdown: bool, k: nat)
    requires
        0 <= st.pos <= src.len(),
    ensures
        transformed_from(src, st, markdown) == emitted(src, st, markdown, k) + transformed_from(
            src,
            state_after(src, st, markdown, k),
            markdown,
        ),
    decreases k,
{
    if k == 0 {
        assert(Seq::<u8>::empty() + transformed_from(src, st, markdown) =~= transformed_from(
            src,
            st,
            markdown,
        ));
    } else {
        lemma_emitted_is_prefix(src, st, markdown, (k - 1) as nat);
        lemma_state_after_pos(src, st, markdown, (k - 1) as nat);
        let p = state_after(src, st, markdown, (k - 1) as nat);
        let e = emitted(src, st, markdown, (k - 1) as nat);
        if p.pos < src.len() {
            let s = step(src, p, markdown);
            assert(e + (s.emit + transformed_from(src, s.next, markdown)) =~= (e + s.emit)
                + transformed_from(src, s.next, markdown));
        } else {
            assert(e + Seq::<u8>::empty() =~= e);
        }
    }
}

/// Inside an element that is not to be reflowed, every step writes the
/// bytes it passes over, as they are.
pub proof fn lemma_verbatim_step(src: Seq<u8>, st: State, markdown: bool)
    requires
        0 <= st.pos < src.len(),
        verbatim(st.open),
    ensures
        step(src, st, markdown).emit == src.subrange(st.pos, step(src, st, markdown).next.pos),
{
    reveal(step);
    reveal(raw_step);
    reveal(comment_step);
    reveal(tag_step);
    reveal(text_step);
    let s = step(src, st, markdown);
    if st.raw.len() > 0 {
        lemma_raw_close_from(src, st.pos, st.raw.last());
        match raw_close_from(src, st.pos, st.raw.last()) {
            Some((p, e)) => {
                assert(s.emit =~= src.subrange(st.pos, e + 1));
            },
            None => {},
        }
    } else if comment_at(src, st.pos) {
        lemma_shut_from(src, st.pos + 4);
    } else if src[st.pos] == LT {
        lemma_tag_end_from(src, st.pos + 1, 0);
        match tag_end(src, st.pos) {
            Some(j) => {
                assert(s.emit =~= src.subrange(st.pos, s.next.pos));
            },
            None => {},
        }
    } else {
        lemma_run_end(src, st.pos, Class::Except(LT));
    }
}

/// As long as the pass is inside an element that is not to be reflowed, it
/// writes the input as it is.
pub proof fn lemma_verbatim_span(src: Seq<u8>, st: State, markdown: bool, k: nat)
    requires
        0 <= st.pos <= src.len(),
        forall|j: nat|
            j < k && state_after(src, st, markdown, j).pos < src.len() ==> verbatim(
                #[trigger] state_after(src, st, markdown, j).open,
            ),
    ensures
        emitted(src, st, markdown, k) == src.subrange(
            st.pos,
            state_after(src, st, markdown, k).pos,
        ),
    decreases k,
{
    if k == 0 {
        assert(src.subrange(st.pos, st.pos) =~= Seq::<u8>::empty());
    } else {
        let k1 = (k - 1) as nat;
        assert forall|j: nat|
            j < k1 && state_after(src, st, markdown, j).pos < src.len() implies verbatim(
            #[trigger] state_after(src, st, markdown, j).open,
        ) by {
            assert(j < k);
        }
        lemma_verbatim_span(src, st, markdown, k1);
        lemma_state_after_pos(src, st, markdown, k1);
        lemma_state_after_pos(src, st, markdown, k);
        let p = state_after(src, st, markdown, k1);
        if p.pos < src.len() {
            assert(verbatim(state_after(src, st, markdown, k1).open));
            lemma_verbatim_step(src, p, markdown);
            let q = step(src, p, markdown).next;
            assert(src.subrange(st.pos, p.pos) + src.subrange(p.pos, q.pos) =~= src.subrange(
                st.pos,
                q.pos,
            ));
        } else {
            assert(src.subrange(st.pos, p.pos) + Seq::<u8>::empty() =~= src.subrange(
                st.pos,
                p.pos,
            ));
        }
    }
}

/// The marker is handed down the stack: a frame is not to be reflowed
/// exactly if its element carries the marker attribute or the frame below
/// it is not to be reflowed.
pub open spec fn inherits(open: Seq<Frame>) -> bool {
    forall|i: int|
        0 <= i < open.len() ==> (#[trigger] open[i]).verbatim == (open[i].marked || (i > 0
            && open[i - 1].verbatim))
}

/// Every frame above a frame that is not to be reflowed is not to be
/// reflowed either.
pub proof fn lemma_inherits_up(open: Seq<Frame>, i: int, j: int)
    requires
        inherits(open),
        0 <= i <= j < open.len(),
        open[i].verbatim,
    ensures
        open[j].verbatim,
    decreases j - i,
{
    if i < j {
        lemma_inherits_up(open, i, j - 1);
        assert(open[j].verbatim == (open[j].marked || (j > 0 && open[j - 1].verbatim)));
    }
}

/// The pass is inside an element that is not to be reflowed exactly if an
/// open element carries the marker attribute.
pub proof fn lemma_verbatim_iff_marked(open: Seq<Frame>)
    requires
        inherits(open),
    ensures
        verbatim(open) <==> exists|j: int| 0 <= j < open.len() && (#[trigger] open[j]).marked,
    decreases open.len(),
{
    if open.len() > 0 {
        let below = open.drop_last();
        let n = open.len() as int;
        assert forall|i: int| 0 <= i < below.len() implies (#[trigger] below[i]).verbatim == (
        below[i].marked || (i > 0 && below[i - 1].verbatim)) by {
            assert(below[i] == open[i]);
            if i > 0 {
                assert(below[i - 1] == open[i - 1]);
            }
        }
        lemma_verbatim_iff_marked(below);
        assert(open[n - 1].verbatim == (open[n - 1].marked || (n - 1 > 0 && open[n
            - 2].verbatim)));
        if verbatim(open) {
            if open[n - 1].marked {
            } else {
                assert(below[n - 2] == open[n - 2]);
                assert(verbatim(below));
                let j = choose|j: int| 0 <= j < below.len() && (#[trigger] below[j]).marked;
                assert(open[j].marked);
            }
        }
        if exists|j: int| 0 <= j < open.len() && (#[trigger] open[j]).marked {
            let j = choose|j: int| 0 <= j < open.len() && (#[trigger] open[j]).marked;
            if j < n - 1 {
                assert(below[j].marked);
                assert(verbatim(below));
                assert(below[n - 2] == open[n - 2]);
            }
        }
    }
}

/// The topmost frame of a name lies inside the stack.
proof fn lemma_match_depth(open: Seq<Frame>, name: Seq<u8>)
    ensures
        -1 <= match_depth(open, name) < open.len(),
    decreases open.len(),
{
    if open.len() > 0 && open.last().name != name {
        lemma_match_depth(open.drop_last(), name);
    }
}

/// A tag keeps the marker handed down the stack.
proof fn lemma_stack_after_inherits(open: Seq<Frame>, tag: Seq<u8>)
    requires
        inherits(open),
    ensures
        inherits(stack_after(open, tag)),
{
    reveal(stack_after);
    let t = tag_shape(tag);
    let name = lowered(t.name);
    lemma_match_depth(open, name);
    if t.is_end {
        let after = popped_to(open, name);
        assert forall|i: int| 0 <= i < after.len() implies (#[trigger] after[i]).verbatim == (
        after[i].marked || (i > 0 && after[i - 1].verbatim)) by {
            assert(after[i] == open[i]);
            if i > 0 {
                assert(after[i - 1] == open[i - 1]);
            }
        }
    } else if !t.self_closing && !void_name(t.name) {
        let base = implied_closed(open, name);
        assert(inherits(base)) by {
            assert forall|i: int| 0 <= i < base.len() implies (#[trigger] base[i]).verbatim == (
            base[i].marked || (i > 0 && base[i - 1].verbatim)) by {
                assert(base[i] == open[i]);
                if i > 0 {
                    assert(base[i - 1] == open[i - 1]);
                }
            }
        }
        let f = Frame {
            name,
            marked: has_marker(tag),
            verbatim: has_marker(tag) || verbatim(base),
        };
        let after = base.push(f);
        assert forall|i: int| 0 <= i < after.len() implies (#[trigger] after[i]).verbatim == (
        after[i].marked || (i > 0 && after[i - 1].verbatim)) by {
            if i < base.len() {
                assert(after[i] == base[i]);
                if i > 0 {
                    assert(after[i - 1] == base[i - 1]);
                }
            } else if i > 0 {
                assert(after[i - 1] == base[i - 1]);
            }
        }
    }
}

/// A step keeps the marker handed down the stack.
pub proof fn lemma_step_inherits(src: Seq<u8>, st: State, markdown: bool)
    requires
        0 <= st.pos < src.len(),
        inherits(st.open),
    ensures
        inherits(step(src, st, markdown).next.open),
{
    reveal(step);
    reveal(raw_step);
    reveal(comment_step);
    reveal(tag_step);
    reveal(text_step);
    if st.raw.len() > 0 {
        let after = popped(st.open);
        assert forall|i: int| 0 <= i < after.len() implies (#[trigger] after[i]).verbatim == (
        after[i].marked || (i > 0 && after[i - 1].verbatim)) by {
            assert(after[i] == st.open[i]);
            if i > 0 {
                assert(after[i - 1] == st.open[i - 1]);
            }
        }
    } else if comment_at(src, st.pos) {
    } else if src[st.pos] == LT {
        match tag_end(src, st.pos) {
            Some(j) => {
                lemma_stack_after_inherits(st.open, src.subrange(st.pos, j + 1));
            },
            None => {},
        }
    } else {
    }
}

/// Steps keep the marker handed down the stack.
pub proof fn lemma_state_after_inherits(src: Seq<u8>, st: State, markdown: bool, k: nat)
    requires
        0 <= st.pos <= src.len(),
        inherits(st.open),
    ensures
        inherits(state_after(src, st, markdown, k).open),
    decreases k,
{
    if k > 0 {
        lemma_state_after_inherits(src, st, markdown, (k - 1) as nat);
        lemma_state_after_pos(src, st, markdown, (k - 1) as nat);
        let p = state_after(src, st, markdown, (k - 1) as nat);
        if p.pos < src.len() {
            lemma_step_inherits(src, p, markdown);
        }
    }
}

/// In every state that a pass reaches, the marker is handed down the stack.
pub proof fn lemma_reached_inherits(src: Seq<u8>, markdown: bool, k: nat)
    ensures
        inherits(state_after(src, start(), markdown, k).open),
{
    lemma_state_after_inherits(src, start(), markdown, k);
}

/// The pass stands at the start tag of an element that carries the marker
/// attribute; the tag ends at `j`.
pub open spec fn at_marked_start(src: Seq<u8>, st: State, j: int) -> bool {
    &&& 0 <= st.pos < src.len()
    &&& st.raw.len() == 0
    &&& !comment_at(src, st.pos)
    &&& src[st.pos] == LT
    &&& tag_end(src, st.pos) == Some(j)
    &&& has_marker(src.subrange(st.pos, j + 1))
    &&& !tag_is_end(src.subrange(st.pos, j + 1))
}

/// The frames of `base` are still the bottom of the stack `open`.
pub open spec fn still_open(base: Seq<Frame>, open: Seq<Frame>) -> bool {
    base.len() <= open.len() && open.subrange(0, base.len() as int) == base
}

/// The start tag of an element that carries the marker attribute is written
/// as it is, and the stack behind it is the one that the tag leaves.
pub proof fn lemma_marked_start_step(src: Seq<u8>, st: State, markdown: bool, j: int)
    requires
        at_marked_start(src, st, j),
    ensures
        step(src, st, markdown).emit == src.subrange(st.pos, step(src, st, markdown).next.pos),
        step(src, st, markdown).next.open == stack_after(st.open, src.subrange(st.pos, j + 1)),
        ({
            let t = tag_shape(src.subrange(st.pos, j + 1));
            !t.self_closing && !void_name(t.name) ==> verbatim(
                stack_after(st.open, src.subrange(st.pos, j + 1)),
            )
        }),
{
    reveal(step);
    reveal(tag_step);
    reveal(stack_after);
    lemma_tag_end_from(src, st.pos + 1, 0);
    let s = step(src, st, markdown);
    assert(s.emit =~= src.subrange(st.pos, s.next.pos));
}

/// A stack whose bottom is a stack with a top that is not to be reflowed
/// has such a top too.
proof fn lemma_still_open_verbatim(base: Seq<Frame>, open: Seq<Frame>)
    requires
        verbatim(base),
        still_open(base, open),
        inherits(open),
    ensures
        verbatim(open),
{
    assert(open[base.len() - 1] == open.subrange(0, base.len() as int)[base.len() - 1]);
    lemma_inherits_up(open, base.len() - 1, open.len() - 1);
}

/// An element that carries the marker attribute is written as it is, from
/// its start tag on, for as long as it stays open: if the element's frame is
/// on the stack after each of the first `k` steps behind its start tag, then
/// these steps, the start tag's step and the next step write the input
/// unchanged. (The next step is the one that takes the frame off the stack,
/// unless the input ends first.) With `k` zero this speaks of the start tag
/// alone, whether or not it opens an element.
pub proof fn lemma_marked_subtree_copied(
    src: Seq<u8>,
    st: State,
    markdown: bool,
    j: int,
    k: nat,
)
    requires
        at_marked_start(src, st, j),
        inherits(st.open),
        forall|m: nat|
            1 <= m <= k ==> still_open(
                stack_after(st.open, src.subrange(st.pos, j + 1)),
                #[trigger] state_after(src, st, markdown, m).open,
            ),
        k > 0 ==> {
            let t = tag_shape(src.subrange(st.pos, j + 1));
            !t.self_closing && !void_name(t.name)
        },
    ensures
        emitted(src, st, markdown, k + 1) == src.subrange(
            st.pos,
            state_after(src, st, markdown, k + 1).pos,
        ),
{
    let base = stack_after(st.open, src.subrange(st.pos, j + 1));
    lemma_marked_start_step(src, st, markdown, j);
    let s = step(src, st, markdown);
    lemma_step_advances(src, st, markdown);
    lemma_step_inherits(src, st, markdown);
    assert forall|m: nat|
        m < k && state_after(src, s.next, markdown, m).pos < src.len() implies verbatim(
        #[trigger] state_after(src, s.next, markdown, m).open,
    ) by {
        lemma_state_after_shift(src, st, markdown, m);
        lemma_state_after_inherits(src, s.next, markdown, m);
        if m > 0 {
            assert(still_open(base, state_after(src, st, markdown, m + 1).open));
        } else {
            assert(state_after(src, s.next, markdown, 0) == s.next);
            assert(base.subrange(0, base.len() as int) =~= base);
        }
        lemma_still_open_verbatim(base, state_after(src, s.next, markdown, m).open);
    }
    lemma_verbatim_span(src, s.next, markdown, k);
    lemma_state_after_shift(src, st, markdown, k);
    lemma_emitted_shift(src, st, markdown, k);
    lemma_state_after_pos(src, s.next, markdown, k);
    let q = state_after(src, s.next, markdown, k);
    assert(src.subrange(st.pos, s.next.pos) + src.subrange(s.next.pos, q.pos) =~= src.subrange(
        st.pos,
        q.pos,
    ));
}

/// `k` steps behind the first step are `k + 1` steps.
pub proof fn lemma_state_after_shift(src: Seq<u8>, st: State, markdown: bool, k: nat)
    requires
        0 <= st.pos < src.len(),
    ensures
        state_after(src, step(src, st, markdown).next, markdown, k) == state_after(
            src,
            st,
            markdown,
            k + 1,
        ),
    decreases k,
{
    assert(state_after(src, st, markdown, 0) == st);
    if k > 0 {
        lemma_state_after_shift(src, st, markdown, (k - 1) as nat);
    }
}

/// What `k + 1` steps write is what the first writes, then what the `k`
/// steps behind it write.
pub proof fn lemma_emitted_shift(src: Seq<u8>, st: State, markdown: bool, k: nat)
    requires
        0 <= st.pos < src.len(),
    ensures
        emitted(src, st, markdown, k + 1) == step(src, st, markdown).emit + emitted(
            src,
            step(src, st, markdown).next,
            markdown,
            k,
        ),
    decreases k,
{
    let s = step(src, st, markdown);
    assert(state_after(src, st, markdown, 0) == st);
    assert(emitted(src, st, markdown, 0) =~= Seq::<u8>::empty());
    if k == 0 {
        assert(emitted(src, st, markdown, 1) =~= s.emit + Seq::<u8>::empty());
    } else {
        let k1 = (k - 1) as nat;
        lemma_emitted_shift(src, st, markdown, k1);
        lemma_state_after_shift(src, st, markdown, k1);
        let p = state_after(src, st, markdown, k);
        let last = if 0 <= p.pos < src.len() {
            step(src, p, markdown).emit
        } else {
            Seq::empty()
        };
        assert(emitted(src, st, markdown, k + 1) == emitted(src, st, markdown, k) + last);
        assert(emitted(src, s.next, markdown, k) == emitted(src, s.next, markdown, k1) + last);
        assert((s.emit + emitted(src, s.next, markdown, k1)) + last =~= s.emit + (emitted(
            src,
            s.next,
            markdown,
            k1,
        ) + last));
    }
}

/// The content of a raw-text element is written as it is: the step behind
/// the element's start tag writes everything up to the end tag that closes
/// it unchanged, then that end tag, or, where there is none, all that is
/// left of the input.
pub proof fn lemma_raw_text_copied(src: Seq<u8>, st: State, markdown: bool, j: int)
    requires
        0 <= st.pos < src.len(),
        st.raw.len() == 0,
        !comment_at(src, st.pos),
        src[st.pos] == LT,
        tag_end(src, st.pos) == Some(j),
        opens_raw(src.subrange(st.pos, j + 1)),
        step(src, st, markdown).next.pos < src.len(),
    ensures
        ({
            let inside = step(src, st, markdown).next;
            let name = lowered(tag_name(src.subrange(st.pos, j + 1)));
            let s = step(src, inside, markdown);
            match raw_close_from(src, inside.pos, name) {
                Some((p, e)) => {
                    &&& inside.pos <= p < e < src.len()
                    &&& s.emit == src.subrange(inside.pos, p) + tag_out(
                        src.subrange(p, e + 1),
                        verbatim(inside.open),
                    )
                    &&& s.next.pos == e + 1
                },
                None => s.emit == src.subrange(inside.pos, src.len() as int) && s.next.pos
                    == src.len(),
            }
        }),
{
    reveal(step);
    reveal(tag_step);
    reveal(raw_step);
    let inside = step(src, st, markdown).next;
    let name = lowered(tag_name(src.subrange(st.pos, j + 1)));
    lemma_step_advances(src, st, markdown);
    assert(inside.raw.last() == name);
    lemma_raw_close_from(src, inside.pos, name);
}

/// At most one raw-text element waits for its end tag, and it is the
/// element on top of the stack.
pub open spec fn raw_on_top(st: State) -> bool {
    &&& st.raw.len() <= 1
    &&& st.raw.len() == 1 ==> st.open.len() > 0 && st.open.last().name == st.raw[0]
}

/// A step keeps the raw-text element that waits for its end tag on top of
/// the stack, and takes it off the stack with its end tag.
pub proof fn lemma_step_raw_on_top(src: Seq<u8>, st: State, markdown: bool)
    requires
        0 <= st.pos < src.len(),
        raw_on_top(st),
    ensures
        raw_on_top(step(src, st, markdown).next),
{
    reveal(step);
    reveal(raw_step);
    reveal(comment_step);
    reveal(tag_step);
    reveal(text_step);
    if st.raw.len() > 0 {
    } else if comment_at(src, st.pos) {
    } else if src[st.pos] == LT {
        match tag_end(src, st.pos) {
            Some(j) => {
                let tag = src.subrange(st.pos, j + 1);
                if opens_raw(tag) {
                    reveal(stack_after);
                    lemma_raw_text_not_void(tag_shape(tag).name);
                }
            },
            None => {},
        }
    } else {
    }
}

/// In every state that a pass reaches, at most one raw-text element waits
/// for its end tag, and it is the element on top of the stack.
pub proof fn lemma_reached_raw_on_top(src: Seq<u8>, markdown: bool, k: nat)
    ensures
        raw_on_top(state_after(src, start(), markdown, k)),
        0 <= state_after(src, start(), markdown, k).pos <= src.len(),
    decreases k,
{
    lemma_state_after_pos(src, start(), markdown, k);
    if k > 0 {
        lemma_reached_raw_on_top(src, markdown, (k - 1) as nat);
        let p = state_after(src, start(), markdown, (k - 1) as nat);
        if p.pos < src.len() {
            lemma_step_raw_on_top(src, p, markdown);
        }
    }
}

} // verus!
