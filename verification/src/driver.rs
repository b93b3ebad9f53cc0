//! The transform: one pass over the input that tells raw text, comments,
//! tags and runs of text apart and keeps the stack of open elements.

use crate::boundary::starts_comment;
use crate::bytes::{
    append, append_range, eq_ignore_case, find_from, first_at, lemma_run_end, lowered, run_end,
    same_ignoring_case, to_lower, word, Class, GT, LF, LT, SLASH,
};
use crate::chunk::{chunk_reflow, reflow_text_chunk};
use crate::comment::{
    comment_at, comment_close, comment_standalone, inline_comment, reflow_inline_comment,
    scan_comment,
};
use crate::names::{
    closes_paragraph, is_raw_text, is_structural, is_void, paragraph_closing_name, raw_text_name,
    structural_name, void_name,
};
use crate::tag::{
    find_tag_end, has_marker, lemma_tag_end_from, normalize_inside_tag, normalized_tag,
    parse_tag_info, tag_end, tag_has_noreformat_attr, tag_name, tag_shape, TagInfo,
};
use vstd::prelude::*;

verus! {

/// An element that is open: its name in lower case, whether it carries
/// the marker attribute, and whether it or an element around it does.
pub struct Frame {
    pub name: Seq<u8>,
    pub marked: bool,
    pub verbatim: bool,
}

/// Where the pass stands: its position, the open elements, the raw-text
/// elements that wait for their end tag, and what the last token left
/// behind for the next run of text.
pub struct State {
    pub pos: int,
    pub open: Seq<Frame>,
    pub raw: Seq<Seq<u8>>,
    /// The last token was the start tag of a block-level element or a
    /// comment that stands alone.
    pub after_boundary: bool,
    /// A `<br>` came since the last run of text, and the last such had no
    /// line feed behind it.
    pub after_br: bool,
}

/// What one step of the pass writes, and the state it leaves.
pub struct Step {
    pub emit: Seq<u8>,
    pub next: State,
}

/// The state in which the pass starts.
pub open spec fn start() -> State {
    State { pos: 0, open: Seq::empty(), raw: Seq::empty(), after_boundary: false, after_br: false }
}

/// The pass is inside an element that is not to be reflowed.
pub open spec fn verbatim(open: Seq<Frame>) -> bool {
    open.len() > 0 && open.last().verbatim
}

/// The stack without its top, if it has one.
pub open spec fn popped(open: Seq<Frame>) -> Seq<Frame> {
    if open.len() > 0 {
        open.drop_last()
    } else {
        open
    }
}

/// The index of the topmost frame named `name`, or -1.
pub open spec fn match_depth(open: Seq<Frame>, name: Seq<u8>) -> int
    decreases open.len(),
{
    if open.len() == 0 {
        -1
    } else if open.last().name == name {
        open.len() - 1
    } else {
        match_depth(open.drop_last(), name)
    }
}

/// The stack behind an end tag: the frames down to and including the
/// topmost one of that name are gone; where none has the name, none is.
pub open spec fn popped_to(open: Seq<Frame>, name: Seq<u8>) -> Seq<Frame> {
    if match_depth(open, name) >= 0 {
        open.subrange(0, match_depth(open, name))
    } else {
        open
    }
}

/// The top of the stack has one of two names.
pub open spec fn top_is(open: Seq<Frame>, a: Seq<u8>, b: Seq<u8>) -> bool {
    open.len() > 0 && (open.last().name == a || open.last().name == b)
}

/// The stack before a start tag is pushed: an open `li` is closed by `li`,
/// an open `dt` or `dd` by `dt` or `dd`, an open `p` by the start of a block
/// container.
pub open spec fn implied_closed(open: Seq<Frame>, name: Seq<u8>) -> Seq<Frame> {
    if name == word("li") {
        if top_is(open, word("li"), word("li")) {
            popped(open)
        } else {
            open
        }
    } else if name == word("dt") || name == word("dd") {
        if top_is(open, word("dt"), word("dd")) {
            popped(open)
        } else {
            open
        }
    } else if paragraph_closing_name(name) {
        if top_is(open, word("p"), word("p")) {
            popped(open)
        } else {
            open
        }
    } else {
        open
    }
}

/// The stack behind the tag `tag`.
#[verifier::opaque]
pub open spec fn stack_after(open: Seq<Frame>, tag: Seq<u8>) -> Seq<Frame> {
    let t = tag_shape(tag);
    let name = lowered(t.name);
    if t.is_end {
        popped_to(open, name)
    } else if !t.self_closing && !void_name(t.name) {
        implied_closed(open, name).push(
            Frame {
                name,
                marked: has_marker(tag),
                verbatim: has_marker(tag) || verbatim(implied_closed(open, name)),
            },
        )
    } else {
        open
    }
}

/// The tag opens a raw-text element.
pub open spec fn opens_raw(tag: Seq<u8>) -> bool {
    let t = tag_shape(tag);
    raw_text_name(t.name) && !t.is_end && !t.self_closing
}

/// The tag is a `<br>`.
pub open spec fn is_br(tag: Seq<u8>) -> bool {
    let t = tag_shape(tag);
    !t.is_end && same_ignoring_case(t.name, word("br"))
}

/// The end tag that closes the raw-text element `name`, looked for from `j`
/// on: where it starts and where it ends. A `<` that starts no end tag is
/// text; an end tag of another name is stepped over as a whole.
pub open spec fn raw_close_from(src: Seq<u8>, j: int, name: Seq<u8>) -> Option<(int, int)>
    decreases src.len() - j,
{
    if j < 0 {
        None
    } else {
        match first_at(src, j, LT) {
            None => None,
            Some(p) => {
                proof {
                    lemma_run_end(src, j, Class::Except(LT));
                    lemma_tag_end_from(src, p + 1, 0);
                }
                if p + 2 >= src.len() || src[p + 1] != SLASH {
                    raw_close_from(src, p + 1, name)
                } else {
                    match tag_end(src, p) {
                        None => None,
                        Some(e) => if same_ignoring_case(tag_name(src.subrange(p, e + 1)), name) {
                            Some((p, e))
                        } else {
                            raw_close_from(src, e + 1, name)
                        },
                    }
                }
            },
        }
    }
}

/// The end tag that closes a raw-text element starts with `<` and ends
/// with `>`.
pub proof fn lemma_raw_close_from(src: Seq<u8>, j: int, name: Seq<u8>)
    requires
        0 <= j <= src.len(),
    ensures
        match raw_close_from(src, j, name) {
            Some((p, e)) => j <= p < e < src.len() && src[p] == LT && src[e] == GT,
            None => true,
        },
    decreases src.len() - j,
{
    lemma_run_end(src, j, Class::Except(LT));
    match first_at(src, j, LT) {
        None => {},
        Some(p) => {
            lemma_tag_end_from(src, p + 1, 0);
            if p + 2 >= src.len() || src[p + 1] != SLASH {
                lemma_raw_close_from(src, p + 1, name);
            } else {
                match tag_end(src, p) {
                    None => {},
                    Some(e) => {
                        if !same_ignoring_case(tag_name(src.subrange(p, e + 1)), name) {
                            lemma_raw_close_from(src, e + 1, name);
                        }
                    },
                }
            }
        },
    }
}

/// A tag as it is written out: as it stands inside an element that is not
/// to be reflowed, else with its interior rewritten.
pub open spec fn tag_out(tag: Seq<u8>, keep: bool) -> Seq<u8> {
    if keep {
        tag
    } else {
        normalized_tag(tag)
    }
}

/// What the copy of raw text from `i` writes, where it ends, and whether
/// the end tag was found. The text up to the end tag is copied as it is;
/// where there is no end tag, all that is left is.
pub open spec fn raw_copy(src: Seq<u8>, i: int, name: Seq<u8>, keep: bool) -> (Seq<u8>, int, bool) {
    if i < 0 || i >= src.len() {
        (Seq::empty(), src.len() as int, false)
    } else {
        match raw_close_from(src, i, name) {
            Some((p, e)) => (
                src.subrange(i, p) + tag_out(src.subrange(p, e + 1), keep),
                e + 1,
                true,
            ),
            None => (src.subrange(i, src.len() as int), src.len() as int, false),
        }
    }
}

/// The step inside a raw-text element.
#[verifier::opaque]
pub open spec fn raw_step(src: Seq<u8>, st: State) -> Step {
    let c = raw_copy(src, st.pos, st.raw.last(), verbatim(st.open));
    Step {
        emit: c.0,
        next: State {
            pos: c.1,
            open: if c.2 {
                popped(st.open)
            } else {
                st.open
            },
            raw: if c.2 {
                st.raw.drop_last()
            } else {
                st.raw
            },
            after_boundary: false,
            after_br: false,
        },
    }
}

/// All that is left of the input, written as it is: the step at markup
/// that is never closed.
pub open spec fn rest_step(src: Seq<u8>, st: State) -> Step {
    Step {
        emit: src.subrange(st.pos, src.len() as int),
        next: State { pos: src.len() as int, ..st },
    }
}

/// The step at a comment. One that stands alone, or lies inside an element
/// that is not to be reflowed, is written as it is; any other is reflowed.
#[verifier::opaque]
pub open spec fn comment_step(src: Seq<u8>, st: State) -> Step {
    match comment_close(src, st.pos) {
        None => rest_step(src, st),
        Some(j) => {
            let seg = src.subrange(st.pos, j + 3);
            let alone = comment_standalone(src, st.pos, j);
            Step {
                emit: if verbatim(st.open) || alone {
                    seg
                } else {
                    inline_comment(seg)
                },
                next: State { pos: j + 3, after_boundary: alone, ..st },
            }
        },
    }
}

/// The step at a tag. The tag is written as it is where it lies inside an
/// element that is not to be reflowed or is the start tag of one, else with
/// its interior rewritten. A line feed right behind a `<br>` is written with
/// it.
#[verifier::opaque]
pub open spec fn tag_step(src: Seq<u8>, st: State) -> Step {
    match tag_end(src, st.pos) {
        None => rest_step(src, st),
        Some(j) => {
            let tag = src.subrange(st.pos, j + 1);
            let t = tag_shape(tag);
            let keep = verbatim(st.open) || (!t.is_end && has_marker(tag));
            let open = stack_after(st.open, tag);
            let raw = if opens_raw(tag) {
                st.raw.push(lowered(t.name))
            } else {
                st.raw
            };
            if is_br(tag) && j + 1 < src.len() && src[j + 1] == LF {
                Step {
                    emit: tag_out(tag, keep).push(LF),
                    next: State { pos: j + 2, open, raw, after_boundary: false, after_br: false },
                }
            } else {
                Step {
                    emit: tag_out(tag, keep),
                    next: State {
                        pos: j + 1,
                        open,
                        raw,
                        after_boundary: !t.is_end && structural_name(t.name),
                        after_br: st.after_br || is_br(tag),
                    },
                }
            }
        },
    }
}

/// Where the run of text that starts at `pos` ends: at the next `<`, or at
/// the end of the input.
pub open spec fn text_end(src: Seq<u8>, pos: int) -> int {
    run_end(src, pos, Class::Except(LT))
}

/// The step at a run of text: written as it is inside an element that is
/// not to be reflowed, else reflowed in its context.
#[verifier::opaque]
pub open spec fn text_step(src: Seq<u8>, st: State, markdown: bool) -> Step {
    let end = text_end(src, st.pos);
    let chunk = src.subrange(st.pos, end);
    Step {
        emit: if verbatim(st.open) {
            chunk
        } else {
            chunk_reflow(chunk, src, end, markdown, st.after_boundary, st.after_br, st.pos)
        },
        next: State { pos: end, after_boundary: false, after_br: false, ..st },
    }
}

/// One step of the pass from a state inside the input.
#[verifier::opaque]
pub open spec fn step(src: Seq<u8>, st: State, markdown: bool) -> Step {
    if st.raw.len() > 0 {
        raw_step(src, st)
    } else if comment_at(src, st.pos) {
        comment_step(src, st)
    } else if src[st.pos] == LT {
        tag_step(src, st)
    } else {
        text_step(src, st, markdown)
    }
}

/// Every step moves on, and never beyond the end of the input.
pub proof fn lemma_step_advances(src: Seq<u8>, st: State, markdown: bool)
    requires
        0 <= st.pos < src.len(),
    ensures
        st.pos < step(src, st, markdown).next.pos <= src.len(),
{
    reveal(step);
    reveal(raw_step);
    reveal(comment_step);
    reveal(tag_step);
    reveal(text_step);
    if st.raw.len() > 0 {
        lemma_raw_close_from(src, st.pos, st.raw.last());
    } else if comment_at(src, st.pos) {
        crate::comment::lemma_shut_from(src, st.pos + 4);
    } else if src[st.pos] == LT {
        lemma_tag_end_from(src, st.pos + 1, 0);
    } else {
        lemma_run_end(src, st.pos, Class::Except(LT));
        assert(Class::Except(LT).has(src[st.pos]));
    }
}

/// What the pass writes from the state `st` on.
pub open spec fn transformed_from(src: Seq<u8>, st: State, markdown: bool) -> Seq<u8>
    decreases src.len() - st.pos,
{
    if st.pos < 0 || st.pos >= src.len() {
        Seq::empty()
    } else {
        proof {
            lemma_step_advances(src, st, markdown);
        }
        step(src, st, markdown).emit + transformed_from(
            src,
            step(src, st, markdown).next,
            markdown,
        )
    }
}

/// The reflowed document.
pub open spec fn transformed(src: Seq<u8>, markdown: bool) -> Seq<u8> {
    transformed_from(src, start(), markdown)
}

/// An open element as the pass holds it.
pub struct OpenElement {
    /// The element's name in lower case.
    pub name: Vec<u8>,
    /// The element carries the marker attribute.
    pub has_noreformat: bool,
    /// The element or one around it carries the marker attribute.
    pub verbatim: bool,
}

impl View for OpenElement {
    type V = Frame;

    open spec fn view(&self) -> Frame {
        Frame { name: self.name@, marked: self.has_noreformat, verbatim: self.verbatim }
    }
}

/// The open elements that the pass holds, as frames.
pub open spec fn frames(open: Seq<OpenElement>) -> Seq<Frame> {
    Seq::new(open.len(), |i: int| open[i]@)
}

/// The names that the pass holds, as byte strings.
pub open spec fn names_of(raw: Seq<Vec<u8>>) -> Seq<Seq<u8>> {
    Seq::new(raw.len(), |i: int| raw[i]@)
}

/// What the pass carries from token to token.
pub struct Cursor {
    pub open: Vec<OpenElement>,
    pub raw: Vec<Vec<u8>>,
    pub after_boundary: bool,
    pub after_br: bool,
}

impl Cursor {
    /// The state of a pass that stands at `pos` with this cursor.
    pub open spec fn at(&self, pos: int) -> State {
        State {
            pos,
            open: frames(self.open@),
            raw: names_of(self.raw@),
            after_boundary: self.after_boundary,
            after_br: self.after_br,
        }
    }

    /// The cursor with which a pass starts.
    pub fn new() -> (r: Cursor)
        ensures
            r.at(0) == start(),
    {
        let r = Cursor {
            open: Vec::new(),
            raw: Vec::new(),
            after_boundary: false,
            after_br: false,
        };
        assert(frames(r.open@) =~= Seq::<Frame>::empty());
        assert(names_of(r.raw@) =~= Seq::<Seq<u8>>::empty());
        r
    }
}

/// A name in ASCII lower case.
fn lowercase(name: &[u8]) -> (r: Vec<u8>)
    ensures
        r@ == lowered(name@),
{
    let mut r: Vec<u8> = Vec::with_capacity(name.len());
    let mut k: usize = 0;
    while k < name.len()
        invariant
            k <= name.len(),
            r@ == lowered(name@.subrange(0, k as int)),
        decreases name.len() - k,
    {
        r.push(to_lower(name[k]));
        assert(r@ =~= lowered(name@.subrange(0, k + 1)));
        k += 1;
    }
    assert(name@.subrange(0, name.len() as int) =~= name@);
    r
}

/// Whether two byte strings are equal.
fn bytes_eq(a: &[u8], b: &[u8]) -> (r: bool)
    ensures
        r == (a@ == b@),
{
    if a.len() != b.len() {
        return false;
    }
    let mut k: usize = 0;
    while k < a.len()
        invariant
            k <= a.len(),
            a.len() == b.len(),
            forall|m: int| 0 <= m < k ==> a@[m] == b@[m],
        decreases a.len() - k,
    {
        if a[k] != b[k] {
            return false;
        }
        k += 1;
    }
    assert(a@ =~= b@);
    true
}

/// Whether the pass is inside an element that is not to be reflowed.
fn is_verbatim(open: &Vec<OpenElement>) -> (r: bool)
    ensures
        r == verbatim(frames(open@)),
{
    let n = open.len();
    n > 0 && open[n - 1].verbatim
}

/// Whether the top of the stack has one of two names.
fn top_named(open: &Vec<OpenElement>, a: &[u8], b: &[u8]) -> (r: bool)
    ensures
        r == top_is(frames(open@), a@, b@),
{
    let n = open.len();
    n > 0 && (bytes_eq(open[n - 1].name.as_slice(), a) || bytes_eq(open[n - 1].name.as_slice(), b))
}

/// Takes the top off the stack, if it has one.
fn pop_frame(open: &mut Vec<OpenElement>)
    ensures
        frames(final(open)@) == popped(frames(old(open)@)),
{
    if open.len() > 0 {
        open.pop();
        assert(frames(open@) =~= frames(old(open)@).drop_last());
    }
}

/// Closes the elements that an end tag named `name` closes.
fn close_to(open: &mut Vec<OpenElement>, name: &[u8])
    ensures
        frames(final(open)@) == popped_to(frames(old(open)@), name@),
{
    let ghost fr = frames(open@);
    let mut k: usize = open.len();
    assert(fr.subrange(0, k as int) =~= fr);
    while k > 0
        invariant
            k <= open.len(),
            open@ == old(open)@,
            fr == frames(open@),
            match_depth(fr.subrange(0, k as int), name@) == match_depth(fr, name@),
        decreases k,
    {
        assert(fr.subrange(0, k as int).drop_last() =~= fr.subrange(0, k - 1));
        assert(fr.subrange(0, k as int).last() == fr[k - 1]);
        if bytes_eq(open[k - 1].name.as_slice(), name) {
            open.truncate(k - 1);
            assert(frames(open@) =~= fr.subrange(0, k - 1));
            return;
        }
        k -= 1;
    }
}

/// Closes the element that a start tag named `name` closes by implication.
fn close_implied(open: &mut Vec<OpenElement>, name: &[u8])
    ensures
        frames(final(open)@) == implied_closed(frames(old(open)@), name@),
{
    let li = "li".as_bytes();
    let dt = "dt".as_bytes();
    let dd = "dd".as_bytes();
    let p = "p".as_bytes();
    if bytes_eq(name, li) {
        if top_named(open, li, li) {
            pop_frame(open);
        }
    } else if bytes_eq(name, dt) || bytes_eq(name, dd) {
        if top_named(open, dt, dd) {
            pop_frame(open);
        }
    } else if closes_paragraph(name) {
        if top_named(open, p, p) {
            pop_frame(open);
        }
    }
}

/// Brings the stack of open elements up to date behind a tag.
fn update_stack(open: &mut Vec<OpenElement>, tag: &[u8], ti: &TagInfo<'_>, marked: bool)
    requires
        ti@ == tag_shape(tag@),
        marked == has_marker(tag@),
    ensures
        frames(final(open)@) == stack_after(frames(old(open)@), tag@),
{
    reveal(stack_after);
    let name = lowercase(ti.name);
    if ti.is_end {
        close_to(open, name.as_slice());
    } else if !ti.self_closing && !is_void(ti.name) {
        close_implied(open, name.as_slice());
        let v = marked || is_verbatim(open);
        let ghost before = frames(open@);
        open.push(OpenElement { name, has_noreformat: marked, verbatim: v });
        assert(frames(open@) =~= before.push(Frame { name: name@, marked, verbatim: v }));
    }
}

/// Copies raw text from `i` to `out` up to the end tag that closes the
/// element `name`, which is written as it stands if `keep` is set, else
/// with its interior rewritten. Returns the index behind the end tag and
/// whether there was one.
pub fn copy_raw_text_until_end(
    src: &[u8],
    i: usize,
    name: &[u8],
    keep: bool,
    out: &mut Vec<u8>,
) -> (r: (usize, bool))
    ensures
        final(out)@ == old(out)@ + raw_copy(src@, i as int, name@, keep).0,
        r.0 == raw_copy(src@, i as int, name@, keep).1,
        r.1 == raw_copy(src@, i as int, name@, keep).2,
{
    let n = src.len();
    if i >= n {
        assert(out@ =~= old(out)@ + Seq::<u8>::empty());
        return (n, false);
    }
    let mut j: usize = i;
    assert(out@ =~= old(out)@ + src@.subrange(i as int, j as int));
    loop
        invariant
            i <= j <= n,
            i < n,
            n == src.len(),
            raw_close_from(src@, j as int, name@) == raw_close_from(src@, i as int, name@),
            out@ == old(out)@ + src@.subrange(i as int, j as int),
        decreases n - j,
    {
        let ghost before = out@;
        proof {
            lemma_run_end(src@, j as int, Class::Except(LT));
        }
        match find_from(src, j, LT) {
            None => {
                append_range(out, src, j, n);
                assert(out@ =~= old(out)@ + src@.subrange(i as int, n as int));
                return (n, false);
            },
            Some(pos) => {
                if n - pos <= 2 || src[pos + 1] != SLASH {
                    append_range(out, src, j, pos + 1);
                    assert(out@ =~= old(out)@ + src@.subrange(i as int, pos + 1));
                    j = pos + 1;
                } else {
                    match find_tag_end(src, pos) {
                        None => {
                            append_range(out, src, j, n);
                            assert(out@ =~= old(out)@ + src@.subrange(i as int, n as int));
                            return (n, false);
                        },
                        Some(end) => {
                            let tag = &src[pos..end + 1];
                            let ti = parse_tag_info(tag);
                            if eq_ignore_case(ti.name, name) {
                                append_range(out, src, j, pos);
                                assert(out@ =~= old(out)@ + src@.subrange(i as int, pos as int));
                                let ghost mid = out@;
                                if keep {
                                    append(out, tag);
                                } else {
                                    normalize_inside_tag(tag, out);
                                }
                                assert(out@ =~= old(out)@ + (src@.subrange(i as int, pos as int)
                                    + tag_out(tag@, keep)));
                                return (end + 1, true);
                            } else {
                                append_range(out, src, j, end + 1);
                                assert(out@ =~= old(out)@ + src@.subrange(i as int, end + 1));
                                j = end + 1;
                            }
                        },
                    }
                }
            },
        }
    }
}

/// Takes the step inside a raw-text element.
fn step_raw(src: &[u8], i: usize, cur: &mut Cursor, out: &mut Vec<u8>) -> (next: usize)
    requires
        i < src.len(),
        old(cur).raw@.len() > 0,
    ensures
        final(out)@ == old(out)@ + raw_step(src@, old(cur).at(i as int)).emit,
        final(cur).at(next as int) == raw_step(src@, old(cur).at(i as int)).next,
{
    reveal(raw_step);
    let keep = is_verbatim(&cur.open);
    let last = cur.raw.len() - 1;
    let (next, closed) = copy_raw_text_until_end(src, i, cur.raw[last].as_slice(), keep, out);
    cur.after_boundary = false;
    cur.after_br = false;
    if closed {
        cur.raw.pop();
        assert(names_of(cur.raw@) =~= names_of(old(cur).raw@).drop_last());
        pop_frame(&mut cur.open);
    }
    next
}

/// Takes the step at a comment.
fn step_comment(src: &[u8], i: usize, cur: &mut Cursor, out: &mut Vec<u8>) -> (next: usize)
    requires
        i < src.len(),
    ensures
        final(out)@ == old(out)@ + comment_step(src@, old(cur).at(i as int)).emit,
        final(cur).at(next as int) == comment_step(src@, old(cur).at(i as int)).next,
{
    reveal(comment_step);
    let n = src.len();
    let (j_end, standalone) = scan_comment(src, i);
    if j_end == usize::MAX {
        append_range(out, src, i, n);
        return n;
    }
    let seg = &src[i..j_end + 3];
    if is_verbatim(&cur.open) || standalone {
        append(out, seg);
    } else {
        reflow_inline_comment(seg, out);
    }
    cur.after_boundary = standalone;
    j_end + 3
}

/// Takes the step at a tag.
fn step_tag(src: &[u8], i: usize, cur: &mut Cursor, out: &mut Vec<u8>) -> (next: usize)
    requires
        i < src.len(),
    ensures
        final(out)@ == old(out)@ + tag_step(src@, old(cur).at(i as int)).emit,
        final(cur).at(next as int) == tag_step(src@, old(cur).at(i as int)).next,
{
    reveal(tag_step);
    let n = src.len();
    match find_tag_end(src, i) {
        None => {
            append_range(out, src, i, n);
            n
        },
        Some(j) => {
            let tag = &src[i..j + 1];
            let ti = parse_tag_info(tag);
            let marked = tag_has_noreformat_attr(tag);
            let keep = is_verbatim(&cur.open) || (!ti.is_end && marked);
            if keep {
                append(out, tag);
            } else {
                normalize_inside_tag(tag, out);
            }
            update_stack(&mut cur.open, tag, &ti, marked);
            if is_raw_text(ti.name) && !ti.is_end && !ti.self_closing {
                let name = lowercase(ti.name);
                let ghost before = names_of(cur.raw@);
                cur.raw.push(name);
                assert(names_of(cur.raw@) =~= before.push(name@));
            }
            let br = !ti.is_end && eq_ignore_case(ti.name, "br".as_bytes());
            if br && n - j > 1 && src[j + 1] == LF {
                out.push(LF);
                cur.after_boundary = false;
                cur.after_br = false;
                j + 2
            } else {
                cur.after_boundary = !ti.is_end && is_structural(ti.name);
                if br {
                    cur.after_br = true;
                }
                j + 1
            }
        },
    }
}

/// Takes the step at a run of text.
fn step_text(src: &[u8], i: usize, cur: &mut Cursor, out: &mut Vec<u8>, markdown: bool) -> (next:
    usize)
    requires
        i < src.len(),
    ensures
        final(out)@ == old(out)@ + text_step(src@, old(cur).at(i as int), markdown).emit,
        final(cur).at(next as int) == text_step(src@, old(cur).at(i as int), markdown).next,
{
    proof {
        reveal(text_step);
        lemma_run_end(src@, i as int, Class::Except(LT));
    }
    let next_lt = match find_from(src, i, LT) {
        Some(p) => p,
        None => src.len(),
    };
    let chunk = &src[i..next_lt];
    if is_verbatim(&cur.open) {
        append(out, chunk);
    } else {
        reflow_text_chunk(
            chunk,
            src,
            next_lt,
            out,
            markdown,
            cur.after_boundary,
            cur.after_br,
            i,
        );
    }
    cur.after_boundary = false;
    cur.after_br = false;
    next_lt
}

/// Appends the reflowed document `src` to `out`. Markup that is never
/// closed is written out as it is, from where it starts to the end.
pub fn transform(src: &[u8], out: &mut Vec<u8>, use_markdown: bool)
    ensures
        final(out)@ == old(out)@ + transformed(src@, use_markdown),
{
    let n = src.len();
    let mut i: usize = 0;
    let mut cur = Cursor::new();
    while i < n
        invariant
            i <= n,
            n == src.len(),
            out@ + transformed_from(src@, cur.at(i as int), use_markdown) == old(out)@
                + transformed(src@, use_markdown),
        decreases n - i,
    {
        let ghost st = cur.at(i as int);
        let ghost before = out@;
        proof {
            reveal(step);
            lemma_step_advances(src@, st, use_markdown);
        }
        let next = if cur.raw.len() > 0 {
            step_raw(src, i, &mut cur, out)
        } else if starts_comment(src, i) {
            step_comment(src, i, &mut cur, out)
        } else if src[i] == LT {
            step_tag(src, i, &mut cur, out)
        } else {
            step_text(src, i, &mut cur, out, use_markdown)
        };
        assert(out@ + transformed_from(src@, cur.at(next as int), use_markdown) =~= before
            + transformed_from(src@, st, use_markdown));
        i = next;
    }
    assert(out@ + Seq::<u8>::empty() =~= out@);
}

} // verus!
