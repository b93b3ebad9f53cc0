//! The law that reflow changes nothing but whitespace: the bytes of a
//! document that are no whitespace come out as they went in, in their order.

use crate::bytes::{
    lemma_run_end, lemma_run_start, run_end, run_start, space_tab, trimmed_spaces, ws, Class, GT,
    LT, SPACE,
};
use crate::boundary::def_indent_end;
use crate::chunk::{
    chunk_reflow, core_reflow, edge_reflow, head_end, keeps_tail, lemma_edges, soft_wrap,
    soft_wrapped, tail_start, text_reflow, without_tail, ws_only,
};
use crate::comment::{
    comment_at, comment_close, comment_open, comment_shut, inline_comment, lemma_shut_from,
};
use crate::driver::{
    comment_step, is_br, lemma_raw_close_from, lemma_step_advances,
    raw_close_from, raw_step, start, step, tag_out, tag_step, text_end, text_step, transformed,
    transformed_from, verbatim, State,
};
use crate::line::{
    blank, bullet, def_desc, def_term, definition, indent, lemma_line, line_at, line_stop,
    next_line, opened_fence, ordered, without_indent, without_trail,
};
use crate::markdown::{
    block_at, block_line, closing_lf, group_end, group_tail, joined, lazy_continuation,
    lemma_block_at, lemma_group_end, marker, markdown_reflow, md_from,
};
use crate::plain::{folded_from, plain_reflow};
use crate::tag::{
    has_marker, lemma_tag_end_from, norm_from, normalized_inner, normalized_tag, push_space_once,
    tag_end, tag_shape, touches_equals,
};
use vstd::prelude::*;

verus! {

/// The bytes of `s` that are no whitespace, in their order.
pub open spec fn content(s: Seq<u8>) -> Seq<u8>
    decreases s.len(),
{
    if s.len() == 0 {
        Seq::empty()
    } else if ws(s.last()) {
        content(s.drop_last())
    } else {
        content(s.drop_last()).push(s.last())
    }
}

/// Every byte of `s` is whitespace.
pub open spec fn all_ws(s: Seq<u8>) -> bool {
    forall|k: int| 0 <= k < s.len() ==> ws(#[trigger] s[k])
}

/// The content of two byte strings in a row is their contents in a row.
pub proof fn lemma_content_concat(a: Seq<u8>, b: Seq<u8>)
    ensures
        content(a + b) == content(a) + content(b),
    decreases b.len(),
{
    if b.len() == 0 {
        assert(a + b =~= a);
        assert(content(a) + content(b) =~= content(a));
    } else {
        lemma_content_concat(a, b.drop_last());
        assert((a + b).drop_last() =~= a + b.drop_last());
        assert((a + b).last() == b.last());
        if !ws(b.last()) {
            assert(content(a + b) =~= content(a) + content(b));
        }
    }
}

/// The content of three byte strings in a row is their contents in a row.
pub proof fn lemma_content_concat3(a: Seq<u8>, b: Seq<u8>, c: Seq<u8>)
    ensures
        content(a + b + c) == content(a) + content(b) + content(c),
{
    lemma_content_concat(a + b, c);
    lemma_content_concat(a, b);
}

/// Whitespace has no content.
pub proof fn lemma_content_of_ws(s: Seq<u8>)
    requires
        all_ws(s),
    ensures
        content(s) == Seq::<u8>::empty(),
    decreases s.len(),
{
    if s.len() > 0 {
        assert(ws(s[s.len() - 1]));
        assert forall|k: int| 0 <= k < s.drop_last().len() implies ws(
            #[trigger] s.drop_last()[k],
        ) by {
            assert(s.drop_last()[k] == s[k]);
        }
        lemma_content_of_ws(s.drop_last());
    }
}

/// The content of one byte: the byte, unless it is whitespace.
pub proof fn lemma_content_one(b: u8)
    ensures
        content(seq![b]) == if ws(b) {
            Seq::<u8>::empty()
        } else {
            seq![b]
        },
{
    let s = seq![b];
    assert(s.drop_last() =~= Seq::<u8>::empty());
    assert(content(s.drop_last()) =~= Seq::<u8>::empty());
    assert(s.last() == b);
    if !ws(b) {
        assert(content(s) =~= seq![b]);
    }
}

/// A byte at the end adds itself to the content, unless it is whitespace.
pub proof fn lemma_content_push(s: Seq<u8>, b: u8)
    ensures
        content(s.push(b)) == if ws(b) {
            content(s)
        } else {
            content(s).push(b)
        },
{
    assert(s.push(b).drop_last() =~= s);
}

/// The content of a range is the content of its parts.
pub proof fn lemma_content_range(s: Seq<u8>, i: int, k: int, j: int)
    requires
        0 <= i <= k <= j <= s.len(),
    ensures
        content(s.subrange(i, j)) == content(s.subrange(i, k)) + content(s.subrange(k, j)),
{
    assert(s.subrange(i, j) =~= s.subrange(i, k) + s.subrange(k, j));
    lemma_content_concat(s.subrange(i, k), s.subrange(k, j));
}

/// A range of whitespace has no content.
pub proof fn lemma_content_of_run(s: Seq<u8>, i: int, j: int)
    requires
        0 <= i <= j <= s.len(),
        forall|k: int| i <= k < j ==> ws(#[trigger] s[k]),
    ensures
        content(s.subrange(i, j)) == Seq::<u8>::empty(),
{
    assert forall|k: int| 0 <= k < j - i implies ws(#[trigger] s.subrange(i, j)[k]) by {
        assert(s.subrange(i, j)[k] == s[i + k]);
    }
    lemma_content_of_ws(s.subrange(i, j));
}

/// Trimming spaces keeps the content.
pub proof fn lemma_content_trimmed(s: Seq<u8>)
    ensures
        content(trimmed_spaces(s)) == content(s),
{
    let n = s.len() as int;
    let a = run_end(s, 0, Class::Only(SPACE));
    let b = run_start(s, n, Class::Only(SPACE));
    lemma_run_end(s, 0, Class::Only(SPACE));
    lemma_run_start(s, n, Class::Only(SPACE));
    if a < b {
        assert forall|k: int| 0 <= k < a implies ws(#[trigger] s[k]) by {
            assert(Class::Only(SPACE).has(s[k]));
        }
        assert forall|k: int| b <= k < n implies ws(#[trigger] s[k]) by {
            assert(Class::Only(SPACE).has(s[k]));
        }
        lemma_content_of_run(s, 0, a);
        lemma_content_of_run(s, b, n);
        lemma_content_range(s, 0, a, n);
        lemma_content_range(s, a, b, n);
        assert(s.subrange(0, n) =~= s);
        assert(content(s) =~= content(s.subrange(a, b)));
    } else {
        // a run of spaces from the start reaches the run of spaces at the end
        assert forall|k: int| 0 <= k < n implies ws(#[trigger] s[k]) by {
            if k < a {
                assert(Class::Only(SPACE).has(s[k]));
            } else {
                assert(Class::Only(SPACE).has(s[k]));
            }
        }
        lemma_content_of_ws(s);
    }
}

/// A space at the end adds nothing to the content.
proof fn lemma_content_space_once(buf: Seq<u8>)
    ensures
        content(push_space_once(buf)) == content(buf),
{
    lemma_content_push(buf, SPACE);
}

/// The rewrite of the rest of a tag adds the content of that rest.
proof fn lemma_content_norm(inner: Seq<u8>, i: int, q: u8, buf: Seq<u8>)
    requires
        0 <= i <= inner.len(),
    ensures
        content(norm_from(inner, i, q, buf)) == content(buf) + content(
            inner.subrange(i, inner.len() as int),
        ),
    decreases inner.len() - i,
{
    let n = inner.len() as int;
    if i >= n {
        assert(inner.subrange(i, n) =~= Seq::<u8>::empty());
        assert(content(buf) + Seq::<u8>::empty() =~= content(buf));
    } else {
        let b = inner[i];
        let j = run_end(inner, i, Class::Ws);
        lemma_run_end(inner, i, Class::Ws);
        if ws(b) && !(q != 0 && b == q) {
            assert forall|k: int| i <= k < j implies ws(#[trigger] inner[k]) by {
                assert(Class::Ws.has(inner[k]));
            }
            lemma_content_of_run(inner, i, j);
            lemma_content_range(inner, i, j, n);
            assert(content(inner.subrange(i, n)) =~= content(inner.subrange(j, n)));
            lemma_content_space_once(buf);
            lemma_content_concat(buf, inner.subrange(i, j));
            assert(content(buf + inner.subrange(i, j)) =~= content(buf));
            if q != 0 {
                if crate::bytes::has_lf(inner, i, j) {
                    lemma_content_norm(inner, j, q, push_space_once(buf));
                } else {
                    lemma_content_norm(inner, j, q, buf + inner.subrange(i, j));
                }
            } else {
                if crate::bytes::has_lf(inner, i, j) && touches_equals(inner, i, j) {
                    lemma_content_norm(inner, j, 0, buf);
                } else {
                    lemma_content_norm(inner, j, 0, push_space_once(buf));
                }
            }
        } else {
            let nq = if q != 0 && b == q {
                0u8
            } else if q != 0 {
                q
            } else if b == crate::bytes::DQUOTE || b == crate::bytes::SQUOTE {
                b
            } else {
                0u8
            };
            assert(norm_from(inner, i, q, buf) == norm_from(inner, i + 1, nq, buf.push(b)));
            lemma_content_norm(inner, i + 1, nq, buf.push(b));
            lemma_content_push(buf, b);
            lemma_content_range(inner, i, i + 1, n);
            assert(inner.subrange(i, i + 1) =~= seq![b]);
            lemma_content_one(b);
            if ws(b) {
                // the quote that is open is a whitespace byte: it closes here
                assert(content(buf.push(b)) + content(inner.subrange(i + 1, n)) =~= content(buf)
                    + (Seq::<u8>::empty() + content(inner.subrange(i + 1, n))));
            } else {
                assert(content(buf).push(b) + content(inner.subrange(i + 1, n)) =~= content(buf)
                    + (seq![b] + content(inner.subrange(i + 1, n))));
            }
        }
    }
}

/// Rewriting the interior of a tag keeps its content.
pub proof fn lemma_content_normalized(tag: Seq<u8>)
    requires
        tag.len() >= 2 ==> tag.first() == LT && tag.last() == GT,
    ensures
        content(normalized_tag(tag)) == content(tag),
{
    reveal(normalized_tag);
    if tag.len() >= 2 {
        let n = tag.len() as int;
        let inner = tag.subrange(1, n - 1);
        let raw = norm_from(inner, 0, 0, Seq::empty());
        lemma_content_norm(inner, 0, 0, Seq::empty());
        assert(inner.subrange(0, inner.len() as int) =~= inner);
        assert(content(Seq::<u8>::empty()) + content(inner) =~= content(inner));
        lemma_content_trimmed(raw);
        lemma_content_concat3(seq![LT], normalized_inner(inner), seq![GT]);
        assert(tag =~= seq![LT] + inner + seq![GT]);
        lemma_content_concat3(seq![LT], inner, seq![GT]);
    }
}

/// Plain reflow keeps the content.
pub proof fn lemma_content_folded(text: Seq<u8>, i: int)
    requires
        0 <= i <= text.len(),
    ensures
        content(folded_from(text, i)) == content(text.subrange(i, text.len() as int)),
    decreases text.len() - i,
{
    let n = text.len() as int;
    if i >= n {
        assert(text.subrange(i, n) =~= Seq::<u8>::empty());
    } else if Class::Fold.has(text[i]) {
        let j = run_end(text, i, Class::Fold);
        lemma_run_end(text, i, Class::Fold);
        assert forall|k: int| i <= k < j implies ws(#[trigger] text[k]) by {
            assert(Class::Fold.has(text[k]));
        }
        lemma_content_of_run(text, i, j);
        lemma_content_range(text, i, j, n);
        lemma_content_folded(text, j);
        lemma_content_one(SPACE);
        lemma_content_concat(seq![SPACE], folded_from(text, j));
        lemma_content_concat(text.subrange(i, j), folded_from(text, j));
        assert(Seq::<u8>::empty() + content(text.subrange(j, n)) =~= content(
            text.subrange(j, n),
        ));
    } else {
        lemma_content_folded(text, i + 1);
        lemma_content_range(text, i, i + 1, n);
        assert(text.subrange(i, i + 1) =~= seq![text[i]]);
        lemma_content_concat(seq![text[i]], folded_from(text, i + 1));
    }
}

/// Plain reflow keeps the content.
pub proof fn lemma_content_plain(text: Seq<u8>)
    ensures
        content(plain_reflow(text)) == content(text),
{
    lemma_content_folded(text, 0);
    assert(text.subrange(0, text.len() as int) =~= text);
}

/// Reflow of a comment keeps its content.
pub proof fn lemma_content_comment(c: Seq<u8>)
    requires
        c.len() >= 7 ==> c.subrange(0, 4) == comment_open() && c.subrange(c.len() - 3, c.len() as int)
            == comment_shut(),
    ensures
        content(inline_comment(c)) == content(c),
{
    if c.len() >= 7 {
        let n = c.len() as int;
        let inner = c.subrange(4, n - 3);
        lemma_content_plain(inner);
        lemma_content_concat3(comment_open(), plain_reflow(inner), comment_shut());
        lemma_content_concat3(comment_open(), inner, comment_shut());
        assert(c =~= c.subrange(0, 4) + inner + c.subrange(n - 3, n));
    }
}

/// A container item keeps the content of its line: what lies between the
/// marker and the text is whitespace.
proof fn lemma_content_item(line: Seq<u8>, m: int, r: int, spaced: bool)
    requires
        0 <= m <= r <= line.len(),
        forall|k: int| m <= k < r ==> ws(#[trigger] line[k]),
    ensures
        content(
            if spaced {
                line.subrange(0, m).push(SPACE)
            } else {
                line.subrange(0, m)
            },
        ) + content(line.subrange(r, line.len() as int)) == content(line),
{
    let n = line.len() as int;
    lemma_content_push(line.subrange(0, m), SPACE);
    lemma_content_of_run(line, m, r);
    lemma_content_range(line, 0, m, n);
    lemma_content_range(line, m, r, n);
    assert(line.subrange(0, n) =~= line);
    assert(content(line.subrange(0, m)) + (Seq::<u8>::empty() + content(line.subrange(r, n)))
        =~= content(line.subrange(0, m)) + content(line.subrange(r, n)));
}

/// A run of spaces and tabs is whitespace.
proof fn lemma_space_tab_run(line: Seq<u8>, m: int)
    requires
        0 <= m <= line.len(),
    ensures
        m <= run_end(line, m, Class::SpaceTab) <= line.len(),
        forall|k: int| m <= k < run_end(line, m, Class::SpaceTab) ==> ws(#[trigger] line[k]),
{
    lemma_run_end(line, m, Class::SpaceTab);
    assert forall|k: int| m <= k < run_end(line, m, Class::SpaceTab) implies ws(
        #[trigger] line[k],
    ) by {
        assert(Class::SpaceTab.has(line[k]));
    }
}

/// A definition item holds the content of its line.
proof fn lemma_content_definition(line: Seq<u8>, j: int)
    requires
        0 <= j <= line.len(),
    ensures
        match definition(line, j) {
            Some(item) => content(item.prefix) + content(item.first) == content(line),
            None => true,
        },
{
    if j == line.len() {
        assert(content(line) + content(Seq::<u8>::empty()) =~= content(line));
    } else if space_tab(line[j]) {
        let c = run_end(line, j, Class::SpaceTab);
        lemma_space_tab_run(line, j);
        lemma_content_item(line, j, c, c != line.len());
    }
}

/// The marker of a container line and the text behind it hold the content
/// of the line.
pub proof fn lemma_content_marker(line: Seq<u8>)
    ensures
        match marker(line) {
            Some(item) => content(item.prefix) + content(item.first) == content(line),
            None => true,
        },
{
    let i = indent(line);
    lemma_run_end(line, 0, Class::SpaceTab);
    if bullet(line) is Some {
        lemma_space_tab_run(line, i + 1);
        lemma_content_item(line, i + 1, run_end(line, i + 1, Class::SpaceTab), true);
    } else if ordered(line) is Some {
        let d = run_end(line, i, Class::Digit);
        lemma_run_end(line, i, Class::Digit);
        lemma_space_tab_run(line, d + 1);
        lemma_content_item(line, d + 1, run_end(line, d + 1, Class::SpaceTab), true);
    } else if def_term(line) is Some {
        lemma_content_definition(line, i + 1);
    } else if def_desc(line) is Some {
        lemma_content_definition(line, i + 2);
    }
}

/// A line without the spaces and tabs at its end keeps its content.
proof fn lemma_content_without_trail(line: Seq<u8>)
    ensures
        content(without_trail(line)) == content(line),
{
    let n = line.len() as int;
    let a = run_start(line, n, Class::SpaceTab);
    lemma_run_start(line, n, Class::SpaceTab);
    assert forall|k: int| a <= k < n implies ws(#[trigger] line[k]) by {
        assert(Class::SpaceTab.has(line[k]));
    }
    lemma_content_of_run(line, a, n);
    lemma_content_range(line, 0, a, n);
    assert(line.subrange(0, n) =~= line);
    assert(content(line.subrange(0, a)) + Seq::<u8>::empty() =~= content(line.subrange(0, a)));
}

/// A line without its indentation keeps its content.
proof fn lemma_content_without_indent(line: Seq<u8>)
    ensures
        content(without_indent(line)) == content(line),
{
    let n = line.len() as int;
    lemma_space_tab_run(line, 0);
    let a = indent(line);
    lemma_content_of_run(line, 0, a);
    lemma_content_range(line, 0, a, n);
    assert(line.subrange(0, n) =~= line);
    assert(Seq::<u8>::empty() + content(line.subrange(a, n)) =~= content(line.subrange(a, n)));
}

/// A line with its line feed holds the content of the line without it.
proof fn lemma_content_line(text: Seq<u8>, i: int)
    requires
        0 <= i < text.len(),
    ensures
        content(text.subrange(i, next_line(text, i))) == content(line_at(text, i)),
{
    lemma_line(text, i);
    let stop = line_stop(text, i);
    let e = next_line(text, i);
    if e > stop {
        lemma_content_range(text, i, stop, e);
        assert(text.subrange(stop, e) =~= seq![text[stop]]);
        lemma_content_one(text[stop]);
        assert(content(text.subrange(i, stop)) + Seq::<u8>::empty() =~= content(
            text.subrange(i, stop),
        ));
    }
}

/// The lines that continue an item add their content to it.
proof fn lemma_content_group_tail(text: Seq<u8>, e: int)
    requires
        0 <= e <= text.len(),
    ensures
        e <= group_end(text, e) <= text.len(),
        content(group_tail(text, e)) == content(text.subrange(e, group_end(text, e))),
    decreases text.len() - e,
{
    lemma_group_end(text, e);
    if e < text.len() && lazy_continuation(line_at(text, e)) {
        lemma_line(text, e);
        let next = next_line(text, e);
        let c = group_end(text, e);
        lemma_content_group_tail(text, next);
        lemma_group_end(text, next);
        lemma_content_line(text, e);
        lemma_content_without_indent(line_at(text, e));
        lemma_content_one(SPACE);
        lemma_content_concat3(
            seq![SPACE],
            without_indent(line_at(text, e)),
            group_tail(text, next),
        );
        lemma_content_range(text, e, next, c);
        assert(Seq::<u8>::empty() + content(line_at(text, e)) + content(
            text.subrange(next, c),
        ) =~= content(line_at(text, e)) + content(text.subrange(next, c)));
    } else {
        assert(text.subrange(e, e) =~= Seq::<u8>::empty());
    }
}

/// An item joined with the lines that continue it holds its content and
/// theirs.
proof fn lemma_content_joined(first: Seq<u8>, text: Seq<u8>, e: int)
    requires
        0 <= e <= text.len(),
    ensures
        content(joined(first, text, e)) == content(first) + content(
            text.subrange(e, group_end(text, e)),
        ),
{
    lemma_content_group_tail(text, e);
    lemma_content_without_trail(first);
    let c = group_end(text, e);
    let lf = closing_lf(text, c);
    assert(content(lf) =~= Seq::<u8>::empty()) by {
        if lf.len() > 0 {
            lemma_content_one(crate::bytes::LF);
        }
    }
    lemma_content_concat3(without_trail(first), group_tail(text, e), lf);
    assert(content(first) + content(text.subrange(e, c)) + Seq::<u8>::empty() =~= content(first)
        + content(text.subrange(e, c)));
}

/// A block keeps the content of its lines.
pub proof fn lemma_content_block(text: Seq<u8>, i: int, after_para: bool)
    requires
        0 <= i < text.len(),
    ensures
        i < block_at(text, i, after_para).end <= text.len(),
        content(block_at(text, i, after_para).text) == content(
            text.subrange(i, block_at(text, i, after_para).end),
        ),
{
    lemma_block_at(text, i, after_para);
    lemma_line(text, i);
    let line = line_at(text, i);
    let e = next_line(text, i);
    let blk = block_at(text, i, after_para);
    if blank(line) {
    } else if opened_fence(line) is Some {
    } else if let Some(item) = marker(line) {
        lemma_content_marker(line);
        lemma_content_joined(item.first, text, e);
        lemma_group_end(text, e);
        lemma_content_line(text, i);
        lemma_content_range(text, i, e, blk.end);
        lemma_content_concat(item.prefix, joined(item.first, text, e));
        assert(content(item.prefix) + (content(item.first) + content(
            text.subrange(e, blk.end),
        )) =~= content(item.prefix) + content(item.first) + content(text.subrange(e, blk.end)));
    } else if block_line(line, after_para) {
    } else {
        lemma_content_joined(line, text, e);
        lemma_group_end(text, e);
        lemma_content_line(text, i);
        lemma_content_range(text, i, e, blk.end);
    }
}

/// Markdown reflow of the rest of a text keeps the content of that rest.
proof fn lemma_content_md_from(text: Seq<u8>, i: int, after_para: bool)
    requires
        0 <= i <= text.len(),
    ensures
        content(md_from(text, i, after_para)) == content(text.subrange(i, text.len() as int)),
    decreases text.len() - i,
{
    let n = text.len() as int;
    if i >= n {
        assert(text.subrange(i, n) =~= Seq::<u8>::empty());
    } else {
        let b = block_at(text, i, after_para);
        lemma_content_block(text, i, after_para);
        lemma_content_md_from(text, b.end, b.para);
        lemma_content_concat(b.text, md_from(text, b.end, b.para));
        lemma_content_range(text, i, b.end, n);
    }
}

/// Markdown reflow keeps the content.
pub proof fn lemma_content_markdown(text: Seq<u8>)
    ensures
        content(markdown_reflow(text)) == content(text),
{
    lemma_content_md_from(text, 0, false);
    assert(text.subrange(0, text.len() as int) =~= text);
}

/// Reflow of a text keeps its content, in either mode.
pub proof fn lemma_content_text(text: Seq<u8>, markdown: bool)
    ensures
        content(text_reflow(text, markdown)) == content(text),
{
    lemma_content_markdown(text);
    lemma_content_plain(text);
}

/// A soft wrap replaced by a space leaves the content as it is.
proof fn lemma_content_soft_wrapped(
    body: Seq<u8>,
    src: Seq<u8>,
    at: int,
    markdown: bool,
    held: bool,
)
    ensures
        content(soft_wrapped(body, src, at, markdown, held)) == content(body),
{
    if soft_wrap(body, src, at, markdown, held) {
        let n = body.len() as int;
        let j = run_end(body, 1, Class::SpaceTab);
        lemma_space_tab_run(body, 1);
        assert forall|k: int| 0 <= k < j implies ws(#[trigger] body[k]) by {}
        lemma_content_of_run(body, 0, j);
        lemma_content_range(body, 0, j, n);
        assert(body.subrange(0, n) =~= body);
        lemma_content_one(SPACE);
        lemma_content_concat(seq![SPACE], body.subrange(j, n));
    }
}

/// The reflow of the body of a chunk keeps its content.
proof fn lemma_content_core(body: Seq<u8>, src: Seq<u8>, at: int, markdown: bool, held: bool)
    ensures
        content(core_reflow(body, src, at, markdown, held)) == content(body),
{
    reveal(core_reflow);
    if markdown && def_indent_end(body) is Some {
        let n = body.len() as int;
        let ie = def_indent_end(body).unwrap();
        lemma_space_tab_run(body, 1);
        let rest = body.subrange(ie, n);
        lemma_content_text(rest, markdown);
        assert forall|k: int| 0 <= k < ie implies ws(#[trigger] body[k]) by {}
        lemma_content_of_run(body, 0, ie);
        lemma_content_of_run(body, 1, ie);
        lemma_content_range(body, 0, ie, n);
        assert(body.subrange(0, n) =~= body);
        lemma_content_one(crate::bytes::LF);
        lemma_content_concat3(seq![crate::bytes::LF], body.subrange(1, ie), text_reflow(rest, markdown));
        assert(Seq::<u8>::empty() + Seq::<u8>::empty() + content(rest) =~= Seq::<u8>::empty()
            + content(rest));
    } else {
        lemma_content_soft_wrapped(body, src, at, markdown, held);
        lemma_content_text(soft_wrapped(body, src, at, markdown, held), markdown);
    }
}

/// Reflowed text without its tail keeps its content.
proof fn lemma_content_without_tail(r: Seq<u8>)
    ensures
        content(without_tail(r)) == content(r),
{
    let n = r.len() as int;
    let a = run_start(r, n, Class::SpaceTab);
    lemma_run_start(r, n, Class::SpaceTab);
    assert forall|k: int| a <= k < n implies ws(#[trigger] r[k]) by {
        assert(Class::SpaceTab.has(r[k]));
    }
    if a > 0 && r[a - 1] == crate::bytes::LF {
        let b = run_start(r, a - 1, Class::SpaceTab);
        lemma_run_start(r, a - 1, Class::SpaceTab);
        assert forall|k: int| b <= k < n implies ws(#[trigger] r[k]) by {
            if k < a - 1 {
                assert(Class::SpaceTab.has(r[k]));
            }
        }
        lemma_content_of_run(r, b, n);
        lemma_content_range(r, 0, b, n);
        assert(r.subrange(0, n) =~= r);
        assert(content(r.subrange(0, b)) + Seq::<u8>::empty() =~= content(r.subrange(0, b)));
    } else {
        lemma_content_of_run(r, a, n);
        lemma_content_range(r, 0, a, n);
        assert(r.subrange(0, n) =~= r);
        assert(content(r.subrange(0, a)) + Seq::<u8>::empty() =~= content(r.subrange(0, a)));
    }
}

/// Reflow of a chunk that holds more than whitespace keeps its content.
proof fn lemma_content_edges(
    chunk: Seq<u8>,
    src: Seq<u8>,
    next_lt: int,
    markdown: bool,
    keep_head: bool,
    at: int,
)
    requires
        !ws_only(chunk),
    ensures
        content(edge_reflow(chunk, src, next_lt, markdown, keep_head, at)) == content(chunk),
{
    let n = chunk.len() as int;
    lemma_edges(chunk);
    let head = head_end(chunk, keep_head);
    let tail = tail_start(chunk, keeps_tail(chunk, src, next_lt, markdown, at));
    let body = chunk.subrange(head, tail);
    let core = core_reflow(body, src, at, markdown, keep_head);
    lemma_run_end(chunk, 0, Class::Ws);
    lemma_run_end(chunk, 0, Class::SpaceTab);
    lemma_run_start(chunk, n, Class::Ws);
    lemma_run_start(chunk, n, Class::SpaceTab);
    assert forall|k: int| 0 <= k < head implies ws(#[trigger] chunk[k]) by {
        if keep_head {
            assert(Class::Ws.has(chunk[k]));
        } else {
            assert(Class::SpaceTab.has(chunk[k]));
        }
    }
    assert forall|k: int| tail <= k < n implies ws(#[trigger] chunk[k]) by {
        if keeps_tail(chunk, src, next_lt, markdown, at) {
            assert(Class::Ws.has(chunk[k]));
        } else {
            assert(Class::SpaceTab.has(chunk[k]));
        }
    }
    lemma_content_of_run(chunk, 0, head);
    lemma_content_of_run(chunk, tail, n);
    lemma_content_range(chunk, 0, head, n);
    lemma_content_range(chunk, head, tail, n);
    assert(chunk.subrange(0, n) =~= chunk);
    lemma_content_core(body, src, at, markdown, keep_head);
    lemma_content_without_tail(core);
    lemma_content_one(SPACE);
    lemma_content_concat3(chunk.subrange(0, head), without_tail(core), seq![SPACE]);
    lemma_content_concat3(chunk.subrange(0, head), core, chunk.subrange(tail, n));
    assert(Seq::<u8>::empty() + content(body) + Seq::<u8>::empty() =~= content(body));
    assert(Seq::<u8>::empty() + (content(body) + Seq::<u8>::empty()) =~= content(body));
}

/// Reflow of a run of text keeps its content.
pub proof fn lemma_content_chunk(
    chunk: Seq<u8>,
    src: Seq<u8>,
    next_lt: int,
    markdown: bool,
    after_boundary: bool,
    after_br: bool,
    at: int,
)
    ensures
        content(chunk_reflow(chunk, src, next_lt, markdown, after_boundary, after_br, at))
            == content(chunk),
{
    reveal(chunk_reflow);
    if ws_only(chunk) {
        lemma_run_end(chunk, 0, Class::Ws);
        assert forall|k: int| 0 <= k < chunk.len() implies ws(#[trigger] chunk[k]) by {
            assert(Class::Ws.has(chunk[k]));
        }
        lemma_content_of_ws(chunk);
        lemma_content_one(SPACE);
    } else {
        lemma_content_edges(chunk, src, next_lt, markdown, after_boundary || after_br, at);
    }
}

/// A tag is written out with its content.
proof fn lemma_content_tag_out(src: Seq<u8>, p: int, e: int, keep: bool)
    requires
        0 <= p < e < src.len(),
        src[p] == LT,
        src[e] == GT,
    ensures
        content(tag_out(src.subrange(p, e + 1), keep)) == content(src.subrange(p, e + 1)),
{
    let tag = src.subrange(p, e + 1);
    assert(tag.first() == src[p] && tag.last() == src[e]);
    lemma_content_normalized(tag);
}

/// The step inside a raw-text element keeps the content of what it passes.
proof fn lemma_content_raw_step(src: Seq<u8>, st: State)
    requires
        0 <= st.pos < src.len(),
        st.raw.len() > 0,
    ensures
        content(raw_step(src, st).emit) == content(
            src.subrange(st.pos, raw_step(src, st).next.pos),
        ),
{
    reveal(raw_step);
    let name = st.raw.last();
    lemma_raw_close_from(src, st.pos, name);
    match raw_close_from(src, st.pos, name) {
        Some((p, e)) => {
            lemma_content_tag_out(src, p, e, verbatim(st.open));
            lemma_content_concat(
                src.subrange(st.pos, p),
                tag_out(src.subrange(p, e + 1), verbatim(st.open)),
            );
            lemma_content_range(src, st.pos, p, e + 1);
        },
        None => {},
    }
}

/// The step at a comment keeps the content of what it passes.
proof fn lemma_content_comment_step(src: Seq<u8>, st: State)
    requires
        0 <= st.pos < src.len(),
        comment_at(src, st.pos),
    ensures
        content(comment_step(src, st).emit) == content(
            src.subrange(st.pos, comment_step(src, st).next.pos),
        ),
{
    reveal(comment_step);
    lemma_shut_from(src, st.pos + 4);
    match comment_close(src, st.pos) {
        Some(j) => {
            let seg = src.subrange(st.pos, j + 3);
            assert(seg.subrange(0, 4) =~= src.subrange(st.pos, st.pos + 4));
            assert(seg.subrange(seg.len() - 3, seg.len() as int) =~= comment_shut());
            lemma_content_comment(seg);
        },
        None => {},
    }
}

/// The step at a tag keeps the content of what it passes.
proof fn lemma_content_tag_step(src: Seq<u8>, st: State)
    requires
        0 <= st.pos < src.len(),
        src[st.pos] == LT,
    ensures
        content(tag_step(src, st).emit) == content(
            src.subrange(st.pos, tag_step(src, st).next.pos),
        ),
{
    reveal(tag_step);
    lemma_tag_end_from(src, st.pos + 1, 0);
    match tag_end(src, st.pos) {
        Some(j) => {
            let tag = src.subrange(st.pos, j + 1);
            let t = tag_shape(tag);
            let keep = verbatim(st.open) || (!t.is_end && has_marker(tag));
            lemma_content_tag_out(src, st.pos, j, keep);
            if is_br(tag) && j + 1 < src.len() && src[j + 1] == crate::bytes::LF {
                lemma_content_push(tag_out(tag, keep), crate::bytes::LF);
                assert(src.subrange(st.pos, j + 2) =~= tag.push(crate::bytes::LF));
                lemma_content_push(tag, crate::bytes::LF);
            }
        },
        None => {},
    }
}

/// The step at a run of text keeps the content of what it passes.
proof fn lemma_content_text_step(src: Seq<u8>, st: State, markdown: bool)
    requires
        0 <= st.pos < src.len(),
    ensures
        content(text_step(src, st, markdown).emit) == content(
            src.subrange(st.pos, text_step(src, st, markdown).next.pos),
        ),
{
    reveal(text_step);
    let end = text_end(src, st.pos);
    lemma_content_chunk(
        src.subrange(st.pos, end),
        src,
        end,
        markdown,
        st.after_boundary,
        st.after_br,
        st.pos,
    );
}

/// Every step keeps the content of what it passes over.
pub proof fn lemma_content_step(src: Seq<u8>, st: State, markdown: bool)
    requires
        0 <= st.pos < src.len(),
    ensures
        st.pos < step(src, st, markdown).next.pos <= src.len(),
        content(step(src, st, markdown).emit) == content(
            src.subrange(st.pos, step(src, st, markdown).next.pos),
        ),
{
    lemma_step_advances(src, st, markdown);
    reveal(step);
    if st.raw.len() > 0 {
        lemma_content_raw_step(src, st);
    } else if comment_at(src, st.pos) {
        lemma_content_comment_step(src, st);
    } else if src[st.pos] == LT {
        lemma_content_tag_step(src, st);
    } else {
        lemma_content_text_step(src, st, markdown);
    }
}

/// What the pass writes from a state on holds the content of the rest of
/// the input.
proof fn lemma_content_transformed_from(src: Seq<u8>, st: State, markdown: bool)
    requires
        0 <= st.pos <= src.len(),
    ensures
        content(transformed_from(src, st, markdown)) == content(
            src.subrange(st.pos, src.len() as int),
        ),
    decreases src.len() - st.pos,
{
    let n = src.len() as int;
    if st.pos >= n {
        assert(src.subrange(st.pos, n) =~= Seq::<u8>::empty());
    } else {
        lemma_content_step(src, st, markdown);
        let s = step(src, st, markdown);
        lemma_content_transformed_from(src, s.next, markdown);
        lemma_content_concat(s.emit, transformed_from(src, s.next, markdown));
        lemma_content_range(src, st.pos, s.next.pos, n);
    }
}

/// The transform changes nothing but whitespace: the bytes of the document
/// that are no space, tab, line feed or carriage return come out as they
/// went in, in their order.
pub proof fn lemma_transform_keeps_content(src: Seq<u8>, markdown: bool)
    ensures
        content(transformed(src, markdown)) == content(src),
{
    lemma_content_transformed_from(src, start(), markdown);
    assert(src.subrange(0, src.len() as int) =~= src);
}

} // verus!
