//! Tags: where one ends, what it names, whether it carries the marker
//! attribute, and the whitespace-collapsing rewrite of its interior.

use crate::bytes::{
    append, append_range, contains_lf, eq_ignore_case, has_lf, is_name_char, is_ws, lemma_run_end,
    name_char, run_end, run_start, same_ignoring_case, skip_run, skip_run_back, trim_spaces,
    trimmed_spaces, word, ws, Class, DQUOTE, EQUALS, GT, LT, SLASH, SPACE, SQUOTE,
};
use vstd::prelude::*;

verus! {

/// The quote that is open after `b` is read with quote `q` open (0: none).
pub open spec fn quote_step(q: u8, b: u8) -> u8 {
    if q != 0 {
        if b == q {
            0
        } else {
            q
        }
    } else if b == DQUOTE || b == SQUOTE {
        b
    } else {
        0
    }
}

/// The quote that is open after `s[from..to]` is read, starting outside quotes.
pub open spec fn quote_after(s: Seq<u8>, from: int, to: int) -> u8
    decreases to - from,
{
    if to <= from {
        0
    } else {
        quote_step(quote_after(s, from, to - 1), s[to - 1])
    }
}

/// The first `>` at or after `k` that stands outside quotes, with quote `q`
/// open at `k`.
pub open spec fn tag_end_from(s: Seq<u8>, k: int, q: u8) -> Option<int>
    decreases s.len() - k,
{
    if k < 0 || k >= s.len() {
        None
    } else if q == 0 && s[k] == GT {
        Some(k)
    } else {
        tag_end_from(s, k + 1, quote_step(q, s[k]))
    }
}

/// The index of the `>` that ends the tag opened at `i`.
pub open spec fn tag_end(s: Seq<u8>, i: int) -> Option<int> {
    tag_end_from(s, i + 1, 0)
}

/// The `>` that ends a tag lies inside the input.
pub proof fn lemma_tag_end_from(s: Seq<u8>, k: int, q: u8)
    requires
        0 <= k,
    ensures
        match tag_end_from(s, k, q) {
            Some(e) => k <= e < s.len() && s[e] == GT,
            None => true,
        },
    decreases s.len() - k,
{
    if k < s.len() && !(q == 0 && s[k] == GT) {
        lemma_tag_end_from(s, k + 1, quote_step(q, s[k]));
    }
}

/// A `>` at `k` that stands outside quotes, read from `from` on.
pub open spec fn closes_tag(s: Seq<u8>, from: int, k: int) -> bool {
    0 <= k < s.len() && s[k] == GT && quote_after(s, from, k) == 0
}

/// The scan for the end of a tag stops at the first `>` outside quotes.
proof fn lemma_tag_end_from_first(s: Seq<u8>, from: int, k: int, q: u8)
    requires
        0 <= from <= k,
        q == quote_after(s, from, k),
    ensures
        match tag_end_from(s, k, q) {
            Some(e) => k <= e && closes_tag(s, from, e) && forall|j: int|
                k <= j < e ==> !#[trigger] closes_tag(s, from, j),
            None => forall|j: int| k <= j ==> !#[trigger] closes_tag(s, from, j),
        },
    decreases s.len() - k,
{
    if k < s.len() && !(q == 0 && s[k] == GT) {
        lemma_tag_end_from_first(s, from, k + 1, quote_step(q, s[k]));
    }
}

/// A tag ends at the first `>` behind its `<` that stands outside single
/// and double quotes.
pub proof fn lemma_tag_end_is_first(s: Seq<u8>, i: int)
    requires
        0 <= i,
    ensures
        ({
            let from = i + 1;
            match tag_end(s, i) {
                Some(e) => i < e && closes_tag(s, from, e) && forall|j: int|
                    i < j < e ==> !#[trigger] closes_tag(s, from, j),
                None => forall|j: int| i < j ==> !#[trigger] closes_tag(s, from, j),
            }
        }),
{
    lemma_tag_end_from_first(s, i + 1, i + 1, 0);
}

/// Finds the `>` that ends the tag opened at `i`: the first one outside
/// single or double quotes. `None` when the input ends first.
pub fn find_tag_end(s: &[u8], i: usize) -> (r: Option<usize>)
    ensures
        match r {
            Some(e) => tag_end(s@, i as int) == Some(e as int) && i < e < s.len() && s@[e as int]
                == GT,
            None => tag_end(s@, i as int) is None,
        },
{
    let n = s.len();
    if i >= n {
        return None;
    }
    let mut k: usize = i + 1;
    let mut quote: u8 = 0;
    while k < n
        invariant
            i < k <= n,
            n == s.len(),
            tag_end_from(s@, k as int, quote) == tag_end(s@, i as int),
        decreases n - k,
    {
        let b = s[k];
        if quote != 0 {
            if b == quote {
                quote = 0;
            }
        } else if b == DQUOTE || b == SQUOTE {
            quote = b;
        } else if b == GT {
            return Some(k);
        }
        k += 1;
    }
    None
}

/// What a tag says of itself.
#[derive(Clone, Copy, Debug)]
pub struct TagInfo<'a> {
    /// The tag's name, as written.
    pub name: &'a [u8],
    /// The tag starts with `</`.
    pub is_end: bool,
    /// The last byte before `>` that is no whitespace is `/`.
    pub self_closing: bool,
}

/// The mathematical value of a `TagInfo`.
pub struct TagShape {
    pub name: Seq<u8>,
    pub is_end: bool,
    pub self_closing: bool,
}

impl<'a> View for TagInfo<'a> {
    type V = TagShape;

    open spec fn view(&self) -> TagShape {
        TagShape { name: self.name@, is_end: self.is_end, self_closing: self.self_closing }
    }
}

/// The tag starts with `</`.
pub open spec fn tag_is_end(tag: Seq<u8>) -> bool {
    tag.len() > 1 && tag[1] == SLASH
}

/// Where the name of a tag starts: behind `<`, an optional `/` and
/// whitespace.
pub open spec fn tag_name_start(tag: Seq<u8>) -> int {
    run_end(
        tag,
        if tag_is_end(tag) {
            2
        } else {
            1
        },
        Class::Ws,
    )
}

/// The name of a tag: the first run of name characters behind `<`, an
/// optional `/` and whitespace.
pub open spec fn tag_name(tag: Seq<u8>) -> Seq<u8> {
    if tag.len() == 0 {
        Seq::empty()
    } else {
        tag.subrange(tag_name_start(tag), run_end(tag, tag_name_start(tag), Class::Name))
    }
}

/// The last byte before the final `>` that is no whitespace is `/`.
pub open spec fn tag_self_closing(tag: Seq<u8>) -> bool {
    let j = run_start(tag, tag.len() - 1, Class::Ws);
    tag.len() > 0 && j >= 2 && tag[j - 1] == SLASH
}

/// What a tag says of itself.
pub open spec fn tag_shape(tag: Seq<u8>) -> TagShape {
    TagShape {
        name: tag_name(tag),
        is_end: tag_is_end(tag),
        self_closing: tag_self_closing(tag),
    }
}

/// Reads the name and the two flags off the bytes of one tag, `<` and `>`
/// included.
pub fn parse_tag_info<'a>(tag: &'a [u8]) -> (r: TagInfo<'a>)
    ensures
        r@ == tag_shape(tag@),
{
    let n = tag.len();
    if n == 0 {
        let r = TagInfo { name: tag, is_end: false, self_closing: false };
        assert(r.name@ =~= Seq::<u8>::empty());
        return r;
    }
    let is_end = n > 1 && tag[1] == SLASH;
    let from: usize = if is_end {
        2
    } else {
        1
    };
    let start = skip_run(tag, from, Class::Ws);
    let end = skip_run(tag, start, Class::Name);
    let j = skip_run_back(tag, n - 1, Class::Ws);
    let self_closing = j >= 2 && tag[j - 1] == SLASH;
    TagInfo { name: &tag[start..end], is_end, self_closing }
}

/// The attribute name that marks an element as not to be reflowed.
pub open spec fn marker_name() -> Seq<u8> {
    word("data-noreformat")
}

/// Where the attribute scan goes on behind an attribute name that ends at
/// `e`: behind its value, if it has one.
pub open spec fn attr_value_end(tag: Seq<u8>, e: int) -> int {
    let w = run_end(tag, e, Class::Ws);
    if 0 <= w < tag.len() && tag[w] == EQUALS {
        let v = run_end(tag, w + 1, Class::Ws);
        if v >= tag.len() {
            v
        } else if tag[v] == DQUOTE || tag[v] == SQUOTE {
            let c = run_end(tag, v + 1, Class::Except(tag[v]));
            if c < tag.len() {
                c + 1
            } else {
                c
            }
        } else {
            run_end(tag, v, Class::Bare)
        }
    } else {
        w
    }
}

/// The scan behind an attribute name moves on inside the tag.
pub proof fn lemma_attr_value_end(tag: Seq<u8>, e: int)
    requires
        0 <= e <= tag.len(),
    ensures
        e <= attr_value_end(tag, e) <= tag.len(),
{
    lemma_run_end(tag, e, Class::Ws);
    let w = run_end(tag, e, Class::Ws);
    if w < tag.len() && tag[w] == EQUALS {
        lemma_run_end(tag, w + 1, Class::Ws);
        let v = run_end(tag, w + 1, Class::Ws);
        if v < tag.len() {
            lemma_run_end(tag, v + 1, Class::Except(tag[v]));
            lemma_run_end(tag, v, Class::Bare);
        }
    }
}

/// Whether an attribute named like the marker is found from `i` on.
pub open spec fn marker_from(tag: Seq<u8>, i: int) -> bool
    decreases tag.len() - i,
{
    if i < 0 || i >= tag.len() || tag[i] == GT {
        false
    } else {
        let a = run_end(tag, i, Class::WsSlash);
        if a >= tag.len() || tag[a] == GT {
            false
        } else if !name_char(tag[a]) {
            proof {
                lemma_run_end(tag, i, Class::WsSlash);
            }
            marker_from(tag, a + 1)
        } else {
            let e = run_end(tag, a + 1, Class::Name);
            if same_ignoring_case(tag.subrange(a, e), marker_name()) {
                true
            } else {
                proof {
                    lemma_run_end(tag, i, Class::WsSlash);
                    lemma_run_end(tag, a + 1, Class::Name);
                    lemma_attr_value_end(tag, e);
                }
                marker_from(tag, attr_value_end(tag, e))
            }
        }
    }
}

/// Whether a tag carries the marker attribute. The scan is lenient: a name,
/// then optionally `=` and a quoted or bare value, as often as it goes; what
/// fits nowhere is stepped over.
#[verifier::opaque]
pub open spec fn has_marker(tag: Seq<u8>) -> bool {
    tag.len() >= 2 && marker_from(tag, 1)
}

/// Where the attribute scan goes on behind an attribute name that ends at
/// `e`.
fn skip_attr_value(tag: &[u8], e: usize) -> (r: usize)
    requires
        e <= tag.len(),
    ensures
        r == attr_value_end(tag@, e as int),
        e <= r <= tag.len(),
{
    let len = tag.len();
    let w = skip_run(tag, e, Class::Ws);
    if w < len && tag[w] == EQUALS {
        let v = skip_run(tag, w + 1, Class::Ws);
        if v >= len {
            v
        } else if tag[v] == DQUOTE || tag[v] == SQUOTE {
            let c = skip_run(tag, v + 1, Class::Except(tag[v]));
            if c < len {
                c + 1
            } else {
                c
            }
        } else {
            skip_run(tag, v, Class::Bare)
        }
    } else {
        w
    }
}

/// Whether the tag carries the marker attribute `data-noreformat`.
pub fn tag_has_noreformat_attr(tag: &[u8]) -> (r: bool)
    ensures
        r == has_marker(tag@),
{
    reveal(has_marker);
    let len = tag.len();
    if len < 2 {
        return false;
    }
    let marker = "data-noreformat".as_bytes();
    let mut i: usize = 1;
    while i < len && tag[i] != GT
        invariant
            1 <= i <= len,
            len == tag.len(),
            marker@ == marker_name(),
            marker_from(tag@, i as int) == has_marker(tag@),
        decreases len - i,
    {
        let a = skip_run(tag, i, Class::WsSlash);
        if a >= len || tag[a] == GT {
            return false;
        }
        if !is_name_char(tag[a]) {
            i = a + 1;
            continue;
        }
        let e = skip_run(tag, a + 1, Class::Name);
        if eq_ignore_case(&tag[a..e], marker) {
            return true;
        }
        i = skip_attr_value(tag, e);
    }
    false
}

/// `buf` with a space at its end, unless one is there.
pub open spec fn push_space_once(buf: Seq<u8>) -> Seq<u8> {
    if buf.len() > 0 && buf.last() == SPACE {
        buf
    } else {
        buf.push(SPACE)
    }
}

/// What the rewrite of a tag's interior makes of `inner[i..]`, behind what it
/// has made so far (`buf`), with quote `q` open (0: none).
///
/// Outside quotes a run of whitespace becomes one space, or nothing where it
/// holds a line feed and touches `=`. Inside quotes a run that holds a line
/// feed becomes one space, and any other run stays.
pub open spec fn norm_from(inner: Seq<u8>, i: int, q: u8, buf: Seq<u8>) -> Seq<u8>
    decreases inner.len() - i,
{
    if i < 0 || i >= inner.len() {
        buf
    } else {
        let b = inner[i];
        let j = run_end(inner, i, Class::Ws);
        if q != 0 && b == q {
            norm_from(inner, i + 1, 0, buf.push(b))
        } else if q != 0 && ws(b) {
            proof {
                lemma_run_end(inner, i, Class::Ws);
            }
            if has_lf(inner, i, j) {
                norm_from(inner, j, q, push_space_once(buf))
            } else {
                norm_from(inner, j, q, buf + inner.subrange(i, j))
            }
        } else if q != 0 {
            norm_from(inner, i + 1, q, buf.push(b))
        } else if b == DQUOTE || b == SQUOTE {
            norm_from(inner, i + 1, b, buf.push(b))
        } else if ws(b) {
            proof {
                lemma_run_end(inner, i, Class::Ws);
            }
            if has_lf(inner, i, j) && (touches_equals(inner, i, j)) {
                norm_from(inner, j, 0, buf)
            } else {
                norm_from(inner, j, 0, push_space_once(buf))
            }
        } else {
            norm_from(inner, i + 1, 0, buf.push(b))
        }
    }
}

/// The byte just before `i` or the byte at `j` is `=`.
pub open spec fn touches_equals(inner: Seq<u8>, i: int, j: int) -> bool {
    (0 < i <= inner.len() && inner[i - 1] == EQUALS) || (0 <= j < inner.len() && inner[j]
        == EQUALS)
}

/// The interior of a tag after the rewrite.
pub open spec fn normalized_inner(inner: Seq<u8>) -> Seq<u8> {
    trimmed_spaces(norm_from(inner, 0, 0, Seq::empty()))
}

/// A tag after the rewrite of its interior. Fewer than two bytes are no tag
/// and stay as they are.
#[verifier::opaque]
pub open spec fn normalized_tag(tag: Seq<u8>) -> Seq<u8> {
    if tag.len() < 2 {
        tag
    } else {
        seq![LT] + normalized_inner(tag.subrange(1, tag.len() - 1)) + seq![GT]
    }
}

/// Puts a space at the end of `buf`, unless one is there.
fn push_space(buf: &mut Vec<u8>)
    ensures
        final(buf)@ == push_space_once(old(buf)@),
{
    let n = buf.len();
    if n == 0 || buf[n - 1] != SPACE {
        buf.push(SPACE);
    }
}

/// Appends `tag` to `out` with the whitespace of its interior collapsed.
pub fn normalize_inside_tag(tag: &[u8], out: &mut Vec<u8>)
    ensures
        final(out)@ == old(out)@ + normalized_tag(tag@),
{
    reveal(normalized_tag);
    if tag.len() < 2 {
        append(out, tag);
        return;
    }
    let inner = &tag[1..tag.len() - 1];
    let n = inner.len();
    let mut buf: Vec<u8> = Vec::new();
    let mut i: usize = 0;
    let mut quote: u8 = 0;
    while i < n
        invariant
            i <= n,
            n == inner.len(),
            norm_from(inner@, i as int, quote, buf@) == norm_from(inner@, 0, 0, Seq::empty()),
        decreases n - i,
    {
        let b = inner[i];
        if quote != 0 && b == quote {
            buf.push(b);
            quote = 0;
            i += 1;
        } else if is_ws(b) {
            let j = skip_run(inner, i, Class::Ws);
            proof {
                lemma_run_end(inner@, i as int, Class::Ws);
            }
            let saw_nl = contains_lf(inner, i, j);
            if quote != 0 {
                if saw_nl {
                    push_space(&mut buf);
                } else {
                    append_range(&mut buf, inner, i, j);
                }
            } else {
                let left: u8 = if i > 0 {
                    inner[i - 1]
                } else {
                    0
                };
                let right: u8 = if j < n {
                    inner[j]
                } else {
                    0
                };
                if saw_nl && (left == EQUALS || right == EQUALS) {
                } else {
                    push_space(&mut buf);
                }
            }
            i = j;
        } else {
            if quote == 0 && (b == DQUOTE || b == SQUOTE) {
                quote = b;
            }
            buf.push(b);
            i += 1;
        }
    }
    trim_spaces(&mut buf);
    let ghost before = out@;
    out.push(LT);
    append(out, buf.as_slice());
    out.push(GT);
    assert(out@ =~= before + (seq![LT] + buf@ + seq![GT]));
}

/// No two spaces in a row stand outside quotes in `s`, read from outside
/// quotes.
pub open spec fn single_spaced(s: Seq<u8>) -> bool {
    forall|k: int|
        0 <= k && k + 1 < s.len() && s[k] == SPACE && s[k + 1] == SPACE ==> #[trigger] quote_after(
            s,
            0,
            k + 1,
        ) != 0
}

/// The open quote depends on the bytes that are read alone.
proof fn lemma_quote_after_same(s: Seq<u8>, t: Seq<u8>, from: int, to: int)
    requires
        0 <= from,
        to <= s.len(),
        to <= t.len(),
        forall|k: int| from <= k < to ==> s[k] == t[k],
    ensures
        quote_after(s, from, to) == quote_after(t, from, to),
    decreases to - from,
{
    if from < to {
        lemma_quote_after_same(s, t, from, to - 1);
    }
}

/// Whitespace neither opens nor closes a quote.
proof fn lemma_quote_after_spaces(s: Seq<u8>, a: int, to: int, q: u8)
    requires
        0 <= a <= to <= s.len(),
        quote_after(s, 0, a) == q,
        q == 0 || q == DQUOTE || q == SQUOTE,
        forall|k: int| a <= k < to ==> ws(#[trigger] s[k]),
    ensures
        quote_after(s, 0, to) == q,
    decreases to - a,
{
    if a < to {
        lemma_quote_after_spaces(s, a, to - 1, q);
        assert(ws(s[to - 1]));
    }
}

/// Reading a range from outside quotes is reading it on its own.
proof fn lemma_quote_after_shift(s: Seq<u8>, a: int, b: int, m: int)
    requires
        0 <= a <= b <= s.len(),
        0 <= m <= b - a,
        quote_after(s, 0, a) == 0,
    ensures
        quote_after(s.subrange(a, b), 0, m) == quote_after(s, 0, a + m),
    decreases m,
{
    if m > 0 {
        lemma_quote_after_shift(s, a, b, m - 1);
        assert(s.subrange(a, b)[m - 1] == s[a + m - 1]);
    }
}

/// What the rewrite keeps true of its buffer: `q` is the quote open at its
/// end, and it is single-spaced.
spec fn norm_inv(buf: Seq<u8>, q: u8) -> bool {
    &&& q == 0 || q == DQUOTE || q == SQUOTE
    &&& quote_after(buf, 0, buf.len() as int) == q
    &&& single_spaced(buf)
}

/// A byte at the end that makes no second space keeps the buffer
/// single-spaced.
proof fn lemma_inv_push(buf: Seq<u8>, q: u8, b: u8)
    requires
        norm_inv(buf, q),
        b != SPACE || buf.len() == 0 || buf.last() != SPACE,
    ensures
        norm_inv(buf.push(b), quote_step(q, b)),
{
    let nb = buf.push(b);
    lemma_quote_after_same(buf, nb, 0, buf.len() as int);
    assert forall|k: int|
        0 <= k && k + 1 < nb.len() && nb[k] == SPACE && nb[k + 1] == SPACE implies #[trigger] quote_after(
        nb,
        0,
        k + 1,
    ) != 0 by {
        assert(k + 1 < buf.len());
        assert(buf[k] == SPACE && buf[k + 1] == SPACE);
        lemma_quote_after_same(buf, nb, 0, k + 1);
    }
}

/// A space put at the end once keeps the buffer single-spaced.
proof fn lemma_inv_space_once(buf: Seq<u8>, q: u8)
    requires
        norm_inv(buf, q),
    ensures
        norm_inv(push_space_once(buf), q),
{
    if !(buf.len() > 0 && buf.last() == SPACE) {
        lemma_inv_push(buf, q, SPACE);
    }
}

/// Whitespace put at the end inside quotes keeps the buffer single-spaced.
proof fn lemma_inv_quoted_run(buf: Seq<u8>, q: u8, run: Seq<u8>)
    requires
        norm_inv(buf, q),
        q != 0,
        forall|k: int| 0 <= k < run.len() ==> ws(#[trigger] run[k]),
    ensures
        norm_inv(buf + run, q),
{
    let nb = buf + run;
    lemma_quote_after_same(buf, nb, 0, buf.len() as int);
    assert forall|k: int| buf.len() <= k < nb.len() implies ws(#[trigger] nb[k]) by {
        assert(nb[k] == run[k - buf.len()]);
    }
    lemma_quote_after_spaces(nb, buf.len() as int, nb.len() as int, q);
    assert forall|k: int|
        0 <= k && k + 1 < nb.len() && nb[k] == SPACE && nb[k + 1] == SPACE implies #[trigger] quote_after(
        nb,
        0,
        k + 1,
    ) != 0 by {
        if k + 1 < buf.len() {
            assert(buf[k] == SPACE && buf[k + 1] == SPACE);
            lemma_quote_after_same(buf, nb, 0, k + 1);
        } else {
            lemma_quote_after_spaces(nb, buf.len() as int, k + 1, q);
        }
    }
}

/// The rewrite makes a single-spaced buffer of a single-spaced buffer.
proof fn lemma_norm_single_spaced(inner: Seq<u8>, i: int, q: u8, buf: Seq<u8>)
    requires
        0 <= i,
        norm_inv(buf, q),
    ensures
        single_spaced(norm_from(inner, i, q, buf)),
    decreases inner.len() - i,
{
    if i < inner.len() {
        let b = inner[i];
        let j = run_end(inner, i, Class::Ws);
        lemma_run_end(inner, i, Class::Ws);
        if q != 0 && b == q {
            lemma_inv_push(buf, q, b);
            lemma_norm_single_spaced(inner, i + 1, 0, buf.push(b));
        } else if q != 0 && ws(b) {
            if has_lf(inner, i, j) {
                lemma_inv_space_once(buf, q);
                lemma_norm_single_spaced(inner, j, q, push_space_once(buf));
            } else {
                lemma_inv_quoted_run(buf, q, inner.subrange(i, j));
                lemma_norm_single_spaced(inner, j, q, buf + inner.subrange(i, j));
            }
        } else if q != 0 {
            lemma_inv_push(buf, q, b);
            lemma_norm_single_spaced(inner, i + 1, q, buf.push(b));
        } else if b == DQUOTE || b == SQUOTE {
            lemma_inv_push(buf, q, b);
            lemma_norm_single_spaced(inner, i + 1, b, buf.push(b));
        } else if ws(b) {
            if has_lf(inner, i, j) && touches_equals(inner, i, j) {
                lemma_norm_single_spaced(inner, j, 0, buf);
            } else {
                lemma_inv_space_once(buf, q);
                lemma_norm_single_spaced(inner, j, 0, push_space_once(buf));
            }
        } else {
            lemma_inv_push(buf, q, b);
            lemma_norm_single_spaced(inner, i + 1, 0, buf.push(b));
        }
    }
}

/// Trimming the spaces off both ends keeps a byte string single-spaced.
proof fn lemma_trimmed_single_spaced(buf: Seq<u8>)
    requires
        single_spaced(buf),
    ensures
        single_spaced(trimmed_spaces(buf)),
{
    let a = run_end(buf, 0, Class::Only(SPACE));
    let b = run_start(buf, buf.len() as int, Class::Only(SPACE));
    lemma_run_end(buf, 0, Class::Only(SPACE));
    crate::bytes::lemma_run_start(buf, buf.len() as int, Class::Only(SPACE));
    if a < b {
        let t = buf.subrange(a, b);
        assert forall|k: int| 0 <= k < a implies ws(#[trigger] buf[k]) by {
            assert(Class::Only(SPACE).has(buf[k]));
        }
        lemma_quote_after_spaces(buf, 0, a, 0);
        assert forall|k: int|
            0 <= k && k + 1 < t.len() && t[k] == SPACE && t[k + 1] == SPACE implies #[trigger] quote_after(
            t,
            0,
            k + 1,
        ) != 0 by {
            assert(buf[a + k] == SPACE && buf[a + k + 1] == SPACE);
            assert(quote_after(buf, 0, a + k + 1) != 0);
            lemma_quote_after_shift(buf, a, b, k + 1);
        }
    }
}

/// The interior of a rewritten tag never holds two spaces in a row outside
/// quotes.
pub proof fn lemma_normalized_single_spaced(tag: Seq<u8>)
    requires
        tag.len() >= 2,
    ensures
        normalized_tag(tag).len() >= 2,
        normalized_tag(tag).first() == LT,
        normalized_tag(tag).last() == GT,
        normalized_tag(tag).subrange(1, normalized_tag(tag).len() - 1) == normalized_inner(
            tag.subrange(1, tag.len() - 1),
        ),
        single_spaced(normalized_inner(tag.subrange(1, tag.len() - 1))),
{
    reveal(normalized_tag);
    let inner = tag.subrange(1, tag.len() - 1);
    lemma_norm_single_spaced(inner, 0, 0, Seq::empty());
    lemma_trimmed_single_spaced(norm_from(inner, 0, 0, Seq::empty()));
    let t = normalized_tag(tag);
    assert(t.subrange(1, t.len() - 1) =~= normalized_inner(inner));
}

} // verus!
