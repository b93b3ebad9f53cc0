//! Plain reflow of text: every run of whitespace that holds a line feed
//! becomes one space.

use crate::bytes::{
    append_range, contains_lf, has_lf, lemma_run_end, run_end, skip_run, Class, LF, SPACE,
};
use vstd::prelude::*;

verus! {

/// The reflow of `text[i..]`, where `i` is no inner point of a run of spaces,
/// tabs and line feeds. A run that holds a line feed becomes one space; every
/// other byte stays.
pub open spec fn folded_from(text: Seq<u8>, i: int) -> Seq<u8>
    decreases text.len() - i,
{
    if i < 0 || i >= text.len() {
        Seq::empty()
    } else if Class::Fold.has(text[i]) {
        let j = run_end(text, i, Class::Fold);
        proof {
            lemma_run_end(text, i, Class::Fold);
        }
        if has_lf(text, i, j) {
            seq![SPACE] + folded_from(text, j)
        } else {
            text.subrange(i, j) + folded_from(text, j)
        }
    } else {
        seq![text[i]] + folded_from(text, i + 1)
    }
}

/// Text with each run of spaces, tabs and line feeds that holds a line feed
/// replaced by one space.
pub open spec fn plain_reflow(text: Seq<u8>) -> Seq<u8> {
    folded_from(text, 0)
}

/// No byte of `s` is a line feed.
pub open spec fn no_lf(s: Seq<u8>) -> bool {
    forall|k: int| 0 <= k < s.len() ==> s[k] != LF
}

/// Plain reflow leaves no line feed behind.
pub proof fn lemma_folded_no_lf(text: Seq<u8>, i: int)
    requires
        0 <= i,
    ensures
        no_lf(folded_from(text, i)),
    decreases text.len() - i,
{
    if i < text.len() {
        if Class::Fold.has(text[i]) {
            let j = run_end(text, i, Class::Fold);
            lemma_run_end(text, i, Class::Fold);
            lemma_folded_no_lf(text, j);
            if !has_lf(text, i, j) {
                assert forall|k: int| 0 <= k < j - i implies text.subrange(i, j)[k] != LF by {
                    assert(text.subrange(i, j)[k] == text[i + k]);
                }
            }
        } else {
            lemma_folded_no_lf(text, i + 1);
        }
    }
}

/// Text without a line feed is its own plain reflow.
pub proof fn lemma_folded_without_lf(text: Seq<u8>, i: int)
    requires
        0 <= i <= text.len(),
        no_lf(text),
    ensures
        folded_from(text, i) == text.subrange(i, text.len() as int),
    decreases text.len() - i,
{
    if i < text.len() {
        if Class::Fold.has(text[i]) {
            let j = run_end(text, i, Class::Fold);
            lemma_run_end(text, i, Class::Fold);
            lemma_folded_without_lf(text, j);
            assert(text.subrange(i, j) + text.subrange(j, text.len() as int) =~= text.subrange(
                i,
                text.len() as int,
            ));
        } else {
            lemma_folded_without_lf(text, i + 1);
            assert(seq![text[i]] + text.subrange(i + 1, text.len() as int) =~= text.subrange(
                i,
                text.len() as int,
            ));
        }
    } else {
        assert(text.subrange(i, text.len() as int) =~= Seq::<u8>::empty());
    }
}

/// Plain reflow is idempotent.
pub proof fn lemma_plain_reflow_idempotent(text: Seq<u8>)
    ensures
        plain_reflow(plain_reflow(text)) == plain_reflow(text),
{
    let once = plain_reflow(text);
    lemma_folded_no_lf(text, 0);
    lemma_folded_without_lf(once, 0);
    assert(once.subrange(0, once.len() as int) =~= once);
}

/// Appends the plain reflow of `text` to `out`.
pub fn fold_into(text: &[u8], out: &mut Vec<u8>)
    ensures
        final(out)@ == old(out)@ + plain_reflow(text@),
{
    let n = text.len();
    let mut i: usize = 0;
    while i < n
        invariant
            i <= n,
            n == text.len(),
            out@ + folded_from(text@, i as int) == old(out)@ + plain_reflow(text@),
        decreases n - i,
    {
        let ghost before = out@;
        let b = text[i];
        if Class::Fold.contains(b) {
            let j = skip_run(text, i, Class::Fold);
            proof {
                lemma_run_end(text@, i as int, Class::Fold);
            }
            if contains_lf(text, i, j) {
                out.push(SPACE);
                assert(out@ =~= before + seq![SPACE]);
            } else {
                append_range(out, text, i, j);
            }
            assert(out@ + folded_from(text@, j as int) =~= before + folded_from(text@, i as int));
            i = j;
        } else {
            out.push(b);
            assert(out@ + folded_from(text@, i + 1) =~= before + folded_from(text@, i as int));
            i += 1;
        }
    }
    assert(out@ + Seq::<u8>::empty() =~= out@);
}

/// The plain reflow of `text`.
pub fn reflow_plain_text(text: &[u8]) -> (r: Vec<u8>)
    ensures
        r@ == plain_reflow(text@),
{
    let mut out: Vec<u8> = Vec::with_capacity(text.len());
    fold_into(text, &mut out);
    assert(Seq::<u8>::empty() + plain_reflow(text@) =~= plain_reflow(text@));
    out
}

} // verus!
