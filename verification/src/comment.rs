//! Comments: where one ends, whether it stands alone on its line, and the
//! reflow of one that does not.

use crate::bytes::{
    after_last, append, find_from, lemma_run_end, run_start, skip_run_back, start_after_last,
    Class, BANG, DASH, GT, LF, LT,
};
use crate::plain::{fold_into, plain_reflow};
use vstd::prelude::*;

verus! {

/// `<!--`
pub open spec fn comment_open() -> Seq<u8> {
    seq![LT, BANG, DASH, DASH]
}

/// `-->`
pub open spec fn comment_shut() -> Seq<u8> {
    seq![DASH, DASH, GT]
}

/// `s[i..]` starts with `<!--`.
pub open spec fn comment_at(s: Seq<u8>, i: int) -> bool {
    0 <= i && i + 4 <= s.len() && s.subrange(i, i + 4) == comment_open()
}

/// `s[j..]` starts with `-->`.
pub open spec fn shut_at(s: Seq<u8>, j: int) -> bool {
    0 <= j && j + 2 < s.len() && s[j] == DASH && s[j + 1] == DASH && s[j + 2] == GT
}

/// The first index at or after `k` where `-->` starts.
pub open spec fn shut_from(s: Seq<u8>, k: int) -> Option<int>
    decreases s.len() - k,
{
    if k < 0 || k + 2 >= s.len() {
        None
    } else if shut_at(s, k) {
        Some(k)
    } else {
        shut_from(s, k + 1)
    }
}

/// Where the `-->` starts that ends the comment opened at `i`.
pub open spec fn comment_close(s: Seq<u8>, i: int) -> Option<int> {
    shut_from(s, i + 4)
}

/// A comment that opens at `i` and whose `-->` starts at `j` stands alone:
/// only spaces and tabs come before it on its line, and a line feed follows
/// it at once.
pub open spec fn comment_standalone(s: Seq<u8>, i: int, j: int) -> bool {
    &&& run_start(s, i, Class::SpaceTab) <= after_last(s, i, LF)
    &&& j + 3 < s.len() && s[j + 3] == LF
}

/// A comment ends at the first `-->` behind its `<!--`.
pub proof fn lemma_shut_from(s: Seq<u8>, k: int)
    requires
        0 <= k,
    ensures
        match shut_from(s, k) {
            Some(j) => k <= j && shut_at(s, j) && forall|p: int|
                k <= p < j ==> !#[trigger] shut_at(s, p),
            None => forall|p: int| k <= p ==> !#[trigger] shut_at(s, p),
        },
    decreases s.len() - k,
{
    if k + 2 < s.len() && !shut_at(s, k) {
        lemma_shut_from(s, k + 1);
    }
}

/// No `-->` starts where no `-` stands.
proof fn lemma_shut_skip(s: Seq<u8>, k: int, j: int)
    requires
        0 <= k <= j,
        forall|p: int| k <= p < j && p < s.len() ==> s[p] != DASH,
    ensures
        shut_from(s, k) == shut_from(s, j),
    decreases j - k,
{
    if k < j {
        lemma_shut_skip(s, k + 1, j);
        if k + 2 >= s.len() {
            assert(shut_from(s, k) is None);
            lemma_shut_none(s, k + 1);
            lemma_shut_none(s, j);
        }
    }
}

/// No `-->` starts within the last two bytes.
proof fn lemma_shut_none(s: Seq<u8>, k: int)
    requires
        k + 2 >= s.len(),
    ensures
        shut_from(s, k) is None,
{
}

/// Scans the comment that opens at `i`. Returns the index at which its
/// `-->` starts and whether it stands alone on its line; `usize::MAX` and
/// `false` when the comment is never closed.
pub fn scan_comment(s: &[u8], i: usize) -> (r: (usize, bool))
    ensures
        match comment_close(s@, i as int) {
            Some(j) => r.0 == j && j + 2 < s.len() && i + 4 <= j && r.1 == comment_standalone(
                s@,
                i as int,
                j,
            ),
            None => r.0 == usize::MAX && !r.1,
        },
{
    let n = s.len();
    if n < 4 || i > n - 4 {
        return (usize::MAX, false);
    }
    let mut k: usize = i + 4;
    loop
        invariant
            i + 4 <= k <= n,
            n == s.len(),
            shut_from(s@, k as int) == comment_close(s@, i as int),
        decreases n - k,
    {
        match find_from(s, k, DASH) {
            Some(j) => {
                proof {
                    lemma_run_end(s@, k as int, Class::Except(DASH));
                    assert forall|p: int| k <= p < j && p < s.len() implies s@[p] != DASH by {
                        assert(Class::Except(DASH).has(s@[p]));
                    }
                    lemma_shut_skip(s@, k as int, j as int);
                }
                if j < n - 2 && s[j + 1] == DASH && s[j + 2] == GT {
                    let line_start = start_after_last(s, i, LF);
                    let ws_start = skip_run_back(s, i, Class::SpaceTab);
                    let only_ws = ws_start <= line_start;
                    let next_is_lf = j + 3 < n && s[j + 3] == LF;
                    return (j, only_ws && next_is_lf);
                }
                k = j + 1;
            },
            None => {
                proof {
                    lemma_run_end(s@, k as int, Class::Except(DASH));
                    assert forall|p: int| k <= p < n && p < s.len() implies s@[p] != DASH by {
                        assert(Class::Except(DASH).has(s@[p]));
                    }
                    lemma_shut_skip(s@, k as int, n as int);
                }
                return (usize::MAX, false);
            },
        }
    }
}

/// A comment with the whitespace of its interior reflowed: each run of
/// spaces, tabs and line feeds that holds a line feed becomes one space.
/// Fewer than seven bytes are no comment and stay as they are.
pub open spec fn inline_comment(comment: Seq<u8>) -> Seq<u8> {
    if comment.len() < 7 {
        comment
    } else {
        comment_open() + plain_reflow(comment.subrange(4, comment.len() - 3)) + comment_shut()
    }
}

/// Appends the comment `comment`, `<!--` and `-->` included, to `out` with
/// its interior reflowed.
pub fn reflow_inline_comment(comment: &[u8], out: &mut Vec<u8>)
    ensures
        final(out)@ == old(out)@ + inline_comment(comment@),
{
    if comment.len() < 7 {
        append(out, comment);
        return;
    }
    let ghost before = out@;
    out.push(LT);
    out.push(BANG);
    out.push(DASH);
    out.push(DASH);
    fold_into(&comment[4..comment.len() - 3], out);
    out.push(DASH);
    out.push(DASH);
    out.push(GT);
    assert(out@ =~= before + inline_comment(comment@));
}

} // verus!
