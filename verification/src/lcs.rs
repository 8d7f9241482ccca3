//! Longest-common-subsequence length: the specification and the
//! dynamic-programming table builder.

use vstd::prelude::*;

use crate::basic::DiffElem;
use crate::basic::DiffElemSpec;

verus! {

/// Length of the longest common subsequence of `a` and `b`, with respect to
/// the element equivalence `eqv`.
pub open spec fn lcs_len<T: DiffElemSpec>(a: Seq<T>, b: Seq<T>) -> nat
    decreases a.len() + b.len(),
{
    if a.len() == 0 || b.len() == 0 {
        0
    } else if a.last().eqv(&b.last()) {
        lcs_len(a.drop_last(), b.drop_last()) + 1
    } else {
        let r1 = lcs_len(a.drop_last(), b);
        let r2 = lcs_len(a, b.drop_last());
        if r1 >= r2 {
            r1
        } else {
            r2
        }
    }
}

/// The LCS of two sequences is no longer than either of them.
pub proof fn lemma_lcs_le<T: DiffElemSpec>(a: Seq<T>, b: Seq<T>)
    ensures
        lcs_len(a, b) <= a.len(),
        lcs_len(a, b) <= b.len(),
    decreases a.len() + b.len(),
{
    if a.len() == 0 || b.len() == 0 {
    } else if a.last().eqv(&b.last()) {
        lemma_lcs_le(a.drop_last(), b.drop_last());
    } else {
        lemma_lcs_le(a.drop_last(), b);
        lemma_lcs_le(a, b.drop_last());
    }
}

} // verus!

verus! {

/// Build the `(len(a)+1) x (len(b)+1)` table whose cell `(i, j)` holds the
/// length of the longest common subsequence of `a.take(i)` and `b.take(j)`:
/// the standard row-major dynamic-programming fill.
#[verifier::loop_isolation(false)]
#[verifier::rlimit(100)]
pub fn lcs_table<T: DiffElem>(a: &[T], b: &[T]) -> (t: Vec<Vec<usize>>)
    ensures
        t@.len() == a@.len() + 1,
        forall|i: int| 0 <= i < t@.len() ==> (#[trigger] t@[i])@.len() == b@.len() + 1,
        forall|i: int, j: int|
            0 <= i < t@.len() && 0 <= j <= b@.len() ==> #[trigger] t@[i]@[j] == lcs_len(
                a@.take(i),
                b@.take(j),
            ),
{
    let m = a.len();
    let n = b.len();
    let mut t: Vec<Vec<usize>> = Vec::new();
    let mut row0: Vec<usize> = Vec::new();
    while row0.len() <= n
        invariant
            row0@.len() <= n + 1,
            forall|j: int| 0 <= j < row0@.len() ==> row0@[j] == 0,
        decreases n + 1 - row0@.len(),
    {
        row0.push(0);
    }
    proof {
        assert forall|j: int| 0 <= j <= n implies #[trigger] lcs_len(a@.take(0), b@.take(j))
            == 0 by {
            assert(a@.take(0).len() == 0);
        }
    }
    t.push(row0);
    while t.len() <= m
        invariant
            1 <= t@.len() <= m + 1,
            forall|i: int| 0 <= i < t@.len() ==> (#[trigger] t@[i])@.len() == n + 1,
            forall|i: int, j: int|
                0 <= i < t@.len() && 0 <= j <= n ==> #[trigger] t@[i]@[j] == lcs_len(
                    a@.take(i),
                    b@.take(j),
                ),
        decreases m + 1 - t@.len(),
    {
        let i = t.len();
        let mut row: Vec<usize> = Vec::new();
        row.push(0);
        proof {
            assert(b@.take(0).len() == 0);
            assert(lcs_len(a@.take(i as int), b@.take(0)) == 0);
        }
        while row.len() <= n
            invariant
                1 <= row@.len() <= n + 1,
                i == t@.len(),
                forall|j: int|
                    0 <= j < row@.len() ==> #[trigger] row@[j] == lcs_len(
                        a@.take(i as int),
                        b@.take(j),
                    ),
            decreases n + 1 - row@.len(),
        {
            let j = row.len();
            proof {
                assert(a@.take(i as int).drop_last() =~= a@.take(i as int - 1));
                assert(b@.take(j as int).drop_last() =~= b@.take(j as int - 1));
                assert(a@.take(i as int).last() == a@[i as int - 1]);
                assert(b@.take(j as int).last() == b@[j as int - 1]);
            }
            let c: usize;
            if a[i - 1].eq_elem(&b[j - 1]) {
                let prev = t[i - 1][j - 1];
                proof {
                    lemma_lcs_le(a@.take(i as int - 1), b@.take(j as int - 1));
                }
                c = prev + 1;
                proof {
                    assert(lcs_len(a@.take(i as int), b@.take(j as int)) == lcs_len(
                        a@.take(i as int - 1),
                        b@.take(j as int - 1),
                    ) + 1);
                }
            } else {
                let up = t[i - 1][j];
                let left = row[j - 1];
                c = if up >= left {
                    up
                } else {
                    left
                };
                proof {
                    assert(lcs_len(a@.take(i as int), b@.take(j as int)) == if lcs_len(
                        a@.take(i as int - 1),
                        b@.take(j as int),
                    ) >= lcs_len(a@.take(i as int), b@.take(j as int - 1)) {
                        lcs_len(a@.take(i as int - 1), b@.take(j as int))
                    } else {
                        lcs_len(a@.take(i as int), b@.take(j as int - 1))
                    });
                }
            }
            row.push(c);
        }
        t.push(row);
    }
    t
}

} // verus!
