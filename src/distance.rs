//! Edit distance between code-point sequences.

use vstd::prelude::*;

verus! {

pub open spec fn min_of(x: nat, y: nat) -> nat {
    if x <= y {
        x
    } else {
        y
    }
}

/// The Levenshtein distance: the least number of single code-point
/// insertions, deletions and substitutions that turn `a` into `b`.
pub open spec fn lev(a: Seq<u32>, b: Seq<u32>) -> nat
    decreases a.len() + b.len(),
{
    if a.len() == 0 {
        b.len()
    } else if b.len() == 0 {
        a.len()
    } else {
        let cost: nat = if a.last() == b.last() {
            0
        } else {
            1
        };
        min_of(
            lev(a.drop_last(), b.drop_last()) + cost,
            min_of(lev(a.drop_last(), b) + 1, lev(a, b.drop_last()) + 1),
        )
    }
}

/// No distance exceeds the longer of the two lengths.
pub proof fn lemma_lev_bound(a: Seq<u32>, b: Seq<u32>)
    ensures
        lev(a, b) <= if a.len() >= b.len() {
            a.len()
        } else {
            b.len()
        },
    decreases a.len() + b.len(),
{
    if a.len() > 0 && b.len() > 0 {
        lemma_lev_bound(a.drop_last(), b.drop_last());
    }
}

/// The Levenshtein distance between `a` and `b`, row by row.
pub fn levenshtein(a: &Vec<u32>, b: &Vec<u32>) -> (r: usize)
    ensures
        r == lev(a@, b@),
{
    let n = a.len();
    let m = b.len();
    let mut prev: Vec<usize> = Vec::new();
    let mut j: usize = 0;
    while j < m
        invariant
            m == b@.len(),
            j <= m,
            prev@.len() == j,
            forall|q: int| 0 <= q < j ==> prev@[q] == q,
        decreases m - j,
    {
        prev.push(j);
        j += 1;
    }
    prev.push(m);
    assert forall|q: int| 0 <= q <= m implies prev@[q] == lev(
        a@.subrange(0, 0),
        b@.subrange(0, q),
    ) by {}
    let mut i: usize = 0;
    while i < n
        invariant
            n == a@.len(),
            m == b@.len(),
            i <= n,
            prev@.len() == m + 1,
            forall|q: int|
                0 <= q <= m ==> #[trigger] prev@[q] == lev(a@.subrange(0, i as int), b@.subrange(0, q)),
        decreases n - i,
    {
        let ai = a[i];
        let mut cur: Vec<usize> = Vec::new();
        cur.push(i + 1);
        assert(cur@[0] == lev(a@.subrange(0, i + 1), b@.subrange(0, 0)));
        let mut j: usize = 0;
        while j < m
            invariant
                n == a@.len(),
                m == b@.len(),
                i < n,
                ai == a@[i as int],
                j <= m,
                prev@.len() == m + 1,
                cur@.len() == j + 1,
                forall|q: int|
                    0 <= q <= m ==> #[trigger] prev@[q] == lev(a@.subrange(0, i as int), b@.subrange(0, q)),
                forall|q: int|
                    0 <= q <= j ==> #[trigger] cur@[q] == lev(a@.subrange(0, i + 1), b@.subrange(0, q)),
            decreases m - j,
        {
            let ghost ap = a@.subrange(0, i as int);
            let ghost aq = a@.subrange(0, i + 1);
            let ghost bp = b@.subrange(0, j as int);
            let ghost bq = b@.subrange(0, j + 1);
            proof {
                lemma_lev_bound(ap, bp);
                assert(aq.drop_last() =~= ap);
                assert(bq.drop_last() =~= bp);
            }
            let diag = prev[j];
            let up = prev[j + 1];
            let left = cur[j];
            let mut best: usize = if ai == b[j] {
                diag
            } else {
                diag + 1
            };
            if up < best {
                best = up + 1;
            }
            if left < best {
                best = left + 1;
            }
            proof {
                assert(lev(aq, bq) == min_of(
                    lev(ap, bp) + (if ai == b@[j as int] { 0nat } else { 1nat }),
                    min_of(lev(ap, bq) + 1, lev(aq, bp) + 1),
                ));
            }
            cur.push(best);
            j += 1;
        }
        prev = cur;
        i += 1;
    }
    assert(a@.subrange(0, n as int) =~= a@);
    assert(b@.subrange(0, m as int) =~= b@);
    prev[m]
}

} // verus!
