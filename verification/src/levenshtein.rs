//! Levenshtein edit distance between two strings, over their UTF-8 bytes.
//!
//! The distance is specified by the textbook recurrence `edit_dist` and the
//! executable function is proved to return exactly that value; the tree diff
//! engine prices an in-place leaf rewrite with it.

use vstd::prelude::*;
use vstd::string::StringSliceAdditionalSpecFns;

verus! {

/// Minimum number of single-byte insertions, deletions and substitutions
/// turning `a` into `b`, as a recurrence on the two final bytes.
pub open spec fn edit_dist(a: Seq<u8>, b: Seq<u8>) -> nat
    decreases a.len() + b.len(),
{
    if a.len() == 0 {
        b.len()
    } else if b.len() == 0 {
        a.len()
    } else {
        let sub = edit_dist(a.drop_last(), b.drop_last()) + (if a.last() == b.last() {
            0nat
        } else {
            1nat
        });
        let del = edit_dist(a.drop_last(), b) + 1;
        let ins = edit_dist(a, b.drop_last()) + 1;
        min3(sub, del, ins)
    }
}

pub open spec fn min3(x: nat, y: nat, z: nat) -> nat {
    if x <= y && x <= z {
        x
    } else if y <= z {
        y
    } else {
        z
    }
}

/// The distance never exceeds replacing everything: it is at most
/// `a.len() + b.len()`.
pub proof fn lemma_edit_dist_bound(a: Seq<u8>, b: Seq<u8>)
    ensures
        edit_dist(a, b) <= a.len() + b.len(),
    decreases a.len() + b.len(),
{
    if a.len() == 0 || b.len() == 0 {
    } else {
        lemma_edit_dist_bound(a.drop_last(), b.drop_last());
    }
}

/// Unfolds the recurrence on byte-prefix lengths `i`, `j`, as the dynamic
/// program walks them.
proof fn lemma_edit_dist_step(a: Seq<u8>, b: Seq<u8>, i: int, j: int)
    requires
        1 <= i <= a.len(),
        1 <= j <= b.len(),
    ensures
        edit_dist(a.take(i), b.take(j)) == min3(
            edit_dist(a.take(i - 1), b.take(j - 1)) + (if a[i - 1] == b[j - 1] {
                0nat
            } else {
                1nat
            }),
            edit_dist(a.take(i - 1), b.take(j)) + 1,
            edit_dist(a.take(i), b.take(j - 1)) + 1,
        ),
{
    assert(a.take(i).drop_last() =~= a.take(i - 1));
    assert(b.take(j).drop_last() =~= b.take(j - 1));
    assert(a.take(i).last() == a[i - 1]);
    assert(b.take(j).last() == b[j - 1]);
}

/// Levenshtein distance between the UTF-8 byte sequences of `a` and `b`,
/// computed by the usual dynamic program over a full table.
pub fn levenshtein(a: &str, b: &str) -> (r: usize)
    requires
        a.spec_bytes().len() + b.spec_bytes().len() < usize::MAX,
    ensures
        r == edit_dist(a.spec_bytes(), b.spec_bytes()),
{
    let av = a.as_bytes();
    let bv = b.as_bytes();
    let n = av.len();
    let m = bv.len();
    let ghost sa = a.spec_bytes();
    let ghost sb = b.spec_bytes();

    let mut graph: Vec<Vec<usize>> = Vec::new();

    // initialize costs assuming nothing in common
    let mut row0: Vec<usize> = Vec::new();
    let mut j: usize = 0;
    while j <= m
        invariant
            j <= m + 1,
            row0@.len() == j,
            m == sb.len(),
            m < usize::MAX,
            forall|j2: int| 0 <= j2 < j ==> row0@[j2] == edit_dist(sa.take(0), sb.take(j2)),
        decreases m + 1 - j,
    {
        assert(edit_dist(sa.take(0), sb.take(j as int)) == j) by {
            assert(sa.take(0).len() == 0);
            assert(sb.take(j as int).len() == j);
        }
        row0.push(j);
        j = j + 1;
    }
    graph.push(row0);

    let mut i: usize = 1;
    while i <= n
        invariant
            1 <= i <= n + 1,
            graph@.len() == i,
            n == sa.len(),
            m == sb.len(),
            n + m < usize::MAX,
            av@ == sa,
            bv@ == sb,
            forall|i2: int| 0 <= i2 < i ==> (#[trigger] graph@[i2])@.len() == m + 1,
            forall|i2: int, j2: int|
                0 <= i2 < i && 0 <= j2 <= m ==> (#[trigger] graph@[i2]@[j2]) == edit_dist(
                    sa.take(i2),
                    sb.take(j2),
                ),
        decreases n + 1 - i,
    {
        let mut row: Vec<usize> = Vec::new();
        assert(edit_dist(sa.take(i as int), sb.take(0)) == i) by {
            assert(sb.take(0).len() == 0);
            assert(sa.take(i as int).len() == i);
        }
        row.push(i);
        let mut j: usize = 1;
        while j <= m
            invariant
                1 <= i <= n,
                1 <= j <= m + 1,
                row@.len() == j,
                graph@.len() == i,
                n == sa.len(),
                m == sb.len(),
                n + m < usize::MAX,
                av@ == sa,
                bv@ == sb,
                forall|i2: int| 0 <= i2 < i ==> (#[trigger] graph@[i2])@.len() == m + 1,
                forall|i2: int, j2: int|
                    0 <= i2 < i && 0 <= j2 <= m ==> (#[trigger] graph@[i2]@[j2]) == edit_dist(
                        sa.take(i2),
                        sb.take(j2),
                    ),
                forall|j2: int|
                    0 <= j2 < j ==> (#[trigger] row@[j2]) == edit_dist(
                        sa.take(i as int),
                        sb.take(j2),
                    ),
            decreases m + 1 - j,
        {
            proof {
                lemma_edit_dist_bound(sa.take(i as int - 1), sb.take(j as int - 1));
                lemma_edit_dist_bound(sa.take(i as int - 1), sb.take(j as int));
                lemma_edit_dist_bound(sa.take(i as int), sb.take(j as int - 1));
                lemma_edit_dist_step(sa, sb, i as int, j as int);
            }
            let cost: usize = if av[i - 1] == bv[j - 1] {
                0
            } else {
                1
            };

            // min cost is min cost of nodes to the left, top, and top-left
            let del: usize = graph[i - 1][j] + 1;
            let ins: usize = row[j - 1] + 1;
            let sub: usize = graph[i - 1][j - 1] + cost;
            let best: usize = if sub <= del && sub <= ins {
                sub
            } else if del <= ins {
                del
            } else {
                ins
            };
            row.push(best);
            j = j + 1;
        }
        graph.push(row);
        i = i + 1;
    }
    proof {
        assert(sa.take(n as int) =~= sa);
        assert(sb.take(m as int) =~= sb);
    }
    graph[n][m]
}

} // verus!
