//! Stable descending ranking of a sequence of keys.
//!
//! `descending_rank(keys)` lists the positions `0..keys.len()` so that the keys
//! they point at never increase, and positions with equal keys stay in rising
//! order. The executable version is a merge sort over positions.

use vstd::prelude::*;

verus! {

/// `x` comes strictly before `y` in a stable descending arrangement of `keys`:
/// its key is larger, or the keys tie and `x` is the earlier position.
pub open spec fn precedes(keys: Seq<u64>, x: usize, y: usize) -> bool {
    keys[x as int] > keys[y as int] || (keys[x as int] == keys[y as int] && x < y)
}

/// Whether the merge of `a[i..]` and `b[j..]` takes its next element from `a`.
/// On a tie the left run wins, which is what keeps the merge stable.
pub open spec fn takes_left(keys: Seq<u64>, a: Seq<usize>, b: Seq<usize>, i: int, j: int) -> bool {
    i < a.len() && (j >= b.len() || keys[a[i] as int] >= keys[b[j] as int])
}

/// The stable descending merge of `a[i..]` and `b[j..]`.
pub open spec fn merge_from(keys: Seq<u64>, a: Seq<usize>, b: Seq<usize>, i: int, j: int) -> Seq<
    usize,
>
    decreases (if i < a.len() { a.len() - i } else { 0 }) + (if j < b.len() { b.len() - j } else { 0 }),
{
    if i >= a.len() && j >= b.len() {
        Seq::empty()
    } else if takes_left(keys, a, b, i, j) {
        seq![a[i]] + merge_from(keys, a, b, i + 1, j)
    } else {
        seq![b[j]] + merge_from(keys, a, b, i, j + 1)
    }
}

/// The positions `lo..hi` in stable descending order of their keys.
pub open spec fn rank_range(keys: Seq<u64>, lo: int, hi: int) -> Seq<usize>
    decreases hi - lo,
{
    if hi <= lo {
        Seq::empty()
    } else if hi == lo + 1 {
        seq![lo as usize]
    } else {
        let mid = lo + (hi - lo) / 2;
        merge_from(keys, rank_range(keys, lo, mid), rank_range(keys, mid, hi), 0, 0)
    }
}

/// All positions of `keys` in stable descending order of their keys.
pub open spec fn descending_rank(keys: Seq<u64>) -> Seq<usize> {
    rank_range(keys, 0, keys.len() as int)
}

/// `items` rearranged so that position `i` of the result holds `items[rank[i]]`.
pub open spec fn arrange<T>(items: Seq<T>, rank: Seq<usize>) -> Seq<T> {
    Seq::new(rank.len(), |i: int| items[rank[i] as int])
}

/// `s` lists every position of `lo..hi` exactly once, in stable descending
/// order of `keys`.
pub open spec fn is_ranking_of(keys: Seq<u64>, s: Seq<usize>, lo: int, hi: int) -> bool {
    &&& s.len() == hi - lo
    &&& forall|p: int| 0 <= p < s.len() ==> lo <= #[trigger] s[p] < hi
    &&& forall|k: int| lo <= k < hi ==> #[trigger] s.contains(k as usize)
    &&& forall|p: int, q: int| 0 <= p < q < s.len() ==> precedes(keys, #[trigger] s[p], #[trigger] s[q])
}

proof fn lemma_merge_len(keys: Seq<u64>, a: Seq<usize>, b: Seq<usize>, i: int, j: int)
    requires
        0 <= i <= a.len(),
        0 <= j <= b.len(),
    ensures
        merge_from(keys, a, b, i, j).len() == (a.len() - i) + (b.len() - j),
    decreases (a.len() - i) + (b.len() - j),
{
    if i >= a.len() && j >= b.len() {
    } else if takes_left(keys, a, b, i, j) {
        lemma_merge_len(keys, a, b, i + 1, j);
    } else {
        lemma_merge_len(keys, a, b, i, j + 1);
    }
}

/// Every element of the merge comes from one of the two runs, and every
/// element of the two runs is in the merge.
proof fn lemma_merge_elements(keys: Seq<u64>, a: Seq<usize>, b: Seq<usize>, i: int, j: int)
    requires
        0 <= i <= a.len(),
        0 <= j <= b.len(),
    ensures
        forall|p: int|
            0 <= p < merge_from(keys, a, b, i, j).len() ==> a.skip(i).contains(
                #[trigger] merge_from(keys, a, b, i, j)[p],
            ) || b.skip(j).contains(merge_from(keys, a, b, i, j)[p]),
        forall|p: int| i <= p < a.len() ==> merge_from(keys, a, b, i, j).contains(#[trigger] a[p]),
        forall|p: int| j <= p < b.len() ==> merge_from(keys, a, b, i, j).contains(#[trigger] b[p]),
    decreases (a.len() - i) + (b.len() - j),
{
    let m = merge_from(keys, a, b, i, j);
    if i >= a.len() && j >= b.len() {
    } else if takes_left(keys, a, b, i, j) {
        lemma_merge_elements(keys, a, b, i + 1, j);
        let rest = merge_from(keys, a, b, i + 1, j);
        assert(m[0] == a[i]);
        assert(a.skip(i)[0] == a[i]);
        assert forall|p: int| 0 <= p < m.len() implies a.skip(i).contains(#[trigger] m[p])
            || b.skip(j).contains(m[p]) by {
            if p > 0 {
                assert(m[p] == rest[p - 1]);
                let tail = a.skip(i + 1);
                if tail.contains(rest[p - 1]) {
                    let w = choose|w: int| 0 <= w < tail.len() && tail[w] == rest[p - 1];
                    assert(a.skip(i)[w + 1] == m[p]);
                }
            }
        }
        assert forall|p: int| i <= p < a.len() implies m.contains(#[trigger] a[p]) by {
            if p > i {
                let w = choose|w: int| 0 <= w < rest.len() && rest[w] == a[p];
                assert(m[w + 1] == a[p]);
            }
        }
        assert forall|p: int| j <= p < b.len() implies m.contains(#[trigger] b[p]) by {
            let w = choose|w: int| 0 <= w < rest.len() && rest[w] == b[p];
            assert(m[w + 1] == b[p]);
        }
    } else {
        lemma_merge_elements(keys, a, b, i, j + 1);
        let rest = merge_from(keys, a, b, i, j + 1);
        assert(m[0] == b[j]);
        assert(b.skip(j)[0] == b[j]);
        assert forall|p: int| 0 <= p < m.len() implies a.skip(i).contains(#[trigger] m[p])
            || b.skip(j).contains(m[p]) by {
            if p > 0 {
                assert(m[p] == rest[p - 1]);
                let tail = b.skip(j + 1);
                if !a.skip(i).contains(rest[p - 1]) {
                    let w = choose|w: int| 0 <= w < tail.len() && tail[w] == rest[p - 1];
                    assert(b.skip(j)[w + 1] == m[p]);
                }
            }
        }
        assert forall|p: int| i <= p < a.len() implies m.contains(#[trigger] a[p]) by {
            let w = choose|w: int| 0 <= w < rest.len() && rest[w] == a[p];
            assert(m[w + 1] == a[p]);
        }
        assert forall|p: int| j <= p < b.len() implies m.contains(#[trigger] b[p]) by {
            if p > j {
                let w = choose|w: int| 0 <= w < rest.len() && rest[w] == b[p];
                assert(m[w + 1] == b[p]);
            }
        }
    }
}

/// Merging a ranking of `lo..mid` with a ranking of `mid..hi` ranks `lo..hi`:
/// this is the part that shows the order of the merged run.
proof fn lemma_merge_ordered(
    keys: Seq<u64>,
    a: Seq<usize>,
    b: Seq<usize>,
    i: int,
    j: int,
    lo: int,
    mid: int,
    hi: int,
)
    requires
        is_ranking_of(keys, a, lo, mid),
        is_ranking_of(keys, b, mid, hi),
        0 <= i <= a.len(),
        0 <= j <= b.len(),
    ensures
        forall|p: int, q: int|
            0 <= p < q < merge_from(keys, a, b, i, j).len() ==> precedes(
                keys,
                #[trigger] merge_from(keys, a, b, i, j)[p],
                #[trigger] merge_from(keys, a, b, i, j)[q],
            ),
    decreases (a.len() - i) + (b.len() - j),
{
    let m = merge_from(keys, a, b, i, j);
    if i >= a.len() && j >= b.len() {
    } else {
        let left = takes_left(keys, a, b, i, j);
        let (ni, nj) = if left { (i + 1, j) } else { (i, j + 1) };
        let rest = merge_from(keys, a, b, ni, nj);
        lemma_merge_ordered(keys, a, b, ni, nj, lo, mid, hi);
        lemma_merge_elements(keys, a, b, ni, nj);
        assert forall|p: int, q: int| 0 <= p < q < m.len() implies precedes(
            keys,
            #[trigger] m[p],
            #[trigger] m[q],
        ) by {
            assert(m[q] == rest[q - 1]);
            if p > 0 {
                assert(m[p] == rest[p - 1]);
            } else {
                let y = rest[q - 1];
                let tail_a = a.skip(ni);
                let tail_b = b.skip(nj);
                if tail_a.contains(y) {
                    let w = choose|w: int| 0 <= w < tail_a.len() && tail_a[w] == y;
                    assert(a[ni + w] == y);
                    if left {
                        assert(precedes(keys, a[i], a[ni + w]));
                    } else {
                        assert(precedes(keys, a[i], a[ni + w]) || i == ni + w);
                        assert(mid <= b[j] < hi);
                        assert(lo <= a[i] < mid);
                    }
                } else {
                    let w = choose|w: int| 0 <= w < tail_b.len() && tail_b[w] == y;
                    assert(b[nj + w] == y);
                    assert(mid <= b[nj + w] < hi);
                    if left {
                        assert(lo <= a[i] < mid);
                        assert(precedes(keys, b[j], b[nj + w]) || j == nj + w);
                    } else {
                        assert(precedes(keys, b[j], b[nj + w]));
                    }
                }
            }
        }
    }
}

proof fn lemma_merge_ranks(keys: Seq<u64>, a: Seq<usize>, b: Seq<usize>, lo: int, mid: int, hi: int)
    requires
        lo <= mid <= hi,
        is_ranking_of(keys, a, lo, mid),
        is_ranking_of(keys, b, mid, hi),
    ensures
        is_ranking_of(keys, merge_from(keys, a, b, 0, 0), lo, hi),
{
    let m = merge_from(keys, a, b, 0, 0);
    lemma_merge_len(keys, a, b, 0, 0);
    lemma_merge_elements(keys, a, b, 0, 0);
    lemma_merge_ordered(keys, a, b, 0, 0, lo, mid, hi);
    assert(a.skip(0) =~= a);
    assert(b.skip(0) =~= b);
    assert forall|p: int| 0 <= p < m.len() implies lo <= #[trigger] m[p] < hi by {
        if a.contains(m[p]) {
            let w = choose|w: int| 0 <= w < a.len() && a[w] == m[p];
            assert(lo <= a[w] < mid);
        } else {
            let w = choose|w: int| 0 <= w < b.len() && b[w] == m[p];
            assert(mid <= b[w] < hi);
        }
    }
    assert forall|k: int| lo <= k < hi implies #[trigger] m.contains(k as usize) by {
        if k < mid {
            assert(a.contains(k as usize));
            let w = choose|w: int| 0 <= w < a.len() && a[w] == k as usize;
            assert(m.contains(a[w]));
        } else {
            assert(b.contains(k as usize));
            let w = choose|w: int| 0 <= w < b.len() && b[w] == k as usize;
            assert(m.contains(b[w]));
        }
    }
}

/// `rank_range` lists every position of `lo..hi` once, keys never increasing,
/// positions of equal keys in rising order.
pub proof fn lemma_rank_range(keys: Seq<u64>, lo: int, hi: int)
    requires
        0 <= lo <= hi <= usize::MAX,
    ensures
        is_ranking_of(keys, rank_range(keys, lo, hi), lo, hi),
    decreases hi - lo,
{
    if hi <= lo {
    } else if hi == lo + 1 {
        let s = rank_range(keys, lo, hi);
        assert(s[0] == lo as usize);
    } else {
        let mid = lo + (hi - lo) / 2;
        lemma_rank_range(keys, lo, mid);
        lemma_rank_range(keys, mid, hi);
        lemma_merge_ranks(keys, rank_range(keys, lo, mid), rank_range(keys, mid, hi), lo, mid, hi);
    }
}

/// The ranking of a whole sequence: a permutation of its positions, keys
/// never increasing, positions of equal keys in rising order.
pub proof fn lemma_descending_rank(keys: Seq<u64>)
    requires
        keys.len() <= usize::MAX,
    ensures
        is_ranking_of(keys, descending_rank(keys), 0, keys.len() as int),
{
    lemma_rank_range(keys, 0, keys.len() as int);
}

fn merge_runs(keys: &Vec<u64>, a: &Vec<usize>, b: &Vec<usize>) -> (out: Vec<usize>)
    requires
        forall|p: int| 0 <= p < a.len() ==> a[p] < keys.len(),
        forall|p: int| 0 <= p < b.len() ==> b[p] < keys.len(),
    ensures
        out@ == merge_from(keys@, a@, b@, 0, 0),
{
    let mut out: Vec<usize> = Vec::new();
    let mut i: usize = 0;
    let mut j: usize = 0;
    while i < a.len() || j < b.len()
        invariant
            i <= a.len(),
            j <= b.len(),
            forall|p: int| 0 <= p < a.len() ==> a[p] < keys.len(),
            forall|p: int| 0 <= p < b.len() ==> b[p] < keys.len(),
            out@ + merge_from(keys@, a@, b@, i as int, j as int) == merge_from(keys@, a@, b@, 0, 0),
        decreases (a.len() - i) + (b.len() - j),
    {
        let ghost before = out@;
        let left = i < a.len() && (j >= b.len() || keys[a[i]] >= keys[b[j]]);
        if left {
            out.push(a[i]);
            i = i + 1;
            assert(out@ + merge_from(keys@, a@, b@, i as int, j as int) =~= before + merge_from(
                keys@,
                a@,
                b@,
                i - 1,
                j as int,
            ));
        } else {
            out.push(b[j]);
            j = j + 1;
            assert(out@ + merge_from(keys@, a@, b@, i as int, j as int) =~= before + merge_from(
                keys@,
                a@,
                b@,
                i as int,
                j - 1,
            ));
        }
    }
    assert(out@ + Seq::<usize>::empty() =~= out@);
    out
}

fn rank_positions(keys: &Vec<u64>, lo: usize, hi: usize) -> (out: Vec<usize>)
    requires
        lo <= hi <= keys.len(),
    ensures
        out@ == rank_range(keys@, lo as int, hi as int),
        forall|p: int| 0 <= p < out.len() ==> out[p] < keys.len(),
    decreases hi - lo,
{
    proof {
        lemma_rank_range(keys@, lo as int, hi as int);
    }
    if hi <= lo {
        Vec::new()
    } else if hi - lo == 1 {
        let mut out: Vec<usize> = Vec::new();
        out.push(lo);
        assert(out@ =~= seq![lo]);
        out
    } else {
        let mid = lo + (hi - lo) / 2;
        let a = rank_positions(keys, lo, mid);
        let b = rank_positions(keys, mid, hi);
        merge_runs(keys, &a, &b)
    }
}

/// Ranks the positions of `keys` in stable descending order of their keys.
pub fn rank_descending(keys: &Vec<u64>) -> (rank: Vec<usize>)
    ensures
        rank@ == descending_rank(keys@),
        is_ranking_of(keys@, rank@, 0, keys.len() as int),
{
    let n = keys.len();
    proof {
        lemma_descending_rank(keys@);
    }
    rank_positions(keys, 0, n)
}

} // verus!
