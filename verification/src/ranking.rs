//! Bounded ranked lists: the best `k` of a set of scored candidates.

use vstd::prelude::*;

verus! {

/// An index together with its score.
#[derive(Clone, Copy, Debug, PartialEq, Eq, Structural)]
pub struct Scored {
    /// Index of the neighbour or item.
    pub index: usize,
    /// Its fixed-point score.
    pub score: u64,
}

/// `a` is ranked before `b`: a higher score wins, and of two equal scores
/// the lower index.
pub open spec fn outranks(a: Scored, b: Scored) -> bool {
    a.score > b.score || (a.score == b.score && a.index < b.index)
}

/// Every entry is ranked before all entries after it.
pub open spec fn ranked(r: Seq<Scored>) -> bool {
    forall|i: int, j: int| 0 <= i < j < r.len() ==> outranks(r[i], r[j])
}

/// `x` is in the list, or the list is full and its last entry is ranked
/// before `x`.
pub open spec fn kept_or_beaten(r: Seq<Scored>, x: Scored, k: nat) -> bool {
    r.contains(x) || (r.len() == k && (k > 0 ==> outranks(r[k - 1], x)))
}

/// `r` holds the best `k` candidates in rank order, where `cand[v]` is the
/// score of index `v` if `v` is a candidate at all.
pub open spec fn is_top_k(r: Seq<Scored>, cand: Seq<Option<u64>>, k: nat) -> bool {
    &&& r.len() <= k
    &&& ranked(r)
    &&& forall|p: int|
        0 <= p < r.len() ==> (#[trigger] r[p]).index < cand.len() && cand[r[p].index as int]
            == Some(r[p].score)
    &&& forall|v: int|
        0 <= v < cand.len() && (#[trigger] cand[v]) is Some ==> kept_or_beaten(
            r,
            Scored { index: v as usize, score: cand[v]->0 },
            k,
        )
}

/// Two best-`k` lists of the same candidates agree at position `i` if they
/// agree before it.
proof fn lemma_top_k_agree_at(
    r1: Seq<Scored>,
    r2: Seq<Scored>,
    cand: Seq<Option<u64>>,
    k: nat,
    i: int,
)
    requires
        is_top_k(r1, cand, k),
        is_top_k(r2, cand, k),
        cand.len() <= usize::MAX,
        0 <= i < r1.len(),
        i < r2.len(),
        forall|j: int| 0 <= j < i ==> r1[j] == r2[j],
    ensures
        r1[i] == r2[i],
{
    let a = r1[i];
    let b = r2[i];
    if a != b {
        lemma_other_outranks(r1, r2, cand, k, i);
        lemma_other_outranks(r2, r1, cand, k, i);
    }
}

/// If two best-`k` lists agree before `i` and differ at `i`, the entry of
/// the second at `i` is ranked before that of the first.
proof fn lemma_other_outranks(
    r1: Seq<Scored>,
    r2: Seq<Scored>,
    cand: Seq<Option<u64>>,
    k: nat,
    i: int,
)
    requires
        is_top_k(r1, cand, k),
        is_top_k(r2, cand, k),
        cand.len() <= usize::MAX,
        0 <= i < r1.len(),
        i < r2.len(),
        forall|j: int| 0 <= j < i ==> r1[j] == r2[j],
        r1[i] != r2[i],
    ensures
        outranks(r2[i], r1[i]),
{
    let a = r1[i];
    let b = r2[i];
    let v = a.index as int;
    assert(cand[v] == Some(a.score));
    assert(Scored { index: v as usize, score: cand[v]->0 } == a);
    assert(kept_or_beaten(r2, a, k));
    if r2.contains(a) {
        let q = choose|q: int| 0 <= q < r2.len() && r2[q] == a;
        if q < i {
            assert(r1[q] == a);
            assert(outranks(r1[q], r1[i]));
        } else {
            assert(q > i);
            assert(outranks(r2[i], r2[q]));
        }
    } else {
        assert(r2.len() == k && k > 0);
        if i < k - 1 {
            assert(outranks(r2[i], r2[k - 1]));
        }
    }
}

/// Two best-`k` lists of the same candidates agree on their first `n`
/// positions.
proof fn lemma_top_k_agree_upto(
    r1: Seq<Scored>,
    r2: Seq<Scored>,
    cand: Seq<Option<u64>>,
    k: nat,
    n: int,
)
    requires
        is_top_k(r1, cand, k),
        is_top_k(r2, cand, k),
        cand.len() <= usize::MAX,
        0 <= n <= r1.len(),
        n <= r2.len(),
    ensures
        forall|j: int| 0 <= j < n ==> r1[j] == r2[j],
    decreases n,
{
    if n > 0 {
        lemma_top_k_agree_upto(r1, r2, cand, k, n - 1);
        lemma_top_k_agree_at(r1, r2, cand, k, n - 1);
    }
}

/// A best-`k` list is not a proper prefix of another best-`k` list of the
/// same candidates.
proof fn lemma_top_k_not_shorter(r1: Seq<Scored>, r2: Seq<Scored>, cand: Seq<Option<u64>>, k: nat)
    requires
        is_top_k(r1, cand, k),
        is_top_k(r2, cand, k),
        cand.len() <= usize::MAX,
    ensures
        r1.len() >= r2.len(),
{
    if r1.len() < r2.len() {
        let n = r1.len() as int;
        lemma_top_k_agree_upto(r1, r2, cand, k, n);
        let x = r2[n];
        let v = x.index as int;
        assert(cand[v] == Some(x.score));
        assert(Scored { index: v as usize, score: cand[v]->0 } == x);
        assert(kept_or_beaten(r1, x, k));
        if r1.contains(x) {
            let q = choose|q: int| 0 <= q < r1.len() && r1[q] == x;
            assert(r2[q] == x);
            assert(outranks(r2[q], r2[n]));
        }
    }
}

/// The best `k` of a set of candidates are determined by the candidates:
/// rank order, tie-breaks included.
pub proof fn lemma_top_k_unique(r1: Seq<Scored>, r2: Seq<Scored>, cand: Seq<Option<u64>>, k: nat)
    requires
        is_top_k(r1, cand, k),
        is_top_k(r2, cand, k),
        cand.len() <= usize::MAX,
    ensures
        r1 == r2,
{
    lemma_top_k_not_shorter(r1, r2, cand, k);
    lemma_top_k_not_shorter(r2, r1, cand, k);
    lemma_top_k_agree_upto(r1, r2, cand, k, r1.len() as int);
    assert(r1 =~= r2);
}

/// Whether `a` is ranked before `b`.
pub fn ranks_before(a: Scored, b: Scored) -> (r: bool)
    ensures
        r == outranks(a, b),
{
    a.score > b.score || (a.score == b.score && a.index < b.index)
}

} // verus!
