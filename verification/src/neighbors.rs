//! Top-K neighbour selection: for one user, the most similar other users.

use crate::config::{Metric, SCORE_ONE};
use crate::heap::{beaten_by_all, TopK};
use crate::ranking::{is_top_k, kept_or_beaten, outranks, ranked, Scored};
use crate::similarity::{
    lemma_rows_similarity_bounded, lemma_similar_rows_share, rows_similarity, self_measure,
    similarity_given,
};
use crate::sparse::{has_key, inner, MAX_DIM};
use crate::store::{SparseInteractionStore, StoreView};
use vstd::prelude::*;

verus! {

/// For each user index `v`, the similarity of `v` to `u` if `v` may be a
/// neighbour of `u`: another user, with a positive similarity of at least
/// `min_score`. (No similarity exceeds `SCORE_ONE`, so the conversion to
/// `u64` loses nothing.)
pub open spec fn neighbor_candidates(store: StoreView, metric: Metric, min_score: u64, u: int) -> Seq<
    Option<u64>,
> {
    Seq::new(
        store.rows.len(),
        |v: int|
            {
                let s = rows_similarity(store.rows[u], store.rows[v], metric);
                if v != u && s > 0 && s >= min_score {
                    Some(s as u64)
                } else {
                    None
                }
            },
    )
}

/// Every entry names a user below `n_users` and carries a positive score of
/// at most one.
pub open spec fn row_valid(r: Seq<Scored>, n_users: nat) -> bool {
    forall|p: int|
        0 <= p < r.len() ==> (#[trigger] r[p]).index < n_users && 0 < r[p].score <= SCORE_ONE
}

/// The state of a scan over candidates: `kept` holds the best `k` of the
/// candidates visited so far, in no particular order.
pub open spec fn scan_ok(kept: Seq<Scored>, visited: Seq<bool>, cand: Seq<Option<u64>>, k: nat) -> bool {
    &&& visited.len() == cand.len()
    &&& kept.len() <= k
    &&& forall|p: int|
        0 <= p < kept.len() ==> (#[trigger] kept[p]).index < cand.len()
            && visited[kept[p].index as int] && cand[kept[p].index as int] == Some(kept[p].score)
    &&& forall|v: int|
        0 <= v < cand.len() && visited[v] && (#[trigger] cand[v]) is Some ==> {
            let x = Scored { index: v as usize, score: cand[v]->0 };
            kept.contains(x) || (kept.len() == k && beaten_by_all(kept, x))
        }
}

/// Visiting one more candidate keeps the scan state, given what offering
/// it to the selection buffer guarantees.
pub proof fn lemma_scan_offer(
    kept0: Seq<Scored>,
    kept1: Seq<Scored>,
    visited: Seq<bool>,
    cand: Seq<Option<u64>>,
    k: nat,
    e: Scored,
)
    requires
        scan_ok(kept0, visited, cand, k),
        e.index < cand.len(),
        !visited[e.index as int],
        cand[e.index as int] == Some(e.score),
        kept0.len() <= kept1.len() <= k,
        forall|p: int| 0 <= p < kept1.len() ==> #[trigger] kept1[p] == e || kept0.contains(kept1[p]),
        forall|p: int|
            0 <= p < kept0.len() ==> kept1.contains(#[trigger] kept0[p]) || (kept1.len() == k
                && beaten_by_all(kept1, kept0[p])),
        kept1.contains(e) || (kept1.len() == k && beaten_by_all(kept1, e)),
        forall|x: Scored|
            kept0.len() == k && #[trigger] beaten_by_all(kept0, x) ==> beaten_by_all(kept1, x),
    ensures
        scan_ok(kept1, visited.update(e.index as int, true), cand, k),
{
    let visited1 = visited.update(e.index as int, true);
    assert forall|p: int| 0 <= p < kept1.len() implies (#[trigger] kept1[p]).index < cand.len()
        && visited1[kept1[p].index as int] && cand[kept1[p].index as int] == Some(
        kept1[p].score,
    ) by {
        if kept1[p] != e {
            let q = choose|q: int| 0 <= q < kept0.len() && kept0[q] == kept1[p];
            assert(kept0[q].index < cand.len());
        }
    }
    assert forall|v: int|
        0 <= v < cand.len() && visited1[v] && (#[trigger] cand[v]) is Some implies ({
        let x = Scored { index: v as usize, score: cand[v]->0 };
        kept1.contains(x) || (kept1.len() == k && beaten_by_all(kept1, x))
    }) by {
        let x = Scored { index: v as usize, score: cand[v]->0 };
        if v == e.index {
            assert(x == e);
        } else {
            assert(visited[v]);
            if kept0.contains(x) {
                let q = choose|q: int| 0 <= q < kept0.len() && kept0[q] == x;
                assert(kept1.contains(kept0[q]) || (kept1.len() == k && beaten_by_all(
                    kept1,
                    kept0[q],
                )));
            } else {
                assert(kept0.len() == k && beaten_by_all(kept0, x));
            }
        }
    }
}

/// When every candidate has been visited, the kept entries in rank order
/// are the best `k` of all candidates.
pub proof fn lemma_scan_done(
    kept: Seq<Scored>,
    r: Seq<Scored>,
    visited: Seq<bool>,
    cand: Seq<Option<u64>>,
    k: nat,
)
    requires
        scan_ok(kept, visited, cand, k),
        forall|v: int| 0 <= v < cand.len() && (#[trigger] cand[v]) is Some ==> visited[v],
        ranked(r),
        r.len() == kept.len(),
        forall|x: Scored| r.contains(x) <==> kept.contains(x),
    ensures
        is_top_k(r, cand, k),
{
    assert forall|p: int| 0 <= p < r.len() implies (#[trigger] r[p]).index < cand.len()
        && cand[r[p].index as int] == Some(r[p].score) by {
        assert(r.contains(r[p]));
        let q = choose|q: int| 0 <= q < kept.len() && kept[q] == r[p];
        assert(kept[q].index < cand.len());
    }
    assert forall|v: int|
        0 <= v < cand.len() && (#[trigger] cand[v]) is Some implies kept_or_beaten(
        r,
        Scored { index: v as usize, score: cand[v]->0 },
        k,
    ) by {
        let x = Scored { index: v as usize, score: cand[v]->0 };
        assert(visited[v]);
        if !kept.contains(x) {
            if k > 0 {
                assert(r.contains(r[k - 1]));
                let q = choose|q: int| 0 <= q < kept.len() && kept[q] == r[k - 1];
                assert(outranks(kept[q], x));
            }
        }
    }
}

/// `n` flags, all cleared.
pub fn cleared_flags(n: usize) -> (v: Vec<bool>)
    ensures
        v@.len() == n,
        forall|i: int| 0 <= i < n ==> !v@[i],
{
    let mut v: Vec<bool> = Vec::new();
    let mut i: usize = 0;
    while i < n
        invariant
            i <= n,
            v@.len() == i,
            forall|j: int| 0 <= j < i ==> !v@[j],
        decreases n - i,
    {
        v.push(false);
        i = i + 1;
    }
    v
}

/// The `k` users most similar to the user with index `user`, best first,
/// computed with a caller-supplied buffer of one flag per user. The flags
/// must all be cleared on entry and are all cleared again on return, so one
/// buffer serves any number of calls.
///
/// Only users that share an item with `user` are scored: they are found
/// through the columns of the user's items, and each is scored once.
pub fn top_k_neighbors_in(
    store: &SparseInteractionStore,
    user: usize,
    k: usize,
    min_score: u64,
    metric: Metric,
    visited: &mut Vec<bool>,
) -> (r: Vec<Scored>)
    requires
        store.wf(),
        user < store@.user_ids.len(),
        old(visited)@.len() == store@.user_ids.len(),
        forall|v: int| 0 <= v < old(visited)@.len() ==> !old(visited)@[v],
    ensures
        is_top_k(r@, neighbor_candidates(store@, metric, min_score, user as int), k as nat),
        row_valid(r@, store@.user_ids.len()),
        final(visited)@.len() == old(visited)@.len(),
        forall|v: int| 0 <= v < final(visited)@.len() ==> !final(visited)@[v],
{
    let n: usize = store.n_users();
    let ghost cand = neighbor_candidates(store@, metric, min_score, user as int);
    let row = store.row_at(user);
    let own: u64 = self_measure(row, metric);
    let mut marked: Vec<usize> = Vec::new();
    visited.set(user, true);
    marked.push(user);
    let mut top: TopK = TopK::new(k);
    let row_len: usize = row.len();
    let mut p: usize = 0;
    proof {
        store.lemma_wf_view();
        row.lemma_wf_facts();
        assert(scan_ok(top@, visited@, cand, k as nat));
        assert(marked@[0] == user);
    }
    while p < row_len
        invariant
            store.wf(),
            store@.well_formed(),
            n == store@.user_ids.len(),
            user < n,
            row.wf(),
            row@ == store@.rows[user as int],
            own == inner(row@, row@, metric == Metric::Cosine),
            row_len == row.keys().len(),
            p <= row_len,
            cand == neighbor_candidates(store@, metric, min_score, user as int),
            top.wf(),
            top.capacity() == k,
            scan_ok(top@, visited@, cand, k as nat),
            visited@[user as int],
            forall|t: int| 0 <= t < marked@.len() ==> (#[trigger] marked@[t]) < n,
            forall|v: int| 0 <= v < n && visited@[v] ==> marked@.contains(v as usize),
            forall|pp: int, w: int|
                0 <= pp < p && 0 <= w < n && #[trigger] store@.rows[w].contains_key(
                    row.keys()[pp] as nat,
                ) ==> visited@[w],
        decreases row_len - p,
    {
        let item: usize = row.key_at(p);
        proof {
            assert(store@.rows[user as int].contains_key(item as nat));
        }
        let col = store.col_at(item);
        let col_len: usize = col.len();
        let mut q: usize = 0;
        proof {
            col.lemma_wf_facts();
        }
        while q < col_len
            invariant
                store.wf(),
                store@.well_formed(),
                n == store@.user_ids.len(),
                user < n,
                row.wf(),
                row@ == store@.rows[user as int],
                own == inner(row@, row@, metric == Metric::Cosine),
                p < row_len,
                row_len == row.keys().len(),
                item == row.keys()[p as int],
                item < store@.item_ids.len(),
                col.wf(),
                col@ == store@.column(item as nat),
                col_len == col.keys().len(),
                q <= col_len,
                cand == neighbor_candidates(store@, metric, min_score, user as int),
                top.wf(),
                top.capacity() == k,
                scan_ok(top@, visited@, cand, k as nat),
                visited@[user as int],
                forall|t: int| 0 <= t < marked@.len() ==> (#[trigger] marked@[t]) < n,
                forall|v: int| 0 <= v < n && visited@[v] ==> marked@.contains(v as usize),
                forall|pp: int, w: int|
                    0 <= pp < p && 0 <= w < n && #[trigger] store@.rows[w].contains_key(
                        row.keys()[pp] as nat,
                    ) ==> visited@[w],
                forall|qq: int| 0 <= qq < q ==> visited@[#[trigger] col.keys()[qq] as int],
            decreases col_len - q,
        {
            let v: usize = col.key_at(q);
            proof {
                assert(col@.contains_key(v as nat));
                assert(v < n);
            }
            if !visited[v] {
                let theirs = store.row_at(v);
                let other: u64 = self_measure(theirs, metric);
                let s: u64 = similarity_given(row, theirs, metric, own, other);
                let ghost visited0 = visited@;
                let ghost marked0 = marked@;
                let ghost out0 = top@;
                if s > 0 && s >= min_score {
                    let e = Scored { index: v, score: s };
                    proof {
                        assert(cand[v as int] == Some(s));
                        assert forall|i: int| 0 <= i < out0.len() implies out0[i].index
                            != e.index by {
                            assert(visited0[out0[i].index as int]);
                        }
                    }
                    top.offer(e);
                    visited.set(v, true);
                    proof {
                        lemma_scan_offer(out0, top@, visited0, cand, k as nat, e);
                    }
                } else {
                    visited.set(v, true);
                    proof {
                        assert(cand[v as int] is None);
                        assert(scan_ok(top@, visited@, cand, k as nat));
                    }
                }
                marked.push(v);
                proof {
                    assert forall|w: int| 0 <= w < n && visited@[w] implies marked@.contains(
                        w as usize,
                    ) by {
                        vstd::seq_lib::lemma_seq_contains_after_push(marked0, v, w as usize);
                    }
                }
            }
            q = q + 1;
        }
        proof {
            assert forall|pp: int, w: int|
                0 <= pp < p + 1 && 0 <= w < n && #[trigger] store@.rows[w].contains_key(
                    row.keys()[pp] as nat,
                ) implies visited@[w] by {
                if pp == p {
                    assert(col@.contains_key(w as nat));
                    assert(has_key(col.keys(), w as nat));
                    let qq = choose|qq: int| 0 <= qq < col.keys().len() && col.keys()[qq] == w;
                    assert(visited@[col.keys()[qq] as int]);
                }
            }
        }
        p = p + 1;
    }
    proof {
        assert forall|v: int| 0 <= v < cand.len() && (#[trigger] cand[v]) is Some implies visited@[v] by {
            let a = store@.rows[user as int];
            let b = store@.rows[v];
            lemma_similar_rows_share(a, b, metric);
            let item = choose|item: nat|
                item < MAX_DIM && a.contains_key(item) && b.contains_key(item);
            assert(has_key(row.keys(), item));
            let pp = choose|pp: int| 0 <= pp < row.keys().len() && row.keys()[pp] == item;
            assert(store@.rows[v].contains_key(row.keys()[pp] as nat));
        }
    }
    let ghost kept = top@;
    let out = top.into_ranked();
    proof {
        lemma_scan_done(kept, out@, visited@, cand, k as nat);
        assert forall|i: int| 0 <= i < out@.len() implies (#[trigger] out@[i]).index < n && 0
            < out@[i].score <= SCORE_ONE by {
            let v = out@[i].index as int;
            assert(cand[v] == Some(out@[i].score));
            lemma_rows_similarity_bounded(store@.rows[user as int], store@.rows[v], metric);
        }
    }
    let n_marked: usize = marked.len();
    let mut t: usize = 0;
    while t < n_marked
        invariant
            n_marked == marked@.len(),
            t <= n_marked,
            visited@.len() == n,
            forall|j: int| 0 <= j < marked@.len() ==> (#[trigger] marked@[j]) < n,
            forall|v: int|
                0 <= v < n && visited@[v] ==> exists|j: int|
                    t <= j < marked@.len() && marked@[j] == v,
        decreases n_marked - t,
    {
        let v: usize = marked[t];
        let ghost visited1 = visited@;
        visited.set(v, false);
        proof {
            assert forall|w: int| 0 <= w < n && visited@[w] implies exists|j: int|
                t + 1 <= j < marked@.len() && marked@[j] == w by {
                assert(visited1[w]);
                let j = choose|j: int| t <= j < marked@.len() && marked@[j] == w;
                assert(j != t);
            }
        }
        t = t + 1;
    }
    out
}

/// The `k` users most similar to the user with index `user`, best first.
pub fn top_k_neighbors(
    store: &SparseInteractionStore,
    user: usize,
    k: usize,
    min_score: u64,
    metric: Metric,
) -> (r: Vec<Scored>)
    requires
        store.wf(),
        user < store@.user_ids.len(),
    ensures
        is_top_k(r@, neighbor_candidates(store@, metric, min_score, user as int), k as nat),
        row_valid(r@, store@.user_ids.len()),
{
    let mut visited: Vec<bool> = cleared_flags(store.n_users());
    top_k_neighbors_in(store, user, k, min_score, metric, &mut visited)
}

/// The neighbour lists of all users of the store, by user index.
pub fn build_all(store: &SparseInteractionStore, k: usize, min_score: u64, metric: Metric) -> (t:
    Vec<Vec<Scored>>)
    requires
        store.wf(),
    ensures
        t@.len() == store@.user_ids.len(),
        forall|u: int|
            0 <= u < t@.len() ==> is_top_k(
                (#[trigger] t@[u])@,
                neighbor_candidates(store@, metric, min_score, u),
                k as nat,
            ) && row_valid(t@[u]@, store@.user_ids.len()),
{
    let n: usize = store.n_users();
    let mut table: Vec<Vec<Scored>> = Vec::new();
    let mut visited: Vec<bool> = cleared_flags(n);
    let mut u: usize = 0;
    while u < n
        invariant
            store.wf(),
            n == store@.user_ids.len(),
            u <= n,
            table@.len() == u,
            visited@.len() == n,
            forall|v: int| 0 <= v < n ==> !visited@[v],
            forall|w: int|
                0 <= w < u ==> is_top_k(
                    (#[trigger] table@[w])@,
                    neighbor_candidates(store@, metric, min_score, w),
                    k as nat,
                ) && row_valid(table@[w]@, store@.user_ids.len()),
        decreases n - u,
    {
        let r = top_k_neighbors_in(store, u, k, min_score, metric, &mut visited);
        table.push(r);
        u = u + 1;
    }
    table
}

} // verus!
