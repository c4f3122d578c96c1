//! Absorbing new interactions into a fitted model: atomic batches, the set
//! of users whose neighbour lists went stale, and their targeted refresh.

use crate::config::Metric;
use crate::error::RecError;
use crate::neighbors::{cleared_flags, neighbor_candidates, row_valid, top_k_neighbors_in};
use crate::ranking::{is_top_k, kept_or_beaten, Scored};
use crate::similarity::{lemma_similar_rows_share, rows_similarity};
use crate::sparse::{has_key, MAX_WEIGHT};
use crate::store::{Interaction, SparseInteractionStore, StoreView};
use std::collections::HashSet;
use vstd::prelude::*;
use vstd::std_specs::hash::*;

verus! {

broadcast use group_hash_axioms;

/// Users `a` and `b` have interacted with a common item.
pub open spec fn shares_item(store: StoreView, a: int, b: int) -> bool {
    exists|k: nat| store.rows[a].contains_key(k) && store.rows[b].contains_key(k)
}

/// The row of user `c` differs between the two contents, or `c` is new in
/// the second.
pub open spec fn changed(before: StoreView, after: StoreView, c: int) -> bool {
    c >= before.rows.len() || after.rows[c] != before.rows[c]
}

/// The neighbour list of `u` may differ between the two contents: the row
/// of `u` changed, or that of a user sharing an item with `u`.
pub open spec fn affected(before: StoreView, after: StoreView, u: int) -> bool {
    exists|c: int|
        0 <= c < after.rows.len() && #[trigger] changed(before, after, c) && (c == u
            || shares_item(after, c, u))
}

/// The second content arises from the first by insertions: users are only
/// added, and no row loses an item.
pub open spec fn evolves(before: StoreView, after: StoreView) -> bool {
    &&& before.rows.len() <= after.rows.len()
    &&& after.rows.len() == after.user_ids.len()
    &&& before.max_users == after.max_users
    &&& before.max_items == after.max_items
    &&& before.accumulate == after.accumulate
    &&& forall|c: int, k: nat|
        0 <= c < before.rows.len() && #[trigger] before.rows[c].contains_key(k)
            ==> after.rows[c].contains_key(k)
    &&& before.user_ids.len() <= after.user_ids.len()
    &&& before.item_ids.len() <= after.item_ids.len()
    &&& forall|c: int| 0 <= c < before.user_ids.len() ==> after.user_ids[c] == before.user_ids[c]
    &&& forall|c: int| 0 <= c < before.item_ids.len() ==> after.item_ids[c] == before.item_ids[c]
}

/// User `u` is named by an interaction of the batch or shares an item with
/// a user that is.
pub open spec fn touches(store: StoreView, batch: Seq<Interaction>, u: int) -> bool {
    exists|j: int|
        0 <= j < batch.len() && ({
            let c = store.user_ids.index_of((#[trigger] batch[j]).user);
            c == u || shares_item(store, c, u)
        })
}

/// User `w` is one of the listed users or shares an item with one.
pub open spec fn reaches(store: StoreView, touched: Seq<usize>, w: int) -> bool {
    exists|t: int|
        0 <= t < touched.len() && ((#[trigger] touched[t]) == w || shares_item(
            store,
            touched[t] as int,
            w,
        ))
}

/// Inserting a batch makes the content evolve.
pub proof fn lemma_insert_all_evolves(before: StoreView, batch: Seq<Interaction>)
    requires
        before.well_formed(),
        before.insert_all(batch) is Ok,
    ensures
        evolves(before, before.insert_all(batch)->Ok_0),
        before.insert_all(batch)->Ok_0.well_formed(),
    decreases batch.len(),
{
    if batch.len() > 0 {
        let r = batch[0];
        before.lemma_insert_effect(r.user, r.item, r.weight as int);
        let mid = before.inserted(r.user, r.item, r.weight as nat);
        lemma_insert_all_evolves(mid, batch.skip(1));
    }
}

/// For a user that is not affected, the candidates after the change are
/// the candidates before it, and no new user is a candidate.
pub proof fn lemma_unaffected_candidates(
    before: StoreView,
    after: StoreView,
    metric: Metric,
    min_score: u64,
    u: int,
)
    requires
        evolves(before, after),
        0 <= u < before.rows.len(),
        !affected(before, after, u),
    ensures
        forall|v: int|
            0 <= v < after.rows.len() ==> #[trigger] neighbor_candidates(
                after,
                metric,
                min_score,
                u,
            )[v] == if v < before.rows.len() {
                neighbor_candidates(before, metric, min_score, u)[v]
            } else {
                None
            },
{
    assert(!changed(before, after, u));
    assert forall|v: int| 0 <= v < after.rows.len() implies #[trigger] neighbor_candidates(
        after,
        metric,
        min_score,
        u,
    )[v] == if v < before.rows.len() {
        neighbor_candidates(before, metric, min_score, u)[v]
    } else {
        None
    } by {
        if changed(before, after, v) {
            assert(!shares_item(after, v, u));
            if rows_similarity(after.rows[u], after.rows[v], metric) > 0 {
                lemma_similar_rows_share(after.rows[u], after.rows[v], metric);
                let k = choose|k: nat|
                    after.rows[u].contains_key(k) && after.rows[v].contains_key(k);
                assert(after.rows[v].contains_key(k) && after.rows[u].contains_key(k));
            }
            if v < before.rows.len() && rows_similarity(before.rows[u], before.rows[v], metric)
                > 0 {
                lemma_similar_rows_share(before.rows[u], before.rows[v], metric);
                let k = choose|k: nat|
                    before.rows[u].contains_key(k) && before.rows[v].contains_key(k);
                assert(before.rows[v].contains_key(k));
                assert(after.rows[v].contains_key(k) && after.rows[u].contains_key(k));
            }
        }
    }
}

/// A best-`k` list stays one when the candidates are extended by indices
/// that are no candidates.
pub proof fn lemma_top_k_extend(
    r: Seq<Scored>,
    cand0: Seq<Option<u64>>,
    cand1: Seq<Option<u64>>,
    k: nat,
)
    requires
        is_top_k(r, cand0, k),
        cand0.len() <= cand1.len(),
        forall|v: int|
            0 <= v < cand1.len() ==> #[trigger] cand1[v] == if v < cand0.len() {
                cand0[v]
            } else {
                None
            },
    ensures
        is_top_k(r, cand1, k),
{
    assert forall|p: int| 0 <= p < r.len() implies (#[trigger] r[p]).index < cand1.len()
        && cand1[r[p].index as int] == Some(r[p].score) by {
        assert(cand1[r[p].index as int] == cand0[r[p].index as int]);
    }
    assert forall|v: int|
        0 <= v < cand1.len() && (#[trigger] cand1[v]) is Some implies kept_or_beaten(
        r,
        Scored { index: v as usize, score: cand1[v]->0 },
        k,
    ) by {
        assert(v < cand0.len());
        assert(cand0[v] is Some);
    }
}

/// Decides, without changing anything, whether a batch would be accepted
/// as a whole, and if not, which interaction is the first to be rejected
/// and why.
pub fn check_batch(store: &SparseInteractionStore, batch: &Vec<Interaction>) -> (r: Result<
    (),
    RecError,
>)
    requires
        store.wf(),
    ensures
        match r {
            Ok(_) => store@.insert_all(batch@) is Ok,
            Err(e) => store@.insert_all(batch@) == Err::<StoreView, RecError>(e),
        },
{
    let mut new_users: HashSet<u64> = HashSet::new();
    let mut new_items: HashSet<u64> = HashSet::new();
    let mut nu: usize = store.n_users();
    let mut ni: usize = store.n_items();
    let max_users: usize = store.max_users();
    let max_items: usize = store.max_items();
    let ghost mut gv = store@;
    let n: usize = batch.len();
    let mut j: usize = 0;
    proof {
        store.lemma_wf_view();
        assert(batch@.skip(0) =~= batch@);
    }
    while j < n
        invariant
            store.wf(),
            n == batch@.len(),
            j <= n,
            gv.well_formed(),
            gv.max_users == max_users,
            gv.max_items == max_items,
            nu == gv.user_ids.len(),
            ni == gv.item_ids.len(),
            forall|id: u64|
                gv.user_ids.contains(id) <==> store@.user_ids.contains(id) || new_users@.contains(
                    id,
                ),
            forall|id: u64|
                gv.item_ids.contains(id) <==> store@.item_ids.contains(id) || new_items@.contains(
                    id,
                ),
            store@.insert_all(batch@) == gv.insert_all(batch@.skip(j as int)),
        decreases n - j,
    {
        let rec: Interaction = batch[j];
        let ghost rest = batch@.skip(j as int);
        proof {
            assert(rest.len() > 0 && rest[0] == rec);
            assert(rest.skip(1) =~= batch@.skip(j + 1));
        }
        if rec.weight < 0 || rec.weight > MAX_WEIGHT as i64 {
            return Err(RecError::InvalidWeight);
        }
        let user_known: bool = store.user_index(rec.user).is_ok() || new_users.contains(&rec.user);
        if !user_known && nu >= max_users {
            return Err(RecError::CapacityExceeded);
        }
        let item_known: bool = store.item_index(rec.item).is_ok() || new_items.contains(&rec.item);
        if !item_known && ni >= max_items {
            return Err(RecError::CapacityExceeded);
        }
        proof {
            gv.lemma_insert_effect(rec.user, rec.item, rec.weight as int);
        }
        if !user_known {
            new_users.insert(rec.user);
            nu = nu + 1;
        }
        if !item_known {
            new_items.insert(rec.item);
            ni = ni + 1;
        }
        proof {
            gv = gv.inserted(rec.user, rec.item, rec.weight as nat);
        }
        j = j + 1;
    }
    Ok(())
}

/// Inserts a batch that is known to be accepted as a whole, and returns
/// the index of the user of each interaction, in order.
pub fn apply_batch(store: &mut SparseInteractionStore, batch: &Vec<Interaction>) -> (touched: Vec<
    usize,
>)
    requires
        old(store).wf(),
        old(store)@.insert_all(batch@) is Ok,
    ensures
        final(store).wf(),
        old(store)@.insert_all(batch@) == Ok::<StoreView, RecError>(final(store)@),
        evolves(old(store)@, final(store)@),
        touched@.len() == batch@.len(),
        forall|t: int|
            0 <= t < touched@.len() ==> (#[trigger] touched@[t]) < final(store)@.user_ids.len()
                && touched@[t] == final(store)@.user_ids.index_of(batch@[t].user),
        forall|c: int|
            0 <= c < final(store)@.rows.len() && #[trigger] changed(
                old(store)@,
                final(store)@,
                c,
            ) ==> touched@.contains(c as usize),
{
    let ghost s0 = store@;
    let mut touched: Vec<usize> = Vec::new();
    let n: usize = batch.len();
    let mut j: usize = 0;
    proof {
        store.lemma_wf_view();
        assert(batch@.skip(0) =~= batch@);
    }
    while j < n
        invariant
            store.wf(),
            store@.well_formed(),
            n == batch@.len(),
            j <= n,
            s0.insert_all(batch@) is Ok,
            s0.insert_all(batch@) == store@.insert_all(batch@.skip(j as int)),
            evolves(s0, store@),
            touched@.len() == j,
            forall|t: int|
                0 <= t < touched@.len() ==> (#[trigger] touched@[t]) < store@.user_ids.len()
                    && store@.user_ids[touched@[t] as int] == batch@[t].user,
            forall|c: int|
                0 <= c < store@.rows.len() && #[trigger] changed(s0, store@, c)
                    ==> touched@.contains(c as usize),
        decreases n - j,
    {
        let rec: Interaction = batch[j];
        let ghost cur = store@;
        let ghost rest = batch@.skip(j as int);
        let ghost touched0 = touched@;
        proof {
            assert(rest.len() > 0 && rest[0] == rec);
            assert(rest.skip(1) =~= batch@.skip(j + 1));
            if cur.insert_error(rec.user, rec.item, rec.weight as int) is None {
                cur.lemma_insert_effect(rec.user, rec.item, rec.weight as int);
            }
        }
        match store.insert(rec.user, rec.item, rec.weight) {
            Ok((u, _)) => {
                touched.push(u);
                proof {
                    assert(touched@[touched0.len() as int] == u);
                    assert forall|c: int|
                        0 <= c < store@.rows.len() && #[trigger] changed(
                            s0,
                            store@,
                            c,
                        ) implies touched@.contains(c as usize) by {
                        if c == u {
                            assert(touched@[touched0.len() as int] == c as usize);
                        } else {
                            assert(c < cur.rows.len());
                            assert(store@.rows[c] == cur.rows[c]);
                            assert(changed(s0, cur, c));
                            let t = choose|t: int|
                                0 <= t < touched0.len() && touched0[t] == c as usize;
                            assert(touched@[t] == c as usize);
                        }
                    }
                }
            },
            Err(_) => {
                proof {
                    assert(false);
                }
            },
        }
        j = j + 1;
    }
    proof {
        assert forall|t: int| 0 <= t < touched@.len() implies (#[trigger] touched@[t])
            < store@.user_ids.len() && touched@[t] == store@.user_ids.index_of(
            batch@[t].user,
        ) by {
            crate::store::lemma_index_of(store@.user_ids, touched@[t] as int);
        }
    }
    touched
}

/// Marks as stale each listed user and every user that shares an item
/// with one, and nobody else. Marks already set stay set.
pub fn mark_dirty(store: &SparseInteractionStore, touched: &Vec<usize>, dirty: &mut Vec<bool>)
    requires
        store.wf(),
        old(dirty)@.len() == store@.user_ids.len(),
        forall|t: int| 0 <= t < touched@.len() ==> (#[trigger] touched@[t]) < store@.user_ids.len(),
    ensures
        final(dirty)@.len() == old(dirty)@.len(),
        forall|w: int|
            0 <= w < old(dirty)@.len() ==> (final(dirty)@[w] <==> old(dirty)@[w] || reaches(
                store@,
                touched@,
                w,
            )),
{
    let n: usize = store.n_users();
    let ghost dirty0 = dirty@;
    let mut done: Vec<bool> = cleared_flags(n);
    let n_touched: usize = touched.len();
    let mut t: usize = 0;
    proof {
        store.lemma_wf_view();
    }
    while t < n_touched
        invariant
            store.wf(),
            store@.well_formed(),
            n == store@.user_ids.len(),
            dirty@.len() == n,
            dirty0.len() == n,
            done@.len() == n,
            n_touched == touched@.len(),
            t <= n_touched,
            forall|t2: int| 0 <= t2 < touched@.len() ==> (#[trigger] touched@[t2]) < n,
            forall|u: int| 0 <= u < n && dirty0[u] ==> dirty@[u],
            forall|u: int|
                0 <= u < n && dirty@[u] ==> dirty0[u] || reaches(store@, touched@, u),
            forall|t2: int| 0 <= t2 < t ==> done@[(#[trigger] touched@[t2]) as int],
            forall|c: int| 0 <= c < n && done@[c] ==> dirty@[c],
            forall|c: int, w: int|
                0 <= c < n && done@[c] && 0 <= w < n && #[trigger] shares_item(store@, c, w)
                    ==> dirty@[w],
        decreases n_touched - t,
    {
        let c: usize = touched[t];
        if !done[c] {
            let row = store.row_at(c);
            let row_len: usize = row.len();
            let ghost dirty1 = dirty@;
            dirty.set(c, true);
            let mut p: usize = 0;
            proof {
                row.lemma_wf_facts();
                assert(reaches(store@, touched@, c as int));
            }
            while p < row_len
                invariant
                    store.wf(),
                    store@.well_formed(),
                    n == store@.user_ids.len(),
                    dirty@.len() == n,
                    dirty0.len() == n,
                    c < n,
                    t < touched@.len(),
                    touched@[t as int] == c,
                    row.wf(),
                    row@ == store@.rows[c as int],
                    row_len == row.keys().len(),
                    p <= row_len,
                    dirty@[c as int],
                    forall|u: int| 0 <= u < n && dirty1[u] ==> dirty@[u],
                    forall|u: int|
                        0 <= u < n && dirty@[u] ==> dirty0[u] || reaches(store@, touched@, u),
                    forall|pp: int, w: int|
                        0 <= pp < p && 0 <= w < n && #[trigger] store@.rows[w].contains_key(
                            row.keys()[pp] as nat,
                        ) ==> dirty@[w],
                decreases row_len - p,
            {
                let item: usize = row.key_at(p);
                proof {
                    store.lemma_row_bounded(c as int, item as nat);
                }
                let col = store.col_at(item);
                let col_len: usize = col.len();
                let ghost dirty2 = dirty@;
                let mut q: usize = 0;
                proof {
                    col.lemma_wf_facts();
                    assert forall|q2: int| 0 <= q2 < col_len implies (#[trigger] col.keys()[q2])
                        < n && shares_item(store@, c as int, col.keys()[q2] as int) by {
                        let w = col.keys()[q2];
                        assert(col@.contains_key(w as nat));
                        assert(store@.rows[c as int].contains_key(item as nat)
                            && store@.rows[w as int].contains_key(item as nat));
                    }
                }
                while q < col_len
                    invariant
                        dirty@.len() == n,
                        dirty0.len() == n,
                        col.wf(),
                        col_len == col.keys().len(),
                        q <= col_len,
                        t < touched@.len(),
                        touched@[t as int] == c,
                        forall|q2: int|
                            0 <= q2 < col_len ==> (#[trigger] col.keys()[q2]) < n && shares_item(
                                store@,
                                c as int,
                                col.keys()[q2] as int,
                            ),
                        forall|u: int| 0 <= u < n && dirty2[u] ==> dirty@[u],
                        forall|u: int|
                            0 <= u < n && dirty@[u] ==> dirty0[u] || reaches(store@, touched@, u),
                        forall|q2: int| 0 <= q2 < q ==> dirty@[(#[trigger] col.keys()[q2]) as int],
                    decreases col_len - q,
                {
                    let w: usize = col.key_at(q);
                    proof {
                        assert(shares_item(store@, touched@[t as int] as int, w as int));
                        assert(reaches(store@, touched@, w as int));
                    }
                    dirty.set(w, true);
                    q = q + 1;
                }
                proof {
                    assert forall|pp: int, w: int|
                        0 <= pp < p + 1 && 0 <= w < n && #[trigger] store@.rows[w].contains_key(
                            row.keys()[pp] as nat,
                        ) implies dirty@[w] by {
                        if pp == p {
                            assert(col@.contains_key(w as nat));
                            assert(has_key(col.keys(), w as nat));
                            let q2 = choose|q2: int|
                                0 <= q2 < col.keys().len() && col.keys()[q2] == w;
                            assert(dirty@[col.keys()[q2] as int]);
                        } else {
                            assert(dirty2[w]);
                        }
                    }
                }
                p = p + 1;
            }
            done.set(c, true);
            proof {
                assert forall|c2: int| 0 <= c2 < n && done@[c2] implies dirty@[c2] by {
                    if c2 != c {
                        assert(dirty1[c2]);
                    }
                }
                assert forall|c2: int, w: int|
                    0 <= c2 < n && done@[c2] && 0 <= w < n && #[trigger] shares_item(
                        store@,
                        c2,
                        w,
                    ) implies dirty@[w] by {
                    if c2 == c {
                        let k = choose|k: nat|
                            store@.rows[c2].contains_key(k) && store@.rows[w].contains_key(k);
                        assert(has_key(row.keys(), k));
                        let pp = choose|pp: int| 0 <= pp < row.keys().len() && row.keys()[pp] == k;
                        assert(store@.rows[w].contains_key(row.keys()[pp] as nat));
                    } else {
                        assert(dirty1[w]);
                    }
                }
            }
        }
        t = t + 1;
    }
    proof {
        assert forall|w: int| 0 <= w < n implies (dirty@[w] <==> dirty0[w] || reaches(
            store@,
            touched@,
            w,
        )) by {
            if reaches(store@, touched@, w) {
                let t2 = choose|t2: int|
                    0 <= t2 < touched@.len() && ((#[trigger] touched@[t2]) == w || shares_item(
                        store@,
                        touched@[t2] as int,
                        w,
                    ));
                assert(done@[touched@[t2] as int]);
            }
        }
    }
}

/// Recomputes the neighbour list of every user marked stale and clears the
/// marks; all other lists are left untouched.
pub fn refresh(
    store: &SparseInteractionStore,
    k: usize,
    min_score: u64,
    metric: Metric,
    table: &mut Vec<Vec<Scored>>,
    dirty: &mut Vec<bool>,
)
    requires
        store.wf(),
        old(table)@.len() == store@.user_ids.len(),
        old(dirty)@.len() == store@.user_ids.len(),
    ensures
        final(table)@.len() == old(table)@.len(),
        final(dirty)@.len() == old(dirty)@.len(),
        forall|u: int| 0 <= u < final(dirty)@.len() ==> !final(dirty)@[u],
        forall|u: int|
            0 <= u < old(dirty)@.len() && !old(dirty)@[u] ==> final(table)@[u] == old(table)@[u],
        forall|u: int|
            0 <= u < old(dirty)@.len() && old(dirty)@[u] ==> is_top_k(
                (#[trigger] final(table)@[u])@,
                neighbor_candidates(store@, metric, min_score, u),
                k as nat,
            ) && row_valid(final(table)@[u]@, store@.user_ids.len()),
{
    let n: usize = store.n_users();
    let ghost table0 = table@;
    let ghost dirty0 = dirty@;
    let mut visited: Vec<bool> = cleared_flags(n);
    let mut u: usize = 0;
    while u < n
        invariant
            store.wf(),
            n == store@.user_ids.len(),
            visited@.len() == n,
            forall|v: int| 0 <= v < n ==> !visited@[v],
            table@.len() == n,
            dirty@.len() == n,
            table0.len() == n,
            dirty0.len() == n,
            u <= n,
            forall|w: int| 0 <= w < u ==> !dirty@[w],
            forall|w: int| u <= w < n ==> dirty@[w] == dirty0[w] && table@[w] == table0[w],
            forall|w: int| 0 <= w < u && !dirty0[w] ==> table@[w] == table0[w],
            forall|w: int|
                0 <= w < u && dirty0[w] ==> is_top_k(
                    (#[trigger] table@[w])@,
                    neighbor_candidates(store@, metric, min_score, w),
                    k as nat,
                ) && row_valid(table@[w]@, store@.user_ids.len()),
        decreases n - u,
    {
        if dirty[u] {
            let r = top_k_neighbors_in(store, u, k, min_score, metric, &mut visited);
            table.set(u, r);
            dirty.set(u, false);
        }
        u = u + 1;
    }
}

} // verus!
