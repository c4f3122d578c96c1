//! Ranking the items a user's neighbours have interacted with.

use crate::heap::TopK;
use crate::neighbors::{cleared_flags, lemma_scan_done, lemma_scan_offer, row_valid, scan_ok};
use crate::predict::{has_rated, lemma_prediction_defined, predict_from, prediction};
use crate::ranking::{is_top_k, Scored};
use crate::sparse::has_key;
use crate::store::{SparseInteractionStore, StoreView};
use vstd::prelude::*;

verus! {

/// For each item index, its predicted weight if the item may be
/// recommended: some neighbour has interacted with it and, when
/// `exclude_seen` is set, the user has not.
pub open spec fn item_candidates(
    store: StoreView,
    nbrs: Seq<Scored>,
    user: int,
    exclude_seen: bool,
) -> Seq<Option<u64>> {
    Seq::new(
        store.item_ids.len(),
        |i: int|
            if exclude_seen && store.rows[user].contains_key(i as nat) {
                None
            } else {
                match prediction(store, nbrs, i as nat) {
                    Some(s) => Some(s as u64),
                    None => None,
                }
            },
    )
}

/// The `n` items with the highest predicted weight for the user with index
/// `user`, best first, from the given neighbour list.
///
/// Only items that some neighbour has interacted with are scored, each
/// once.
pub fn recommend_from(
    store: &SparseInteractionStore,
    nbrs: &Vec<Scored>,
    user: usize,
    n: usize,
    exclude_seen: bool,
) -> (r: Vec<Scored>)
    requires
        store.wf(),
        user < store@.user_ids.len(),
        row_valid(nbrs@, store@.user_ids.len()),
    ensures
        is_top_k(r@, item_candidates(store@, nbrs@, user as int, exclude_seen), n as nat),
{
    let n_items: usize = store.n_items();
    let ghost cand = item_candidates(store@, nbrs@, user as int, exclude_seen);
    let own = store.row_at(user);
    let mut visited: Vec<bool> = cleared_flags(n_items);
    let mut top: TopK = TopK::new(n);
    let n_nbrs: usize = nbrs.len();
    let mut p: usize = 0;
    proof {
        assert(scan_ok(top@, visited@, cand, n as nat));
    }
    while p < n_nbrs
        invariant
            store.wf(),
            user < store@.user_ids.len(),
            row_valid(nbrs@, store@.user_ids.len()),
            n_items == store@.item_ids.len(),
            n_nbrs == nbrs@.len(),
            own.wf(),
            own@ == store@.rows[user as int],
            p <= n_nbrs,
            cand == item_candidates(store@, nbrs@, user as int, exclude_seen),
            top.wf(),
            top.capacity() == n,
            scan_ok(top@, visited@, cand, n as nat),
            forall|pp: int, i: int|
                0 <= pp < p && 0 <= i < n_items && #[trigger] has_rated(
                    store@,
                    nbrs@[pp],
                    i as nat,
                ) ==> visited@[i],
        decreases n_nbrs - p,
    {
        let e: Scored = nbrs[p];
        assert(e.index < store@.user_ids.len());
        let theirs = store.row_at(e.index);
        let len: usize = theirs.len();
        let mut q: usize = 0;
        proof {
            theirs.lemma_wf_facts();
        }
        while q < len
            invariant
                store.wf(),
                user < store@.user_ids.len(),
                row_valid(nbrs@, store@.user_ids.len()),
                n_items == store@.item_ids.len(),
                n_nbrs == nbrs@.len(),
                own.wf(),
                own@ == store@.rows[user as int],
                p < n_nbrs,
                e == nbrs@[p as int],
                e.index < store@.user_ids.len(),
                theirs.wf(),
                theirs@ == store@.rows[e.index as int],
                len == theirs.keys().len(),
                q <= len,
                cand == item_candidates(store@, nbrs@, user as int, exclude_seen),
                top.wf(),
            top.capacity() == n,
            scan_ok(top@, visited@, cand, n as nat),
                forall|pp: int, i: int|
                    0 <= pp < p && 0 <= i < n_items && #[trigger] has_rated(
                        store@,
                        nbrs@[pp],
                        i as nat,
                    ) ==> visited@[i],
                forall|q2: int|
                    0 <= q2 < q ==> theirs.keys()[q2] < n_items && visited@[#[trigger] theirs.keys()[q2] as int],
            decreases len - q,
        {
            let item: usize = theirs.key_at(q);
            proof {
                store.lemma_row_bounded(e.index as int, item as nat);
            }
            if !visited[item] {
                let ghost visited0 = visited@;
                let ghost out0 = top@;
                let seen: bool = exclude_seen && own.contains(item);
                let score: Option<u64> = if seen {
                    None
                } else {
                    predict_from(store, nbrs, item)
                };
                match score {
                    Some(s) => {
                        let x = Scored { index: item, score: s };
                        proof {
                            assert(cand[item as int] == Some(s));
                            assert forall|i: int| 0 <= i < out0.len() implies out0[i].index
                                != x.index by {
                                assert(visited0[out0[i].index as int]);
                            }
                        }
                        top.offer(x);
                        visited.set(item, true);
                        proof {
                            lemma_scan_offer(out0, top@, visited0, cand, n as nat, x);
                        }
                    },
                    None => {
                        visited.set(item, true);
                        proof {
                            assert(cand[item as int] is None);
                            assert(scan_ok(top@, visited@, cand, n as nat));
                        }
                    },
                }
            }
            q = q + 1;
        }
        proof {
            assert forall|pp: int, i: int|
                0 <= pp < p + 1 && 0 <= i < n_items && #[trigger] has_rated(
                    store@,
                    nbrs@[pp],
                    i as nat,
                ) implies visited@[i] by {
                if pp == p {
                    assert(theirs@.contains_key(i as nat));
                    assert(has_key(theirs.keys(), i as nat));
                    let q2 = choose|q2: int| 0 <= q2 < theirs.keys().len() && theirs.keys()[q2] == i;
                    assert(visited@[theirs.keys()[q2] as int]);
                }
            }
        }
        p = p + 1;
    }
    proof {
        assert forall|i: int| 0 <= i < cand.len() && (#[trigger] cand[i]) is Some implies visited@[i] by {
            lemma_prediction_defined(store@, nbrs@, i as nat);
            let pp = choose|pp: int|
                0 <= pp < nbrs@.len() && has_rated(store@, #[trigger] nbrs@[pp], i as nat);
            assert(has_rated(store@, nbrs@[pp], i as nat));
        }
    }
    let ghost kept = top@;
    let out = top.into_ranked();
    proof {
        lemma_scan_done(kept, out@, visited@, cand, n as nat);
    }
    out
}

} // verus!
