//! Scoring an item for a user from the user's neighbours.

use crate::config::SCORE_ONE;
use crate::neighbors::row_valid;
use crate::ranking::Scored;
use crate::sparse::MAX_WEIGHT;
use crate::store::{SparseInteractionStore, StoreView};
use vstd::prelude::*;

verus! {

/// The neighbour `e` has interacted with `item`.
pub open spec fn has_rated(store: StoreView, e: Scored, item: nat) -> bool {
    store.rows[e.index as int].contains_key(item)
}

/// Sum over the first `n` neighbours that have interacted with `item` of
/// similarity times weight.
pub open spec fn weighted_sum(store: StoreView, nbrs: Seq<Scored>, item: nat, n: nat) -> nat
    decreases n,
{
    if n == 0 {
        0
    } else {
        let e = nbrs[n - 1];
        weighted_sum(store, nbrs, item, (n - 1) as nat) + if has_rated(store, e, item) {
            (e.score as nat) * store.rows[e.index as int][item]
        } else {
            0
        }
    }
}

/// Sum over the first `n` neighbours that have interacted with `item` of
/// their similarity.
pub open spec fn score_sum(store: StoreView, nbrs: Seq<Scored>, item: nat, n: nat) -> nat
    decreases n,
{
    if n == 0 {
        0
    } else {
        let e = nbrs[n - 1];
        score_sum(store, nbrs, item, (n - 1) as nat) + if has_rated(store, e, item) {
            e.score as nat
        } else {
            0
        }
    }
}

/// The predicted weight of `item`: the similarity-weighted mean of the
/// weights the neighbours gave it, rounded down; nothing if the similarities
/// of the neighbours that have interacted with it sum to zero.
pub open spec fn prediction(store: StoreView, nbrs: Seq<Scored>, item: nat) -> Option<nat> {
    let den = score_sum(store, nbrs, item, nbrs.len());
    if den == 0 {
        None
    } else {
        Some(weighted_sum(store, nbrs, item, nbrs.len()) / den)
    }
}

/// With positive similarities, the similarity sum over a prefix is zero
/// exactly if no neighbour in the prefix has interacted with the item.
pub proof fn lemma_score_sum_zero(store: StoreView, nbrs: Seq<Scored>, item: nat, n: nat)
    requires
        n <= nbrs.len(),
        forall|p: int| 0 <= p < nbrs.len() ==> (#[trigger] nbrs[p]).score > 0,
    ensures
        score_sum(store, nbrs, item, n) == 0 <==> forall|p: int|
            0 <= p < n ==> !has_rated(store, #[trigger] nbrs[p], item),
    decreases n,
{
    if n > 0 {
        lemma_score_sum_zero(store, nbrs, item, (n - 1) as nat);
        let e = nbrs[n - 1];
        assert(e.score > 0);
        if score_sum(store, nbrs, item, n) == 0 {
            assert forall|p: int| 0 <= p < n implies !has_rated(store, #[trigger] nbrs[p], item) by {
                if p == n - 1 {
                } else {
                }
            }
        }
    }
}

/// A prediction exists exactly if some neighbour has interacted with the
/// item, given that all similarities are positive.
pub proof fn lemma_prediction_defined(store: StoreView, nbrs: Seq<Scored>, item: nat)
    requires
        forall|p: int| 0 <= p < nbrs.len() ==> (#[trigger] nbrs[p]).score > 0,
    ensures
        prediction(store, nbrs, item) is Some <==> exists|p: int|
            0 <= p < nbrs.len() && has_rated(store, #[trigger] nbrs[p], item),
{
    lemma_score_sum_zero(store, nbrs, item, nbrs.len());
}

/// A quotient is bounded if the dividend is bounded by a multiple of the
/// divisor.
proof fn lemma_mean_bounded(num: nat, den: nat, bound: nat)
    requires
        den > 0,
        num <= bound * den,
    ensures
        num / den <= bound,
{
    vstd::arithmetic::div_mod::lemma_fundamental_div_mod(num as int, den as int);
    vstd::arithmetic::div_mod::lemma_mod_bound(num as int, den as int);
    let q = num / den;
    if q > bound {
        assert(den * q >= den * (bound + 1)) by (nonlinear_arith)
            requires
                q >= bound + 1,
                den > 0,
        ;
        assert(den * (bound + 1) == bound * den + den) by (nonlinear_arith);
    }
}

/// The predicted weight of the item with index `item`, from the given
/// neighbour list.
pub fn predict_from(store: &SparseInteractionStore, nbrs: &Vec<Scored>, item: usize) -> (r: Option<
    u64,
>)
    requires
        store.wf(),
        row_valid(nbrs@, store@.user_ids.len()),
    ensures
        match prediction(store@, nbrs@, item as nat) {
            Some(s) => r == Some(s as u64) && s <= MAX_WEIGHT,
            None => r is None,
        },
{
    let n: usize = nbrs.len();
    let mut num: u128 = 0;
    let mut den: u128 = 0;
    let mut p: usize = 0;
    while p < n
        invariant
            store.wf(),
            row_valid(nbrs@, store@.user_ids.len()),
            n == nbrs@.len(),
            p <= n,
            num == weighted_sum(store@, nbrs@, item as nat, p as nat),
            den == score_sum(store@, nbrs@, item as nat, p as nat),
            num <= 10_000 * den,
            den <= p * 100_000,
        decreases n - p,
    {
        let e: Scored = nbrs[p];
        assert(e.index < store@.user_ids.len() && e.score <= SCORE_ONE);
        match store.row_at(e.index).get(item) {
            Some(w) => {
                proof {
                    store.lemma_row_bounded(e.index as int, item as nat);
                    assert(e.score * w <= 10_000 * e.score) by (nonlinear_arith)
                        requires
                            w <= 10_000,
                    ;
                    assert(e.score * w <= 1_000_000_000) by (nonlinear_arith)
                        requires
                            w <= 10_000,
                            e.score <= 100_000,
                    ;
                }
                num = num + (e.score as u128) * (w as u128);
                den = den + (e.score as u128);
            },
            None => {},
        }
        p = p + 1;
    }
    if den == 0 {
        None
    } else {
        proof {
            lemma_mean_bounded(num as nat, den as nat, 10_000);
        }
        Some((num / den) as u64)
    }
}

} // verus!
