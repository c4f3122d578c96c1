//! Properties of the engine as a whole, proved from the contracts of its
//! operations.

use crate::error::RecError;
use crate::incremental::{
    affected, lemma_insert_all_evolves, lemma_top_k_extend, lemma_unaffected_candidates,
};
use crate::predict::{has_rated, lemma_prediction_defined};
use crate::ranking::{is_top_k, lemma_top_k_unique, ranked, Scored};
use crate::recommend::item_candidates;
use crate::similarity::lemma_rows_similarity_symmetric;
use crate::store::{Interaction, StoreView};
use crate::user_cf::ModelView;
use vstd::prelude::*;

verus! {

/// Similarity is symmetric: the similarity of `a` to `b` is that of `b` to
/// `a`, whatever the store holds and whichever metric is configured.
pub proof fn lemma_similarity_symmetric(m: ModelView, user_a: u64, user_b: u64)
    ensures
        m.similarity(user_a, user_b) == m.similarity(user_b, user_a),
{
    if m.store.user_ids.contains(user_a) && m.store.user_ids.contains(user_b) {
        lemma_rows_similarity_symmetric(
            m.store.rows[m.store.user_ids.index_of(user_a)],
            m.store.rows[m.store.user_ids.index_of(user_b)],
            m.config.metric,
        );
    }
}

/// Neighbour lists are bounded: in every model, stale lists included,
/// every list holds at most `k` entries, best first, and every entry names
/// another user and has a similarity of at least the configured floor.
pub proof fn lemma_neighbor_lists_bounded(m: ModelView, u: int)
    requires
        m.well_formed(),
        0 <= u < m.table.len(),
    ensures
        m.table[u].len() <= m.config.k,
        ranked(m.table[u]),
        forall|p: int|
            0 <= p < m.table[u].len() ==> (#[trigger] m.table[u][p]).score
                >= m.config.min_similarity && m.table[u][p].index != u,
{
    assert(m.bounded(u));
}

/// Inserting one batch after another is inserting their concatenation.
pub proof fn lemma_insert_all_concat(s: StoreView, first: Seq<Interaction>, second: Seq<Interaction>)
    ensures
        s.insert_all(first + second) == match s.insert_all(first) {
            Ok(mid) => mid.insert_all(second),
            Err(e) => Err(e),
        },
    decreases first.len(),
{
    if first.len() == 0 {
        assert(first + second =~= second);
    } else {
        let all = first + second;
        assert(all[0] == first[0]);
        assert(all.skip(1) =~= first.skip(1) + second);
        match s.insert(first[0].user, first[0].item, first[0].weight as int) {
            Ok(v) => {
                lemma_insert_all_concat(v, first.skip(1), second);
            },
            Err(_) => {},
        }
    }
}

/// Building is deterministic: two fitted models without stale lists that
/// hold the same interactions under the same configuration have identical
/// neighbour lists, order of equal scores included.
pub proof fn lemma_fit_deterministic(m1: ModelView, m2: ModelView)
    requires
        m1.well_formed(),
        m2.well_formed(),
        m1.fitted,
        m2.fitted,
        m1.clean(),
        m2.clean(),
        m1.store == m2.store,
        m1.config == m2.config,
    ensures
        m1.table == m2.table,
{
    assert forall|u: int| 0 <= u < m1.table.len() implies m1.table[u] == m2.table[u] by {
        assert(m1.current(u));
        assert(m2.current(u));
        lemma_top_k_unique(m1.table[u], m2.table[u], m1.candidates(u), m1.config.k as nat);
    }
    assert(m1.table =~= m2.table);
}

/// Loading is deterministic too: two models that start from the same
/// content, absorb the same interactions in the same order and are then
/// fitted have identical neighbour lists.
pub proof fn lemma_build_deterministic(
    start1: ModelView,
    start2: ModelView,
    loaded1: ModelView,
    loaded2: ModelView,
    fitted1: ModelView,
    fitted2: ModelView,
    batch: Seq<Interaction>,
)
    requires
        start1.store == start2.store,
        start1.config == start2.config,
        start1.absorbed(loaded1, batch),
        start2.absorbed(loaded2, batch),
        loaded1.fitted_to(fitted1),
        loaded2.fitted_to(fitted2),
        fitted1.well_formed(),
        fitted2.well_formed(),
    ensures
        fitted1.table == fitted2.table,
{
    lemma_fit_deterministic(fitted1, fitted2);
}

/// Incremental update equals rebuild: after a batch is absorbed into a
/// fitted model and the stale lists are refreshed, every neighbour list is
/// the one a model fitted from scratch on the combined interactions has.
pub proof fn lemma_incremental_equals_rebuild(
    before: ModelView,
    absorbed: ModelView,
    refreshed: ModelView,
    rebuilt: ModelView,
    batch: Seq<Interaction>,
)
    requires
        before.well_formed(),
        before.fitted,
        before.absorbed(absorbed, batch),
        absorbed.well_formed(),
        absorbed.refreshed(refreshed),
        refreshed.well_formed(),
        rebuilt.well_formed(),
        rebuilt.fitted,
        rebuilt.clean(),
        rebuilt.config == before.config,
        before.store.insert_all(batch) == Ok::<StoreView, RecError>(rebuilt.store),
    ensures
        refreshed.table == rebuilt.table,
{
    lemma_fit_deterministic(refreshed, rebuilt);
}

/// Incremental update leaves the unaffected alone: a user whose row did not
/// change, and who shares no item with a user whose row did, has the same
/// neighbour list after absorbing and refreshing as before.
pub proof fn lemma_unaffected_lists_kept(
    before: ModelView,
    absorbed: ModelView,
    refreshed: ModelView,
    batch: Seq<Interaction>,
    u: int,
)
    requires
        before.well_formed(),
        before.fitted,
        before.absorbed(absorbed, batch),
        absorbed.well_formed(),
        absorbed.refreshed(refreshed),
        refreshed.well_formed(),
        0 <= u < before.table.len(),
        !before.dirty[u],
        !affected(before.store, absorbed.store, u),
    ensures
        refreshed.table[u] == before.table[u],
{
    lemma_insert_all_evolves(before.store, batch);
    assert(before.current(u));
    lemma_unaffected_candidates(
        before.store,
        absorbed.store,
        before.config.metric,
        before.config.min_similarity,
        u,
    );
    lemma_top_k_extend(
        before.table[u],
        before.candidates(u),
        refreshed.candidates(u),
        before.config.k as nat,
    );
    assert(refreshed.current(u));
    lemma_top_k_unique(
        refreshed.table[u],
        before.table[u],
        refreshed.candidates(u),
        before.config.k as nat,
    );
}

/// A prediction fails for want of neighbour data exactly if no neighbour of
/// the user has interacted with the item.
pub proof fn lemma_no_neighbor_data(m: ModelView, user: u64, item: u64)
    requires
        m.well_formed(),
        m.fitted,
        m.store.user_ids.contains(user),
        m.store.item_ids.contains(item),
    ensures
        ({
            let u = m.store.user_ids.index_of(user);
            let i = m.store.item_ids.index_of(item) as nat;
            let no_data = Err::<nat, RecError>(RecError::NoNeighborData);
            m.predict(user, item) == no_data <==> forall|p: int|
                0 <= p < m.table[u].len() ==> !has_rated(m.store, #[trigger] m.table[u][p], i)
        }),
{
    let u = m.store.user_ids.index_of(user);
    let i = m.store.item_ids.index_of(item) as nat;
    assert(0 <= u < m.store.user_ids.len());
    assert(m.bounded(u));
    lemma_prediction_defined(m.store, m.table[u], i);
}

/// With `exclude_seen`, no recommended item is one the user has interacted
/// with.
pub proof fn lemma_recommend_excludes_seen(
    store: StoreView,
    nbrs: Seq<Scored>,
    user: int,
    list: Seq<Scored>,
    n: nat,
)
    requires
        is_top_k(list, item_candidates(store, nbrs, user, true), n),
    ensures
        forall|p: int|
            0 <= p < list.len() ==> !store.rows[user].contains_key(
                (#[trigger] list[p]).index as nat,
            ),
{
    let cand = item_candidates(store, nbrs, user, true);
    assert forall|p: int| 0 <= p < list.len() implies !store.rows[user].contains_key(
        (#[trigger] list[p]).index as nat,
    ) by {
        assert(cand[list[p].index as int] == Some(list[p].score));
    }
}

/// Refreshing is idempotent: a second refresh right after a first changes
/// nothing.
pub proof fn lemma_refresh_idempotent(start: ModelView, once: ModelView, twice: ModelView)
    requires
        start.well_formed(),
        start.refreshed(once),
        once.refreshed(twice),
    ensures
        twice == once,
{
    assert forall|u: int| 0 <= u < once.table.len() implies twice.table[u] == once.table[u] by {
        assert(!once.dirty[u]);
    }
    assert(twice.table =~= once.table);
    assert(twice.dirty =~= once.dirty);
}

} // verus!
