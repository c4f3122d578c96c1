//! The model: an interaction store with the neighbour lists derived from it.

use crate::config::{Config, DuplicatePolicy};
use crate::error::RecError;
use crate::incremental::{
    affected, apply_batch, changed, check_batch, evolves, lemma_top_k_extend,
    lemma_unaffected_candidates, mark_dirty, reaches, refresh, shares_item, touches,
};
use crate::neighbors::{build_all, cleared_flags, neighbor_candidates, row_valid};
use crate::predict::{predict_from, prediction};
use crate::ranking::{is_top_k, ranked, Scored};
use crate::recommend::{item_candidates, recommend_from};
use crate::similarity::{lemma_rows_similarity_bounded, rows_similarity, similarity_rows};
use crate::sparse::MAX_WEIGHT;
use crate::store::{Interaction, SparseInteractionStore, StoreView};
use vstd::prelude::*;

verus! {

/// A recommended item with its predicted weight.
#[derive(Clone, Copy, Debug, PartialEq, Eq, Structural)]
pub struct Recommendation {
    /// External identifier of the item.
    pub item: u64,
    /// Index of the item in the store.
    pub index: usize,
    /// Predicted weight.
    pub score: u64,
}

/// The index and score of each recommendation.
pub open spec fn scored(list: Seq<Recommendation>) -> Seq<Scored> {
    Seq::new(list.len(), |p: int| Scored { index: list[p].index, score: list[p].score })
}

/// The sequences that a vector of vectors stands for.
pub open spec fn lists_of(t: Seq<Vec<Scored>>) -> Seq<Seq<Scored>> {
    Seq::new(t.len(), |u: int| t[u]@)
}

/// The mathematical content of a model.
pub struct ModelView {
    /// The interactions.
    pub store: StoreView,
    /// The configuration the model was created with.
    pub config: Config,
    /// For each user index, the neighbour list, best first.
    pub table: Seq<Seq<Scored>>,
    /// For each user index, whether the neighbour list is stale.
    pub dirty: Seq<bool>,
    /// Whether the model has been fitted.
    pub fitted: bool,
}

impl ModelView {
    /// The candidates for the neighbour list of `u` in the present store.
    pub open spec fn candidates(self, u: int) -> Seq<Option<u64>> {
        neighbor_candidates(self.store, self.config.metric, self.config.min_similarity, u)
    }

    /// The neighbour list of `u` is what a rebuild from the present store
    /// would give.
    pub open spec fn current(self, u: int) -> bool {
        is_top_k(self.table[u], self.candidates(u), self.config.k as nat)
    }

    /// The neighbour list of `u` holds at most `k` entries in rank order,
    /// each naming a known user other than `u` with a similarity between
    /// the configured floor and one.
    pub open spec fn bounded(self, u: int) -> bool {
        &&& self.table[u].len() <= self.config.k
        &&& ranked(self.table[u])
        &&& row_valid(self.table[u], self.store.user_ids.len())
        &&& forall|p: int|
            0 <= p < self.table[u].len() ==> (#[trigger] self.table[u][p]).score
                >= self.config.min_similarity && self.table[u][p].index != u
    }

    /// The invariant of every reachable model: before the first fit there
    /// are no neighbour lists; afterwards there is a bounded list for every
    /// user, and every list that is not marked stale is current.
    pub open spec fn well_formed(self) -> bool {
        &&& self.store.well_formed()
        &&& self.store.accumulate == (self.config.duplicate_policy == DuplicatePolicy::Accumulate)
        &&& self.table.len() == self.dirty.len()
        &&& self.table.len() == if self.fitted {
            self.store.user_ids.len()
        } else {
            0
        }
        &&& forall|u: int| 0 <= u < self.table.len() ==> #[trigger] self.bounded(u)
        &&& forall|u: int| 0 <= u < self.table.len() && !self.dirty[u] ==> #[trigger] self.current(u)
    }

    /// No neighbour list is marked stale.
    pub open spec fn clean(self) -> bool {
        forall|u: int| 0 <= u < self.dirty.len() ==> !self.dirty[u]
    }

    /// The similarity of two users given by identifier.
    pub open spec fn similarity(self, user_a: u64, user_b: u64) -> Result<nat, RecError> {
        if !self.store.user_ids.contains(user_a) || !self.store.user_ids.contains(user_b) {
            Err(RecError::UnknownUser)
        } else {
            Ok(
                rows_similarity(
                    self.store.rows[self.store.user_ids.index_of(user_a)],
                    self.store.rows[self.store.user_ids.index_of(user_b)],
                    self.config.metric,
                ),
            )
        }
    }

    /// The outcome of predicting the weight of `item` for `user`.
    pub open spec fn predict(self, user: u64, item: u64) -> Result<nat, RecError> {
        if !self.fitted {
            Err(RecError::ModelNotFit)
        } else if !self.store.user_ids.contains(user) {
            Err(RecError::UnknownUser)
        } else if !self.store.item_ids.contains(item) {
            Err(RecError::UnknownItem)
        } else {
            match prediction(
                self.store,
                self.table[self.store.user_ids.index_of(user)],
                self.store.item_ids.index_of(item) as nat,
            ) {
                Some(s) => Ok(s),
                None => Err(RecError::NoNeighborData),
            }
        }
    }

    /// Why a recommendation request fails, if it does.
    pub open spec fn recommend_error(self, user: u64) -> Option<RecError> {
        if !self.fitted {
            Some(RecError::ModelNotFit)
        } else if !self.store.user_ids.contains(user) {
            Some(RecError::UnknownUser)
        } else {
            None
        }
    }

    /// `after` is the model right after a fit of `self`.
    pub open spec fn fitted_to(self, after: ModelView) -> bool {
        &&& after.store == self.store
        &&& after.config == self.config
        &&& after.fitted
        &&& after.clean()
    }

    /// `after` is the model right after the accepted batch was absorbed:
    /// the store holds the batch, known users keep their lists, new users
    /// start with an empty list, and the users marked are those that were
    /// marked before, those the batch names and those sharing an item with
    /// one it names; they include every user whose list may have gone
    /// stale.
    pub open spec fn absorbed(self, after: ModelView, batch: Seq<Interaction>) -> bool {
        &&& self.store.insert_all(batch) == Ok::<StoreView, RecError>(after.store)
        &&& after.config == self.config
        &&& after.fitted == self.fitted
        &&& self.table.len() <= after.table.len()
        &&& forall|u: int| 0 <= u < self.table.len() ==> after.table[u] == self.table[u]
        &&& forall|u: int| self.table.len() <= u < after.table.len() ==> after.table[u].len() == 0
        &&& forall|u: int|
            0 <= u < after.dirty.len() ==> (after.dirty[u] <==> (u < self.dirty.len()
                && self.dirty[u]) || touches(after.store, batch, u))
        &&& forall|u: int|
            0 <= u < after.dirty.len() && #[trigger] affected(self.store, after.store, u)
                ==> after.dirty[u]
    }

    /// `after` is the model right after a refresh of `self`: nothing is
    /// marked any more, and only lists that were marked may differ.
    pub open spec fn refreshed(self, after: ModelView) -> bool {
        &&& after.store == self.store
        &&& after.config == self.config
        &&& after.fitted == self.fitted
        &&& after.table.len() == self.table.len()
        &&& after.dirty.len() == self.dirty.len()
        &&& after.clean()
        &&& forall|u: int|
            0 <= u < self.table.len() && !self.dirty[u] ==> after.table[u] == self.table[u]
    }
}

/// A list that is current is bounded.
pub proof fn lemma_current_bounded(m: ModelView, u: int)
    requires
        0 <= u < m.table.len(),
        m.table.len() == m.store.rows.len(),
        m.store.rows.len() == m.store.user_ids.len(),
        m.current(u),
    ensures
        m.bounded(u),
{
    let r = m.table[u];
    let cand = m.candidates(u);
    assert forall|p: int| 0 <= p < r.len() implies (#[trigger] r[p]).index
        < m.store.user_ids.len() && 0 < r[p].score <= crate::config::SCORE_ONE && r[p].score
        >= m.config.min_similarity && r[p].index != u by {
        let v = r[p].index as int;
        assert(cand[v] == Some(r[p].score));
        lemma_rows_similarity_bounded(m.store.rows[u], m.store.rows[v], m.config.metric);
    }
}

/// A user-based collaborative-filtering model.
///
/// A model starts unfitted. [`UserCF::fit`] builds the neighbour lists and
/// makes it fitted; it stays fitted from then on. Predictions and
/// recommendations are answered from the stored neighbour lists, so after
/// [`UserCF::add_interactions`] they reflect the new interactions only once
/// [`UserCF::refresh_dirty`] has run. Queries borrow the model shared and
/// can run side by side; loading, fitting and refreshing borrow it
/// exclusively, so none of them can overlap with a query.
pub struct UserCF {
    store: SparseInteractionStore,
    config: Config,
    table: Vec<Vec<Scored>>,
    dirty: Vec<bool>,
    fitted: bool,
}

impl View for UserCF {
    type V = ModelView;

    closed spec fn view(&self) -> ModelView {
        ModelView {
            store: self.store@,
            config: self.config,
            table: lists_of(self.table@),
            dirty: self.dirty@,
            fitted: self.fitted,
        }
    }
}

impl UserCF {
    /// Representation invariant.
    pub closed spec fn wf(&self) -> bool {
        self.store.wf() && self@.well_formed()
    }

    /// A well-formed model has well-formed content.
    pub proof fn lemma_wf_view(&self)
        requires
            self.wf(),
        ensures
            self@.well_formed(),
    {
    }

    /// An unfitted model over an empty store with the given capacity.
    pub fn new(config: Config, max_users: usize, max_items: usize) -> (m: UserCF)
        ensures
            m.wf(),
            !m@.fitted,
            m@.config == config,
            m@.store.user_ids.len() == 0,
            m@.store.item_ids.len() == 0,
            m@.store.rows.len() == 0,
            m@.store.max_users == if max_users <= crate::sparse::MAX_DIM {
                max_users
            } else {
                crate::sparse::MAX_DIM
            },
            m@.store.max_items == if max_items <= crate::sparse::MAX_DIM {
                max_items
            } else {
                crate::sparse::MAX_DIM
            },
    {
        let store = SparseInteractionStore::new(max_users, max_items, config.duplicate_policy);
        proof {
            store.lemma_wf_view();
        }
        UserCF { store, config, table: Vec::new(), dirty: Vec::new(), fitted: false }
    }

    /// An unfitted model over an existing store. The duplicate policy of
    /// the model is that of the store.
    pub fn from_store(
        store: SparseInteractionStore,
        k: usize,
        min_similarity: u64,
        metric: crate::config::Metric,
    ) -> (m: UserCF)
        requires
            store.wf(),
        ensures
            m.wf(),
            !m@.fitted,
            m@.store == store@,
            m@.config.k == k,
            m@.config.min_similarity == min_similarity,
            m@.config.metric == metric,
            store@.accumulate == (m@.config.duplicate_policy == DuplicatePolicy::Accumulate),
    {
        let config = Config { k, min_similarity, metric, duplicate_policy: store.policy() };
        proof {
            store.lemma_wf_view();
        }
        UserCF { store, config, table: Vec::new(), dirty: Vec::new(), fitted: false }
    }

    /// The interaction store.
    pub fn store(&self) -> (s: &SparseInteractionStore)
        requires
            self.wf(),
        ensures
            s.wf(),
            s@ == self@.store,
    {
        &self.store
    }

    /// The configuration.
    pub fn config(&self) -> (c: Config)
        ensures
            c == self@.config,
    {
        self.config
    }

    /// Whether the model has been fitted.
    pub fn is_fit(&self) -> (b: bool)
        ensures
            b == self@.fitted,
    {
        self.fitted
    }

    /// Rebuilds the neighbour list of every user from the store.
    pub fn fit(&mut self)
        requires
            old(self).wf(),
        ensures
            final(self).wf(),
            old(self)@.fitted_to(final(self)@),
            forall|u: int| 0 <= u < final(self)@.table.len() ==> #[trigger] final(self)@.current(u),
    {
        let table = build_all(
            &self.store,
            self.config.k,
            self.config.min_similarity,
            self.config.metric,
        );
        let n = self.store.n_users();
        let dirty = cleared_flags(n);
        self.table = table;
        self.dirty = dirty;
        self.fitted = true;
        proof {
            self.store.lemma_wf_view();
            let m = self@;
            assert forall|u: int| 0 <= u < m.table.len() implies #[trigger] m.current(u) by {
                assert(m.table[u] == self.table@[u]@);
            }
            assert forall|u: int| 0 <= u < m.table.len() implies #[trigger] m.bounded(u) by {
                assert(m.current(u));
                lemma_current_bounded(m, u);
            }
        }
    }

    /// The neighbour list of a user, best first.
    pub fn neighbors(&self, user: u64) -> (r: Result<&Vec<Scored>, RecError>)
        requires
            self.wf(),
        ensures
            match r {
                Ok(list) => {
                    &&& self@.recommend_error(user) is None
                    &&& list@ == self@.table[self@.store.user_ids.index_of(user)]
                    &&& list@.len() <= self@.config.k
                    &&& ranked(list@)
                    &&& forall|p: int|
                        0 <= p < list@.len() ==> (#[trigger] list@[p]).score
                            >= self@.config.min_similarity && list@[p].index
                            != self@.store.user_ids.index_of(user)
                },
                Err(e) => self@.recommend_error(user) == Some(e),
            },
    {
        if !self.fitted {
            return Err(RecError::ModelNotFit);
        }
        match self.store.user_index(user) {
            Ok(u) => {
                proof {
                    assert(self@.bounded(u as int));
                    assert(self@.table[u as int] == self.table@[u as int]@);
                }
                Ok(&self.table[u])
            },
            Err(e) => Err(e),
        }
    }

    /// Whether the neighbour list of a user is marked stale.
    pub fn is_dirty(&self, user: u64) -> (r: Result<bool, RecError>)
        requires
            self.wf(),
        ensures
            match r {
                Ok(b) => self@.recommend_error(user) is None && b
                    == self@.dirty[self@.store.user_ids.index_of(user)],
                Err(e) => self@.recommend_error(user) == Some(e),
            },
    {
        if !self.fitted {
            return Err(RecError::ModelNotFit);
        }
        match self.store.user_index(user) {
            Ok(u) => Ok(self.dirty[u]),
            Err(e) => Err(e),
        }
    }

    /// The similarity of two users under the configured metric.
    pub fn similarity(&self, user_a: u64, user_b: u64) -> (r: Result<u64, RecError>)
        requires
            self.wf(),
        ensures
            match self@.similarity(user_a, user_b) {
                Ok(s) => r == Ok::<u64, RecError>(s as u64) && s <= crate::config::SCORE_ONE,
                Err(e) => r == Err::<u64, RecError>(e),
            },
    {
        let a = match self.store.user_index(user_a) {
            Ok(a) => a,
            Err(e) => {
                return Err(e);
            },
        };
        let b = match self.store.user_index(user_b) {
            Ok(b) => b,
            Err(e) => {
                return Err(e);
            },
        };
        Ok(similarity_rows(self.store.row_at(a), self.store.row_at(b), self.config.metric))
    }

    /// The predicted weight of `item` for `user`: the similarity-weighted
    /// mean of the weights that the user's neighbours gave the item.
    pub fn predict(&self, user: u64, item: u64) -> (r: Result<u64, RecError>)
        requires
            self.wf(),
        ensures
            match self@.predict(user, item) {
                Ok(s) => r == Ok::<u64, RecError>(s as u64) && s <= MAX_WEIGHT,
                Err(e) => r == Err::<u64, RecError>(e),
            },
    {
        if !self.fitted {
            return Err(RecError::ModelNotFit);
        }
        let u = match self.store.user_index(user) {
            Ok(u) => u,
            Err(e) => {
                return Err(e);
            },
        };
        let i = match self.store.item_index(item) {
            Ok(i) => i,
            Err(e) => {
                return Err(e);
            },
        };
        proof {
            assert(self@.bounded(u as int));
            assert(self@.table[u as int] == self.table@[u as int]@);
        }
        match predict_from(&self.store, &self.table[u], i) {
            Some(s) => Ok(s),
            None => Err(RecError::NoNeighborData),
        }
    }

    /// The `n` items with the highest predicted weight for `user`, best
    /// first, ties broken by lower item index. With `exclude_seen`, items
    /// the user has interacted with are left out.
    pub fn recommend(&self, user: u64, n: usize, exclude_seen: bool) -> (r: Result<
        Vec<Recommendation>,
        RecError,
    >)
        requires
            self.wf(),
        ensures
            match r {
                Ok(list) => {
                    &&& self@.recommend_error(user) is None
                    &&& is_top_k(
                        scored(list@),
                        item_candidates(
                            self@.store,
                            self@.table[self@.store.user_ids.index_of(user)],
                            self@.store.user_ids.index_of(user),
                            exclude_seen,
                        ),
                        n as nat,
                    )
                    &&& forall|p: int|
                        0 <= p < list@.len() ==> (#[trigger] list@[p]).index
                            < self@.store.item_ids.len() && list@[p].item
                            == self@.store.item_ids[list@[p].index as int]
                },
                Err(e) => self@.recommend_error(user) == Some(e),
            },
    {
        if !self.fitted {
            return Err(RecError::ModelNotFit);
        }
        let u = match self.store.user_index(user) {
            Ok(u) => u,
            Err(e) => {
                return Err(e);
            },
        };
        proof {
            assert(self@.bounded(u as int));
            assert(self@.table[u as int] == self.table@[u as int]@);
        }
        let top = recommend_from(&self.store, &self.table[u], u, n, exclude_seen);
        let mut list: Vec<Recommendation> = Vec::new();
        let len: usize = top.len();
        let mut p: usize = 0;
        while p < len
            invariant
                self.store.wf(),
                len == top@.len(),
                p <= len,
                list@.len() == p,
                forall|q: int|
                    0 <= q < top@.len() ==> (#[trigger] top@[q]).index
                        < self.store@.item_ids.len(),
                forall|q: int|
                    0 <= q < p ==> (#[trigger] list@[q]).index == top@[q].index && list@[q].score
                        == top@[q].score && list@[q].item
                        == self.store@.item_ids[top@[q].index as int],
            decreases len - p,
        {
            let e: Scored = top[p];
            let id: u64 = self.store.item_id(e.index);
            list.push(Recommendation { item: id, index: e.index, score: e.score });
            p = p + 1;
        }
        proof {
            assert(scored(list@) =~= top@);
        }
        Ok(list)
    }

    /// Inserts a batch of interactions, all or nothing, and marks as stale
    /// the neighbour list of every user the batch may affect.
    ///
    /// On failure the model is left exactly as it was, and the error is
    /// that of the first interaction that insertion in order would reject.
    pub fn add_interactions(&mut self, batch: &Vec<Interaction>) -> (r: Result<(), RecError>)
        requires
            old(self).wf(),
        ensures
            final(self).wf(),
            match r {
                Ok(_) => old(self)@.absorbed(final(self)@, batch@),
                Err(e) => old(self)@.store.insert_all(batch@) == Err::<StoreView, RecError>(e)
                    && final(self)@ == old(self)@,
            },
    {
        match check_batch(&self.store, batch) {
            Ok(_) => {},
            Err(e) => {
                return Err(e);
            },
        }
        let ghost m0 = self@;
        let touched = apply_batch(&mut self.store, batch);
        proof {
            self.store.lemma_wf_view();
        }
        if self.fitted {
            let n1: usize = self.store.n_users();
            let ghost table0 = self.table@;
            let ghost dirty0 = self.dirty@;
            while self.table.len() < n1
                invariant
                    self.table@.len() == self.dirty@.len(),
                    table0.len() <= self.table@.len() <= n1,
                    dirty0.len() == table0.len(),
                    forall|u: int| 0 <= u < table0.len() ==> self.table@[u] == table0[u],
                    forall|u: int| 0 <= u < table0.len() ==> self.dirty@[u] == dirty0[u],
                    forall|u: int|
                        table0.len() <= u < self.table@.len() ==> (#[trigger] self.table@[u])@.len()
                            == 0,
                    forall|u: int|
                        table0.len() <= u < self.dirty@.len() ==> #[trigger] self.dirty@[u],
                    self.store@ == old(self).store@.insert_all(batch@)->Ok_0,
                    self.store.wf(),
                    self.config == old(self).config,
                    self.fitted,
                decreases n1 - self.table@.len(),
            {
                self.table.push(Vec::new());
                self.dirty.push(true);
            }
            let ghost dirty1 = self.dirty@;
            let ghost table1 = self.table@;
            mark_dirty(&self.store, &touched, &mut self.dirty);
            proof {
                let m1 = self@;
                assert(m1.table.len() == table1.len());
                assert forall|u: int| 0 <= u < m1.table.len() implies m1.table[u] == table1[u]@ by {}
                assert forall|u: int| 0 <= u < m0.table.len() implies m1.table[u] == m0.table[u] by {
                    assert(table1[u] == table0[u]);
                    assert(m0.table[u] == table0[u]@);
                }
                assert forall|u: int|
                    m0.table.len() <= u < m1.table.len() implies m1.table[u].len() == 0 by {
                    assert(table1[u]@.len() == 0);
                }
                assert(evolves(m0.store, m1.store));
                assert(m0.store.user_ids.len() <= m1.store.user_ids.len());
                assert forall|u: int| 0 <= u < m1.dirty.len() implies (reaches(
                    m1.store,
                    touched@,
                    u,
                ) <==> touches(m1.store, batch@, u)) by {
                    if reaches(m1.store, touched@, u) {
                        let t = choose|t: int|
                            0 <= t < touched@.len() && ((#[trigger] touched@[t]) == u
                                || shares_item(m1.store, touched@[t] as int, u));
                        assert(touched@[t] == m1.store.user_ids.index_of(batch@[t].user));
                    }
                    if touches(m1.store, batch@, u) {
                        let j = choose|j: int|
                            0 <= j < batch@.len() && ({
                                let c = m1.store.user_ids.index_of((#[trigger] batch@[j]).user);
                                c == u || shares_item(m1.store, c, u)
                            });
                        assert(touched@[j] == m1.store.user_ids.index_of(batch@[j].user));
                    }
                }
                assert forall|u: int|
                    0 <= u < m1.dirty.len() && #[trigger] affected(
                        m0.store,
                        m1.store,
                        u,
                    ) implies m1.dirty[u] by {
                    let c = choose|c: int|
                        0 <= c < m1.store.rows.len() && #[trigger] changed(m0.store, m1.store, c)
                            && (c == u || shares_item(m1.store, c, u));
                    assert(touched@.contains(c as usize));
                    let t = choose|t: int| 0 <= t < touched@.len() && touched@[t] == c as usize;
                    assert(reaches(m1.store, touched@, u));
                }
                assert forall|u: int| 0 <= u < m1.dirty.len() implies (m1.dirty[u] <==> (u
                    < m0.dirty.len() && m0.dirty[u]) || touches(m1.store, batch@, u)) by {
                    if u >= m0.dirty.len() {
                        assert(changed(m0.store, m1.store, u));
                        assert(affected(m0.store, m1.store, u));
                    } else {
                        assert(dirty1[u] == dirty0[u]);
                    }
                }
                assert forall|u: int| 0 <= u < m1.table.len() implies #[trigger] m1.bounded(u) by {
                    if u < m0.table.len() {
                        assert(m0.bounded(u));
                        assert(m1.table[u] == m0.table[u]);
                    } else {
                        assert(m1.table[u].len() == 0);
                    }
                }
                assert forall|u: int|
                    0 <= u < m1.table.len() && !m1.dirty[u] implies #[trigger] m1.current(u) by {
                    assert(u < m0.table.len());
                    assert(!m0.dirty[u]);
                    assert(m0.current(u));
                    assert(m1.table[u] == m0.table[u]);
                    assert(!affected(m0.store, m1.store, u));
                    lemma_unaffected_candidates(
                        m0.store,
                        m1.store,
                        m0.config.metric,
                        m0.config.min_similarity,
                        u,
                    );
                    lemma_top_k_extend(
                        m0.table[u],
                        m0.candidates(u),
                        m1.candidates(u),
                        m0.config.k as nat,
                    );
                }
                assert(m0.absorbed(m1, batch@));
            }
        } else {
            proof {
                let m1 = self@;
                assert(m1.table =~= m0.table);
                assert(m0.absorbed(m1, batch@));
            }
        }
        Ok(())
    }

    /// Recomputes the neighbour list of every user marked stale, and no
    /// other.
    pub fn refresh_dirty(&mut self)
        requires
            old(self).wf(),
        ensures
            final(self).wf(),
            old(self)@.refreshed(final(self)@),
            forall|u: int| 0 <= u < final(self)@.table.len() ==> #[trigger] final(self)@.current(u),
    {
        if !self.fitted {
            return ;
        }
        let ghost m0 = self@;
        refresh(
            &self.store,
            self.config.k,
            self.config.min_similarity,
            self.config.metric,
            &mut self.table,
            &mut self.dirty,
        );
        proof {
            self.store.lemma_wf_view();
            let m1 = self@;
            assert forall|u: int| 0 <= u < m1.table.len() implies #[trigger] m1.current(u) by {
                assert(m1.table[u] == self.table@[u]@);
                if m0.dirty[u] {
                } else {
                    assert(m0.current(u));
                    assert(m1.table[u] == m0.table[u]);
                }
            }
            assert forall|u: int| 0 <= u < m1.table.len() implies #[trigger] m1.bounded(u) by {
                assert(m1.current(u));
                lemma_current_bounded(m1, u);
            }
        }
    }
}

} // verus!
