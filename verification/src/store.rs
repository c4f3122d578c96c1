//! The interaction store: the user-item matrix kept in both orientations.

use crate::config::DuplicatePolicy;
use crate::error::RecError;
use crate::ids::IdTable;
use crate::sparse::{has_key, strictly_increasing, SparseVec, MAX_DIM, MAX_WEIGHT};
use vstd::prelude::*;

verus! {

/// One observed interaction: a user, an item and a weight.
#[derive(Clone, Copy, Debug, PartialEq, Eq, Structural)]
pub struct Interaction {
    /// External identifier of the user.
    pub user: u64,
    /// External identifier of the item.
    pub item: u64,
    /// Fixed-point weight; valid from zero to `MAX_WEIGHT`.
    pub weight: i64,
}

/// A weight the store accepts.
pub open spec fn valid_weight(w: int) -> bool {
    0 <= w <= MAX_WEIGHT
}

/// The mathematical content of a store.
pub struct StoreView {
    /// User identifiers in index order.
    pub user_ids: Seq<u64>,
    /// Item identifiers in index order.
    pub item_ids: Seq<u64>,
    /// For each user index, the map from item index to weight.
    pub rows: Seq<Map<nat, nat>>,
    /// Largest number of users the store accepts.
    pub max_users: nat,
    /// Largest number of items the store accepts.
    pub max_items: nat,
    /// Whether repeated interactions accumulate instead of overwriting.
    pub accumulate: bool,
}

impl StoreView {
    /// The invariant every reachable store content satisfies.
    pub open spec fn well_formed(self) -> bool {
        &&& self.user_ids.no_duplicates()
        &&& self.item_ids.no_duplicates()
        &&& self.rows.len() == self.user_ids.len()
        &&& self.user_ids.len() <= self.max_users <= MAX_DIM
        &&& self.item_ids.len() <= self.max_items <= MAX_DIM
        &&& forall|u: int, k: nat|
            0 <= u < self.rows.len() && #[trigger] self.rows[u].contains_key(k) ==> k
                < self.item_ids.len() && self.rows[u][k] <= MAX_WEIGHT
    }

    /// The column of item index `i`: the map from user index to weight.
    pub open spec fn column(self, i: nat) -> Map<nat, nat> {
        Map::new(
            |u: nat| u < self.rows.len() && self.rows[u as int].contains_key(i),
            |u: nat| self.rows[u as int][i],
        )
    }

    /// Why an insertion is rejected, if it is.
    pub open spec fn insert_error(self, user: u64, item: u64, weight: int) -> Option<RecError> {
        if !valid_weight(weight) {
            Some(RecError::InvalidWeight)
        } else if !self.user_ids.contains(user) && self.user_ids.len() >= self.max_users {
            Some(RecError::CapacityExceeded)
        } else if !self.item_ids.contains(item) && self.item_ids.len() >= self.max_items {
            Some(RecError::CapacityExceeded)
        } else {
            None
        }
    }

    /// The content with `user` known: unchanged if it already is, else with
    /// the identifier appended and an empty row for it.
    pub open spec fn with_user(self, user: u64) -> StoreView {
        if self.user_ids.contains(user) {
            self
        } else {
            StoreView {
                user_ids: self.user_ids.push(user),
                item_ids: self.item_ids,
                rows: self.rows.push(Map::empty()),
                max_users: self.max_users,
                max_items: self.max_items,
                accumulate: self.accumulate,
            }
        }
    }

    /// The content with `item` known.
    pub open spec fn with_item(self, item: u64) -> StoreView {
        if self.item_ids.contains(item) {
            self
        } else {
            StoreView {
                user_ids: self.user_ids,
                item_ids: self.item_ids.push(item),
                rows: self.rows,
                max_users: self.max_users,
                max_items: self.max_items,
                accumulate: self.accumulate,
            }
        }
    }

    /// The weight stored after `w` arrives for cell (`u`, `i`).
    pub open spec fn merged_weight(self, u: int, i: nat, w: nat) -> nat {
        if self.accumulate && self.rows[u].contains_key(i) {
            if self.rows[u][i] + w <= MAX_WEIGHT {
                self.rows[u][i] + w
            } else {
                MAX_WEIGHT as nat
            }
        } else {
            w
        }
    }

    /// The content with cell (`u`, `i`) set to `w`.
    pub open spec fn with_cell(self, u: int, i: nat, w: nat) -> StoreView {
        StoreView {
            user_ids: self.user_ids,
            item_ids: self.item_ids,
            rows: self.rows.update(u, self.rows[u].insert(i, w)),
            max_users: self.max_users,
            max_items: self.max_items,
            accumulate: self.accumulate,
        }
    }

    /// The content after an accepted insertion.
    pub open spec fn inserted(self, user: u64, item: u64, weight: nat) -> StoreView {
        let v = self.with_user(user).with_item(item);
        let u = v.user_ids.index_of(user);
        let i = v.item_ids.index_of(item) as nat;
        v.with_cell(u, i, v.merged_weight(u, i, weight))
    }

    /// The outcome of one insertion.
    pub open spec fn insert(self, user: u64, item: u64, weight: int) -> Result<
        StoreView,
        RecError,
    > {
        match self.insert_error(user, item, weight) {
            Some(e) => Err(e),
            None => Ok(self.inserted(user, item, weight as nat)),
        }
    }

    /// The outcome of inserting a sequence of interactions in order,
    /// stopping at the first rejection.
    pub open spec fn insert_all(self, batch: Seq<Interaction>) -> Result<StoreView, RecError>
        decreases batch.len(),
    {
        if batch.len() == 0 {
            Ok(self)
        } else {
            match self.insert(batch[0].user, batch[0].item, batch[0].weight as int) {
                Ok(v) => v.insert_all(batch.skip(1)),
                Err(e) => Err(e),
            }
        }
    }
}

impl StoreView {
    /// What an accepted insertion changes: at most one new user and one new
    /// item, and the row of the inserting user only; rows never lose an
    /// item.
    pub proof fn lemma_insert_effect(self, user: u64, item: u64, weight: int)
        requires
            self.well_formed(),
            self.insert_error(user, item, weight) is None,
        ensures
            ({
                let v = self.inserted(user, item, weight as nat);
                let u = v.user_ids.index_of(user);
                &&& v.well_formed()
                &&& v.max_users == self.max_users
                &&& v.max_items == self.max_items
                &&& v.accumulate == self.accumulate
                &&& forall|id: u64|
                    v.user_ids.contains(id) <==> self.user_ids.contains(id) || id == user
                &&& forall|id: u64|
                    v.item_ids.contains(id) <==> self.item_ids.contains(id) || id == item
                &&& v.user_ids.len() == self.user_ids.len() + if self.user_ids.contains(user) {
                    0int
                } else {
                    1int
                }
                &&& v.item_ids.len() == self.item_ids.len() + if self.item_ids.contains(item) {
                    0int
                } else {
                    1int
                }
                &&& 0 <= u < v.rows.len()
                &&& v.user_ids[u] == user
                &&& !self.user_ids.contains(user) ==> u == self.rows.len()
                &&& forall|c: int| 0 <= c < self.rows.len() && c != u ==> v.rows[c] == self.rows[c]
                &&& forall|c: int, k: nat|
                    0 <= c < self.rows.len() && #[trigger] self.rows[c].contains_key(k)
                        ==> v.rows[c].contains_key(k)
                &&& forall|c: int| 0 <= c < self.user_ids.len() ==> v.user_ids[c] == self.user_ids[c]
                &&& forall|c: int| 0 <= c < self.item_ids.len() ==> v.item_ids[c] == self.item_ids[c]
            }),
    {
        let v1 = self.with_user(user);
        let v2 = v1.with_item(item);
        let v = self.inserted(user, item, weight as nat);
        vstd::seq_lib::lemma_seq_contains_after_push(self.user_ids, user, user);
        vstd::seq_lib::lemma_seq_contains_after_push(self.item_ids, item, item);
        assert forall|id: u64|
            v.user_ids.contains(id) <==> self.user_ids.contains(id) || id == user by {
            vstd::seq_lib::lemma_seq_contains_after_push(self.user_ids, user, id);
        }
        assert forall|id: u64|
            v.item_ids.contains(id) <==> self.item_ids.contains(id) || id == item by {
            vstd::seq_lib::lemma_seq_contains_after_push(self.item_ids, item, id);
        }
        assert(v2.user_ids.no_duplicates()) by {
            if !self.user_ids.contains(user) {
                assert forall|a: int, b: int|
                    0 <= a < v2.user_ids.len() && 0 <= b < v2.user_ids.len() && a
                        != b implies v2.user_ids[a] != v2.user_ids[b] by {
                    if a < self.user_ids.len() {
                        assert(self.user_ids.contains(self.user_ids[a]));
                    }
                    if b < self.user_ids.len() {
                        assert(self.user_ids.contains(self.user_ids[b]));
                    }
                }
            }
        }
        assert(v2.item_ids.no_duplicates()) by {
            if !self.item_ids.contains(item) {
                assert forall|a: int, b: int|
                    0 <= a < v2.item_ids.len() && 0 <= b < v2.item_ids.len() && a
                        != b implies v2.item_ids[a] != v2.item_ids[b] by {
                    if a < self.item_ids.len() {
                        assert(self.item_ids.contains(self.item_ids[a]));
                    }
                    if b < self.item_ids.len() {
                        assert(self.item_ids.contains(self.item_ids[b]));
                    }
                }
            }
        }
        let u = v2.user_ids.index_of(user);
        let i = v2.item_ids.index_of(item);
        assert(v2.user_ids.contains(user));
        assert(v2.item_ids.contains(item));
        assert(0 <= u < v2.user_ids.len() && v2.user_ids[u] == user);
        assert(0 <= i < v2.item_ids.len() && v2.item_ids[i] == item);
        if !self.user_ids.contains(user) {
            assert(v2.user_ids[self.user_ids.len() as int] == user);
        }
        assert forall|c: int, k: nat|
            0 <= c < v.rows.len() && #[trigger] v.rows[c].contains_key(k) implies k
            < v.item_ids.len() && v.rows[c][k] <= MAX_WEIGHT by {
            if c < self.rows.len() && self.rows[c].contains_key(k) {
                assert(k < self.item_ids.len());
            }
        }
    }
}

/// An element's index in a duplicate-free sequence is its position.
pub proof fn lemma_index_of(s: Seq<u64>, i: int)
    requires
        s.no_duplicates(),
        0 <= i < s.len(),
    ensures
        s.index_of(s[i]) == i,
        s.contains(s[i]),
{
    let j = s.index_of(s[i]);
    assert(s.contains(s[i]));
    assert(0 <= j < s.len() && s[j] == s[i]);
}

/// The user-item interaction matrix, stored by row and by column.
pub struct SparseInteractionStore {
    users: IdTable,
    items: IdTable,
    rows: Vec<SparseVec>,
    cols: Vec<SparseVec>,
    max_users: usize,
    max_items: usize,
    accumulate: bool,
}

/// The maps that a vector of sparse vectors stands for.
pub open spec fn maps_of(vs: Seq<SparseVec>) -> Seq<Map<nat, nat>> {
    Seq::new(vs.len(), |u: int| vs[u]@)
}

impl View for SparseInteractionStore {
    type V = StoreView;

    closed spec fn view(&self) -> StoreView {
        StoreView {
            user_ids: self.users@,
            item_ids: self.items@,
            rows: maps_of(self.rows@),
            max_users: self.max_users as nat,
            max_items: self.max_items as nat,
            accumulate: self.accumulate,
        }
    }
}

impl SparseInteractionStore {
    /// Representation invariant: both identifier tables are consistent, every
    /// row and column is well formed, and the two orientations mirror each
    /// other.
    pub closed spec fn wf(&self) -> bool {
        &&& self.users.wf()
        &&& self.items.wf()
        &&& self.rows@.len() == self.users@.len()
        &&& self.cols@.len() == self.items@.len()
        &&& self.users@.len() <= self.max_users <= MAX_DIM
        &&& self.items@.len() <= self.max_items <= MAX_DIM
        &&& forall|u: int| 0 <= u < self.rows@.len() ==> (#[trigger] self.rows@[u]).wf()
        &&& forall|i: int| 0 <= i < self.cols@.len() ==> (#[trigger] self.cols@[i]).wf()
        &&& forall|u: int, k: nat|
            0 <= u < self.rows@.len() && #[trigger] self.rows@[u]@.contains_key(k) ==> k
                < self.cols@.len() && self.cols@[k as int]@.contains_key(u as nat)
                && self.cols@[k as int]@[u as nat] == self.rows@[u]@[k]
        &&& forall|i: int, k: nat|
            0 <= i < self.cols@.len() && #[trigger] self.cols@[i]@.contains_key(k) ==> k
                < self.rows@.len() && self.rows@[k as int]@.contains_key(i as nat)
    }

    /// The stored column of item index `i`.
    pub closed spec fn stored_column(&self, i: int) -> Map<nat, nat> {
        self.cols@[i]@
    }

    /// A well-formed store has well-formed content, and its stored columns
    /// are the columns of its content.
    pub proof fn lemma_wf_view(&self)
        requires
            self.wf(),
        ensures
            self@.well_formed(),
            forall|i: int|
                0 <= i < self@.item_ids.len() ==> #[trigger] self.stored_column(i)
                    == self@.column(i as nat),
    {
        self.users.lemma_no_duplicates();
        self.items.lemma_no_duplicates();
        assert forall|u: int, k: nat|
            0 <= u < self@.rows.len() && #[trigger] self@.rows[u].contains_key(k) implies k
            < self@.item_ids.len() && self@.rows[u][k] <= MAX_WEIGHT by {
            assert(self.rows@[u]@.contains_key(k));
            assert(self.rows@[u].wf());
            self.rows@[u].lemma_wf_facts();
        }
        assert forall|i: int| 0 <= i < self@.item_ids.len() implies #[trigger] self.stored_column(
            i,
        ) == self@.column(i as nat) by {
            let c = self.cols@[i]@;
            let d = self@.column(i as nat);
            assert forall|u: nat| c.contains_key(u) <==> d.contains_key(u) by {
                if c.contains_key(u) {
                    assert(self.rows@[u as int]@.contains_key(i as nat));
                }
                if d.contains_key(u) {
                    assert(self.rows@[u as int]@.contains_key(i as nat));
                }
            }
            assert forall|u: nat| c.contains_key(u) implies c[u] == d[u] by {
                assert(self.rows@[u as int]@.contains_key(i as nat));
            }
            assert(c =~= d);
        }
    }

    /// Every stored weight is at most `MAX_WEIGHT`.
    pub proof fn lemma_row_bounded(&self, u: int, k: nat)
        requires
            self.wf(),
            0 <= u < self@.user_ids.len(),
            self@.rows[u].contains_key(k),
        ensures
            self@.rows[u][k] <= MAX_WEIGHT,
            k < self@.item_ids.len(),
    {
        self.lemma_wf_view();
    }

    /// An empty store that accepts up to `max_users` users and `max_items`
    /// items, each limit capped at `MAX_DIM`.
    pub fn new(max_users: usize, max_items: usize, policy: DuplicatePolicy) -> (s:
        SparseInteractionStore)
        ensures
            s.wf(),
            s@.user_ids.len() == 0,
            s@.item_ids.len() == 0,
            s@.rows.len() == 0,
            s@.max_users == if max_users <= MAX_DIM { max_users } else { MAX_DIM },
            s@.max_items == if max_items <= MAX_DIM { max_items } else { MAX_DIM },
            s@.accumulate == (policy == DuplicatePolicy::Accumulate),
    {
        let accumulate = match policy {
            DuplicatePolicy::Overwrite => false,
            DuplicatePolicy::Accumulate => true,
        };
        SparseInteractionStore {
            users: IdTable::new(),
            items: IdTable::new(),
            rows: Vec::new(),
            cols: Vec::new(),
            max_users: if max_users <= MAX_DIM { max_users } else { MAX_DIM },
            max_items: if max_items <= MAX_DIM { max_items } else { MAX_DIM },
            accumulate,
        }
    }

    /// Number of known users.
    pub fn n_users(&self) -> (n: usize)
        requires
            self.wf(),
        ensures
            n == self@.user_ids.len(),
            n <= MAX_DIM,
    {
        self.users.len()
    }

    /// Number of known items.
    pub fn n_items(&self) -> (n: usize)
        requires
            self.wf(),
        ensures
            n == self@.item_ids.len(),
            n <= MAX_DIM,
    {
        self.items.len()
    }

    /// Adds or updates one interaction.
    ///
    /// On success returns the indices of the user and the item. On failure
    /// the store is left exactly as it was.
    pub fn insert(&mut self, user: u64, item: u64, weight: i64) -> (r: Result<
        (usize, usize),
        RecError,
    >)
        requires
            old(self).wf(),
        ensures
            final(self).wf(),
            match r {
                Ok((u, i)) => {
                    &&& old(self)@.insert(user, item, weight as int) == Ok::<StoreView, RecError>(
                        final(self)@,
                    )
                    &&& u == final(self)@.user_ids.index_of(user)
                    &&& i == final(self)@.item_ids.index_of(item)
                    &&& u < final(self)@.user_ids.len()
                    &&& i < final(self)@.item_ids.len()
                    &&& final(self)@.user_ids[u as int] == user
                    &&& final(self)@.item_ids[i as int] == item
                    &&& final(self)@.user_ids.contains(user)
                    &&& final(self)@.item_ids.contains(item)
                },
                Err(e) => {
                    &&& old(self)@.insert(user, item, weight as int) == Err::<StoreView, RecError>(e)
                    &&& final(self)@ == old(self)@
                },
            },
    {
        if weight < 0 || weight > MAX_WEIGHT as i64 {
            return Err(RecError::InvalidWeight);
        }
        let uo = self.users.lookup(user);
        let io = self.items.lookup(item);
        if uo.is_none() && self.users.len() >= self.max_users {
            return Err(RecError::CapacityExceeded);
        }
        if io.is_none() && self.items.len() >= self.max_items {
            return Err(RecError::CapacityExceeded);
        }
        let ghost v0 = self@;
        let u: usize = match uo {
            Some(u) => u,
            None => {
                let u = self.users.register(user);
                self.rows.push(SparseVec::new());
                u
            },
        };
        let i: usize = match io {
            Some(i) => i,
            None => {
                let i = self.items.register(item);
                self.cols.push(SparseVec::new());
                i
            },
        };
        let ghost v1 = self@;
        proof {
            assert(v1.user_ids =~= v0.with_user(user).with_item(item).user_ids);
            assert(v1.item_ids =~= v0.with_user(user).with_item(item).item_ids);
            assert(v1.rows =~= v0.with_user(user).with_item(item).rows);
            assert(v1 == v0.with_user(user).with_item(item));
            self.users.lemma_no_duplicates();
            self.items.lemma_no_duplicates();
            lemma_index_of(v1.user_ids, u as int);
            lemma_index_of(v1.item_ids, i as int);
            assert(self.wf());
        }
        let w: u32 = weight as u32;
        let stored: Option<u32> = self.rows[u].get(i);
        let neww: u32 = match stored {
            Some(prev) => {
                if self.accumulate {
                    if prev + w <= MAX_WEIGHT {
                        prev + w
                    } else {
                        MAX_WEIGHT
                    }
                } else {
                    w
                }
            },
            None => w,
        };
        proof {
            self.rows@[u as int].lemma_wf_facts();
            assert(neww == v1.merged_weight(u as int, i as nat, w as nat));
        }
        let ghost rows1 = self.rows@;
        let ghost cols1 = self.cols@;
        self.rows[u].upsert(i, neww);
        self.cols[i].upsert(u, neww);
        proof {
            assert(self.rows@ =~= rows1.update(u as int, self.rows@[u as int]));
            assert(self.cols@ =~= cols1.update(i as int, self.cols@[i as int]));
            assert(self@.rows =~= v1.with_cell(u as int, i as nat, neww as nat).rows);
            assert(self@ == v1.with_cell(u as int, i as nat, neww as nat));
        }
        Ok((u, i))
    }

    /// The index of a user identifier.
    pub fn user_index(&self, user: u64) -> (r: Result<usize, RecError>)
        requires
            self.wf(),
        ensures
            match r {
                Ok(u) => self@.user_ids.contains(user) && u == self@.user_ids.index_of(user) && u
                    < self@.user_ids.len() && self@.user_ids[u as int] == user,
                Err(e) => e == RecError::UnknownUser && !self@.user_ids.contains(user),
            },
    {
        match self.users.lookup(user) {
            Some(u) => {
                assert(self@.user_ids[u as int] == user);
                Ok(u)
            },
            None => Err(RecError::UnknownUser),
        }
    }

    /// The index of an item identifier.
    pub fn item_index(&self, item: u64) -> (r: Result<usize, RecError>)
        requires
            self.wf(),
        ensures
            match r {
                Ok(i) => self@.item_ids.contains(item) && i == self@.item_ids.index_of(item) && i
                    < self@.item_ids.len() && self@.item_ids[i as int] == item,
                Err(e) => e == RecError::UnknownItem && !self@.item_ids.contains(item),
            },
    {
        match self.items.lookup(item) {
            Some(i) => {
                assert(self@.item_ids[i as int] == item);
                Ok(i)
            },
            None => Err(RecError::UnknownItem),
        }
    }

    /// The identifier of the user with index `u`.
    pub fn user_id(&self, u: usize) -> (id: u64)
        requires
            self.wf(),
            u < self@.user_ids.len(),
        ensures
            id == self@.user_ids[u as int],
    {
        self.users.id_at(u)
    }

    /// The identifier of the item with index `i`.
    pub fn item_id(&self, i: usize) -> (id: u64)
        requires
            self.wf(),
            i < self@.item_ids.len(),
        ensures
            id == self@.item_ids[i as int],
    {
        self.items.id_at(i)
    }

    /// Largest number of users the store accepts.
    pub fn max_users(&self) -> (n: usize)
        ensures
            n == self@.max_users,
    {
        self.max_users
    }

    /// Largest number of items the store accepts.
    pub fn max_items(&self) -> (n: usize)
        ensures
            n == self@.max_items,
    {
        self.max_items
    }

    /// The treatment of repeated interactions.
    pub fn policy(&self) -> (p: DuplicatePolicy)
        ensures
            self@.accumulate == (p == DuplicatePolicy::Accumulate),
    {
        if self.accumulate {
            DuplicatePolicy::Accumulate
        } else {
            DuplicatePolicy::Overwrite
        }
    }

    /// The weight stored for a user and an item, if they have interacted.
    pub fn weight(&self, user: u64, item: u64) -> (r: Result<Option<u32>, RecError>)
        requires
            self.wf(),
        ensures
            match r {
                Ok(w) => {
                    let row = self@.rows[self@.user_ids.index_of(user)];
                    let i = self@.item_ids.index_of(item) as nat;
                    &&& self@.user_ids.contains(user)
                    &&& self@.item_ids.contains(item)
                    &&& match w {
                        Some(x) => row.contains_key(i) && row[i] == x,
                        None => !row.contains_key(i),
                    }
                },
                Err(e) => if !self@.user_ids.contains(user) {
                    e == RecError::UnknownUser
                } else {
                    e == RecError::UnknownItem && !self@.item_ids.contains(item)
                },
            },
    {
        let u = match self.user_index(user) {
            Ok(u) => u,
            Err(e) => {
                return Err(e);
            },
        };
        let i = match self.item_index(item) {
            Ok(i) => i,
            Err(e) => {
                return Err(e);
            },
        };
        Ok(self.row_at(u).get(i))
    }

    /// The row of the user with index `u`.
    pub fn row_at(&self, u: usize) -> (r: &SparseVec)
        requires
            self.wf(),
            u < self@.user_ids.len(),
        ensures
            r.wf(),
            r@ == self@.rows[u as int],
    {
        &self.rows[u]
    }

    /// The column of the item with index `i`.
    pub fn col_at(&self, i: usize) -> (c: &SparseVec)
        requires
            self.wf(),
            i < self@.item_ids.len(),
        ensures
            c.wf(),
            c@ == self@.column(i as nat),
    {
        proof {
            self.lemma_wf_view();
            assert(self.stored_column(i as int) == self@.column(i as nat));
        }
        &self.cols[i]
    }

    /// The interaction vector of a user: item indices with their weights.
    pub fn row(&self, user: u64) -> (r: Result<&SparseVec, RecError>)
        requires
            self.wf(),
        ensures
            match r {
                Ok(row) => self@.user_ids.contains(user) && row.wf() && row@
                    == self@.rows[self@.user_ids.index_of(user)],
                Err(e) => e == RecError::UnknownUser && !self@.user_ids.contains(user),
            },
    {
        match self.user_index(user) {
            Ok(u) => Ok(self.row_at(u)),
            Err(e) => Err(e),
        }
    }

    /// The interaction vector of an item: user indices with their weights.
    pub fn column(&self, item: u64) -> (r: Result<&SparseVec, RecError>)
        requires
            self.wf(),
        ensures
            match r {
                Ok(col) => self@.item_ids.contains(item) && col.wf() && col@ == self@.column(
                    self@.item_ids.index_of(item) as nat,
                ),
                Err(e) => e == RecError::UnknownItem && !self@.item_ids.contains(item),
            },
    {
        match self.item_index(item) {
            Ok(i) => Ok(self.col_at(i)),
            Err(e) => Err(e),
        }
    }

    /// The indices of the items both users have interacted with, in
    /// increasing order, found by merging the two rows.
    pub fn co_rated_items(&self, user_a: u64, user_b: u64) -> (r: Result<Vec<usize>, RecError>)
        requires
            self.wf(),
        ensures
            match r {
                Ok(items) => {
                    &&& self@.user_ids.contains(user_a)
                    &&& self@.user_ids.contains(user_b)
                    &&& strictly_increasing(items@)
                    &&& forall|k: nat|
                        has_key(items@, k) <==> self@.rows[self@.user_ids.index_of(
                            user_a,
                        )].contains_key(k) && self@.rows[self@.user_ids.index_of(
                            user_b,
                        )].contains_key(k)
                },
                Err(e) => e == RecError::UnknownUser && !(self@.user_ids.contains(user_a)
                    && self@.user_ids.contains(user_b)),
            },
    {
        let a = match self.user_index(user_a) {
            Ok(a) => a,
            Err(e) => {
                return Err(e);
            },
        };
        let b = match self.user_index(user_b) {
            Ok(b) => b,
            Err(e) => {
                return Err(e);
            },
        };
        Ok(self.row_at(a).common_keys(self.row_at(b)))
    }
}

} // verus!
