//! Sparse vectors: a strictly increasing index array beside a weight array.
//!
//! A [`SparseVec`] stands for a finite partial map from indices to weights.
//! Rows (user to items) and columns (item to users) of the interaction
//! matrix are both stored in this form.

use vstd::prelude::*;

verus! {

/// Exclusive upper bound of every index held in a sparse vector.
pub const MAX_DIM: usize = 1_000_000;

/// Largest weight a sparse vector can hold.
pub const MAX_WEIGHT: u32 = 10_000;

/// Every element is smaller than each element after it.
pub open spec fn strictly_increasing(s: Seq<usize>) -> bool {
    forall|i: int, j: int| 0 <= i < j < s.len() ==> s[i] < s[j]
}

/// `key` occurs somewhere in `s`.
pub open spec fn has_key(s: Seq<usize>, key: nat) -> bool {
    exists|i: int| 0 <= i < s.len() && s[i] == key
}

/// A position at which `key` occurs in `s`, if there is one.
pub open spec fn position_of(s: Seq<usize>, key: nat) -> int {
    choose|i: int| 0 <= i < s.len() && s[i] == key
}

/// The partial map that two parallel arrays stand for.
pub open spec fn entries_map(keys: Seq<usize>, vals: Seq<u32>) -> Map<nat, nat> {
    Map::new(|k: nat| has_key(keys, k), |k: nat| vals[position_of(keys, k)] as nat)
}

/// The contribution of index `k` to an inner product: the product of the two
/// weights when `weighted`, one when only co-occurrence is counted, and zero
/// if either side lacks the index.
pub open spec fn term(a: Map<nat, nat>, b: Map<nat, nat>, weighted: bool, k: nat) -> nat {
    if a.contains_key(k) && b.contains_key(k) {
        if weighted {
            a[k] * b[k]
        } else {
            1
        }
    } else {
        0
    }
}

/// Sum of `term` over all indices below `n`.
pub open spec fn inner_upto(a: Map<nat, nat>, b: Map<nat, nat>, weighted: bool, n: nat) -> nat
    decreases n,
{
    if n == 0 {
        0
    } else {
        inner_upto(a, b, weighted, (n - 1) as nat) + term(a, b, weighted, (n - 1) as nat)
    }
}

/// Inner product of two sparse vectors over the whole index space: the dot
/// product when `weighted`, the number of shared indices otherwise.
pub open spec fn inner(a: Map<nat, nat>, b: Map<nat, nat>, weighted: bool) -> nat {
    inner_upto(a, b, weighted, MAX_DIM as nat)
}

/// In a strictly increasing sequence each position maps to its own weight.
pub proof fn lemma_entry(keys: Seq<usize>, vals: Seq<u32>, i: int)
    requires
        strictly_increasing(keys),
        keys.len() == vals.len(),
        0 <= i < keys.len(),
    ensures
        entries_map(keys, vals).contains_key(keys[i] as nat),
        entries_map(keys, vals)[keys[i] as nat] == vals[i],
{
    let k = keys[i] as nat;
    assert(has_key(keys, k));
    let p = position_of(keys, k);
    assert(0 <= p < keys.len() && keys[p] == k);
    if p < i {
        assert(keys[p] < keys[i]);
    } else if i < p {
        assert(keys[i] < keys[p]);
    }
}

/// A strictly increasing sequence grows at least as fast as its positions.
pub proof fn lemma_increasing_lower_bound(s: Seq<usize>, i: int)
    requires
        strictly_increasing(s),
        0 <= i < s.len(),
    ensures
        s[i] >= i,
    decreases i,
{
    if i > 0 {
        lemma_increasing_lower_bound(s, i - 1);
        assert(s[i - 1] < s[i]);
    }
}

/// Indices at which at most one side is present contribute nothing.
pub proof fn lemma_inner_skip(a: Map<nat, nat>, b: Map<nat, nat>, weighted: bool, lo: nat, hi: nat)
    requires
        lo <= hi,
        forall|k: nat| lo <= k < hi ==> !(a.contains_key(k) && b.contains_key(k)),
    ensures
        inner_upto(a, b, weighted, hi) == inner_upto(a, b, weighted, lo),
    decreases hi,
{
    if lo < hi {
        lemma_inner_skip(a, b, weighted, lo, (hi - 1) as nat);
        assert(!(a.contains_key((hi - 1) as nat) && b.contains_key((hi - 1) as nat)));
    }
}

/// The partial sums of an inner product do not depend on the order of its
/// two arguments.
pub proof fn lemma_inner_upto_symmetric(a: Map<nat, nat>, b: Map<nat, nat>, weighted: bool, n: nat)
    ensures
        inner_upto(a, b, weighted, n) == inner_upto(b, a, weighted, n),
    decreases n,
{
    if n > 0 {
        lemma_inner_upto_symmetric(a, b, weighted, (n - 1) as nat);
        let k = (n - 1) as nat;
        if a.contains_key(k) && b.contains_key(k) && weighted {
            assert(a[k] * b[k] == b[k] * a[k]) by (nonlinear_arith);
        }
    }
}

/// The inner product is symmetric.
pub proof fn lemma_inner_symmetric(a: Map<nat, nat>, b: Map<nat, nat>, weighted: bool)
    ensures
        inner(a, b, weighted) == inner(b, a, weighted),
{
    lemma_inner_upto_symmetric(a, b, weighted, MAX_DIM as nat);
}

/// A positive partial sum has a witness: an index below `n` present on both
/// sides.
pub proof fn lemma_inner_upto_positive(a: Map<nat, nat>, b: Map<nat, nat>, weighted: bool, n: nat)
    requires
        inner_upto(a, b, weighted, n) > 0,
    ensures
        exists|k: nat| k < n && a.contains_key(k) && b.contains_key(k),
    decreases n,
{
    if n > 0 {
        let k = (n - 1) as nat;
        if a.contains_key(k) && b.contains_key(k) {
        } else {
            lemma_inner_upto_positive(a, b, weighted, k);
            let w = choose|w: nat| w < k && a.contains_key(w) && b.contains_key(w);
            assert(w < n && a.contains_key(w) && b.contains_key(w));
        }
    }
}

/// Two vectors with a positive inner product share an index.
pub proof fn lemma_inner_positive(a: Map<nat, nat>, b: Map<nat, nat>, weighted: bool)
    requires
        inner(a, b, weighted) > 0,
    ensures
        exists|k: nat| k < MAX_DIM && a.contains_key(k) && b.contains_key(k),
{
    lemma_inner_upto_positive(a, b, weighted, MAX_DIM as nat);
}

/// With weights of at most [`MAX_WEIGHT`], each index contributes at most
/// the square of that to a partial sum.
pub proof fn lemma_inner_upto_bounded(a: Map<nat, nat>, b: Map<nat, nat>, weighted: bool, n: nat)
    requires
        forall|k: nat| a.contains_key(k) ==> a[k] <= MAX_WEIGHT,
        forall|k: nat| b.contains_key(k) ==> b[k] <= MAX_WEIGHT,
    ensures
        inner_upto(a, b, weighted, n) <= n * 100_000_000,
    decreases n,
{
    if n > 0 {
        lemma_inner_upto_bounded(a, b, weighted, (n - 1) as nat);
        let k = (n - 1) as nat;
        if a.contains_key(k) && b.contains_key(k) {
            assert(a[k] * b[k] <= 100_000_000) by (nonlinear_arith)
                requires
                    a[k] <= 10_000,
                    b[k] <= 10_000,
            ;
        }
    }
}

/// A sparse vector: a finite partial map from indices below [`MAX_DIM`] to
/// weights of at most [`MAX_WEIGHT`].
pub struct SparseVec {
    keys: Vec<usize>,
    vals: Vec<u32>,
}

impl View for SparseVec {
    type V = Map<nat, nat>;

    open spec fn view(&self) -> Map<nat, nat> {
        entries_map(self.keys(), self.vals())
    }
}

impl SparseVec {
    /// The stored indices, in storage order.
    pub closed spec fn keys(&self) -> Seq<usize> {
        self.keys@
    }

    /// The stored weights; `vals()[p]` belongs to `keys()[p]`.
    pub closed spec fn vals(&self) -> Seq<u32> {
        self.vals@
    }

    /// Representation invariant: parallel arrays, strictly increasing
    /// indices, everything within the limits.
    pub open spec fn wf(&self) -> bool {
        &&& self.keys().len() == self.vals().len()
        &&& strictly_increasing(self.keys())
        &&& forall|i: int| 0 <= i < self.keys().len() ==> self.keys()[i] < MAX_DIM
        &&& forall|i: int| 0 <= i < self.vals().len() ==> self.vals()[i] <= MAX_WEIGHT
    }

    /// A well-formed vector holds at most [`MAX_DIM`] entries, every index of
    /// its map is stored at some position, and every weight is bounded.
    pub proof fn lemma_wf_facts(&self)
        requires
            self.wf(),
        ensures
            self.keys().len() <= MAX_DIM,
            forall|k: nat| self@.contains_key(k) <==> has_key(self.keys(), k),
            forall|k: nat| self@.contains_key(k) ==> k < MAX_DIM && self@[k] <= MAX_WEIGHT,
            forall|i: int|
                0 <= i < self.keys().len() ==> self@.contains_key(#[trigger] self.keys()[i] as nat)
                    && self@[self.keys()[i] as nat] == self.vals()[i],
    {
        let n = self.keys().len();
        if n > 0 {
            lemma_increasing_lower_bound(self.keys(), n - 1);
        }
        assert forall|i: int| 0 <= i < self.keys().len() implies self@.contains_key(
            #[trigger] self.keys()[i] as nat,
        ) && self@[self.keys()[i] as nat] == self.vals()[i] by {
            lemma_entry(self.keys(), self.vals(), i);
        }
        assert forall|k: nat| self@.contains_key(k) implies k < MAX_DIM && self@[k]
            <= MAX_WEIGHT by {
            let p = position_of(self.keys(), k);
            assert(0 <= p < n && self.keys()[p] == k);
            lemma_entry(self.keys(), self.vals(), p);
        }
    }

    /// The empty vector.
    pub fn new() -> (v: SparseVec)
        ensures
            v.wf(),
            v@ == Map::<nat, nat>::empty(),
            v.keys().len() == 0,
    {
        let v = SparseVec { keys: Vec::new(), vals: Vec::new() };
        assert(v@ =~= Map::<nat, nat>::empty());
        v
    }

    /// Number of stored entries.
    pub fn len(&self) -> (n: usize)
        requires
            self.wf(),
        ensures
            n == self.keys().len(),
            n <= MAX_DIM,
    {
        proof {
            self.lemma_wf_facts();
        }
        self.keys.len()
    }

    /// The index stored at position `p`.
    pub fn key_at(&self, p: usize) -> (k: usize)
        requires
            self.wf(),
            p < self.keys().len(),
        ensures
            k == self.keys()[p as int],
            k < MAX_DIM,
            self@.contains_key(k as nat),
    {
        proof {
            self.lemma_wf_facts();
        }
        self.keys[p]
    }

    /// The weight stored at position `p`.
    pub fn val_at(&self, p: usize) -> (w: u32)
        requires
            self.wf(),
            p < self.keys().len(),
        ensures
            w == self.vals()[p as int],
            w <= MAX_WEIGHT,
            self@[self.keys()[p as int] as nat] == w,
    {
        proof {
            self.lemma_wf_facts();
        }
        self.vals[p]
    }

    /// First position whose index is not below `key`.
    fn lower_bound(&self, key: usize) -> (p: usize)
        requires
            self.wf(),
        ensures
            p <= self.keys().len(),
            forall|i: int| 0 <= i < p ==> self.keys()[i] < key,
            forall|i: int| p <= i < self.keys().len() ==> self.keys()[i] >= key,
    {
        let mut lo: usize = 0;
        let mut hi: usize = self.keys.len();
        while lo < hi
            invariant
                lo <= hi <= self.keys@.len(),
                strictly_increasing(self.keys@),
                forall|i: int| 0 <= i < lo ==> self.keys@[i] < key,
                forall|i: int| hi <= i < self.keys@.len() ==> self.keys@[i] >= key,
            decreases hi - lo,
        {
            let mid: usize = lo + (hi - lo) / 2;
            if self.keys[mid] < key {
                assert forall|i: int| 0 <= i < mid + 1 implies self.keys@[i] < key by {
                    if i < mid {
                        assert(self.keys@[i] < self.keys@[mid as int]);
                    }
                }
                lo = mid + 1;
            } else {
                assert forall|i: int| mid <= i < self.keys@.len() implies self.keys@[i] >= key by {
                    if mid < i {
                        assert(self.keys@[mid as int] < self.keys@[i]);
                    }
                }
                hi = mid;
            }
        }
        lo
    }

    /// The weight stored for `key`, found by binary search.
    pub fn get(&self, key: usize) -> (r: Option<u32>)
        requires
            self.wf(),
        ensures
            match r {
                Some(w) => self@.contains_key(key as nat) && self@[key as nat] == w,
                None => !self@.contains_key(key as nat),
            },
    {
        let p = self.lower_bound(key);
        if p < self.keys.len() && self.keys[p] == key {
            proof {
                lemma_entry(self.keys@, self.vals@, p as int);
            }
            Some(self.vals[p])
        } else {
            proof {
                if has_key(self.keys@, key as nat) {
                    let q = position_of(self.keys@, key as nat);
                    assert(0 <= q < self.keys@.len() && self.keys@[q] == key);
                    if q < p {
                        assert(self.keys@[q] < key);
                    } else {
                        assert(self.keys@[p as int] >= key);
                        if p < q {
                            assert(self.keys@[p as int] < self.keys@[q]);
                        }
                    }
                }
            }
            None
        }
    }

    /// Whether `key` is present.
    pub fn contains(&self, key: usize) -> (b: bool)
        requires
            self.wf(),
        ensures
            b == self@.contains_key(key as nat),
    {
        self.get(key).is_some()
    }

    /// Sets the weight of `key` to `val`, inserting the index if it is new.
    pub fn upsert(&mut self, key: usize, val: u32)
        requires
            old(self).wf(),
            key < MAX_DIM,
            val <= MAX_WEIGHT,
        ensures
            final(self).wf(),
            final(self)@ == old(self)@.insert(key as nat, val as nat),
    {
        let p = self.lower_bound(key);
        let ghost keys0 = self.keys@;
        let ghost vals0 = self.vals@;
        if p < self.keys.len() && self.keys[p] == key {
            self.vals.set(p, val);
            proof {
                lemma_map_after_update(keys0, vals0, p as int, val);
            }
        } else {
            self.keys.insert(p, key);
            self.vals.insert(p, val);
            proof {
                lemma_map_after_insert(keys0, vals0, p as int, key, val);
            }
        }
    }

    /// Inner product with `other` by a single merge pass over both index
    /// arrays: the dot product when `weighted`, the number of shared indices
    /// otherwise.
    pub fn inner_product(&self, other: &SparseVec, weighted: bool) -> (r: u64)
        requires
            self.wf(),
            other.wf(),
        ensures
            r == inner(self@, other@, weighted),
            r <= self.keys().len() * 100_000_000,
            r <= other.keys().len() * 100_000_000,
            r <= 100_000_000_000_000,
    {
        let la: usize = self.keys.len();
        let lb: usize = other.keys.len();
        let mut i: usize = 0;
        let mut j: usize = 0;
        let mut acc: u64 = 0;
        let ghost mut m: nat = 0;
        proof {
            self.lemma_wf_facts();
            other.lemma_wf_facts();
        }
        while i < la && j < lb
            invariant
                self.wf(),
                other.wf(),
                la == self.keys@.len(),
                lb == other.keys@.len(),
                la <= MAX_DIM,
                lb <= MAX_DIM,
                i <= la,
                j <= lb,
                m <= MAX_DIM,
                forall|p: int| 0 <= p < i ==> self.keys@[p] < m,
                forall|p: int| i <= p < la ==> self.keys@[p] >= m,
                forall|p: int| 0 <= p < j ==> other.keys@[p] < m,
                forall|p: int| j <= p < lb ==> other.keys@[p] >= m,
                acc == inner_upto(self@, other@, weighted, m),
                acc <= i * 100_000_000,
                acc <= j * 100_000_000,
            decreases (la - i) + (lb - j),
        {
            let ka: usize = self.keys[i];
            let kb: usize = other.keys[j];
            if ka < kb {
                proof {
                    assert forall|k: nat| m <= k < ka + 1 implies !(self@.contains_key(k)
                        && other@.contains_key(k)) by {
                        lemma_absent_between(other.keys@, j as int, k);
                    }
                    lemma_inner_skip(self@, other@, weighted, m, (ka + 1) as nat);
                    assert forall|p: int| i + 1 <= p < la implies self.keys@[p] >= ka + 1 by {
                        assert(self.keys@[i as int] < self.keys@[p]);
                    }
                    m = (ka + 1) as nat;
                }
                i = i + 1;
            } else if kb < ka {
                proof {
                    assert forall|k: nat| m <= k < kb + 1 implies !(self@.contains_key(k)
                        && other@.contains_key(k)) by {
                        lemma_absent_between(self.keys@, i as int, k);
                    }
                    lemma_inner_skip(self@, other@, weighted, m, (kb + 1) as nat);
                    assert forall|p: int| j + 1 <= p < lb implies other.keys@[p] >= kb + 1 by {
                        assert(other.keys@[j as int] < other.keys@[p]);
                    }
                    m = (kb + 1) as nat;
                }
                j = j + 1;
            } else {
                let wa: u32 = self.vals[i];
                let wb: u32 = other.vals[j];
                proof {
                    assert forall|k: nat| m <= k < ka implies !(self@.contains_key(k)
                        && other@.contains_key(k)) by {
                        lemma_absent_between(self.keys@, i as int, k);
                    }
                    lemma_inner_skip(self@, other@, weighted, m, ka as nat);
                    lemma_entry(self.keys@, self.vals@, i as int);
                    lemma_entry(other.keys@, other.vals@, j as int);
                    assert(inner_upto(self@, other@, weighted, (ka + 1) as nat) == inner_upto(
                        self@,
                        other@,
                        weighted,
                        ka as nat,
                    ) + term(self@, other@, weighted, ka as nat));
                    assert(wa * wb <= 100_000_000) by (nonlinear_arith)
                        requires
                            wa <= 10_000,
                            wb <= 10_000,
                    ;
                    assert forall|p: int| i + 1 <= p < la implies self.keys@[p] >= ka + 1 by {
                        assert(self.keys@[i as int] < self.keys@[p]);
                    }
                    assert forall|p: int| j + 1 <= p < lb implies other.keys@[p] >= ka + 1 by {
                        assert(other.keys@[j as int] < other.keys@[p]);
                    }
                    m = (ka + 1) as nat;
                }
                let t: u64 = if weighted {
                    (wa as u64) * (wb as u64)
                } else {
                    1
                };
                acc = acc + t;
                i = i + 1;
                j = j + 1;
            }
        }
        proof {
            assert forall|k: nat| m <= k < MAX_DIM implies !(self@.contains_key(k)
                && other@.contains_key(k)) by {
                if i >= la {
                    lemma_absent_between(self.keys@, i as int, k);
                } else {
                    lemma_absent_between(other.keys@, j as int, k);
                }
            }
            lemma_inner_skip(self@, other@, weighted, m, MAX_DIM as nat);
        }
        acc
    }

    /// The indices present in both vectors, in increasing order, found by a
    /// single merge pass.
    pub fn common_keys(&self, other: &SparseVec) -> (r: Vec<usize>)
        requires
            self.wf(),
            other.wf(),
        ensures
            strictly_increasing(r@),
            forall|k: nat| has_key(r@, k) <==> self@.contains_key(k) && other@.contains_key(k),
    {
        let la: usize = self.keys.len();
        let lb: usize = other.keys.len();
        let mut i: usize = 0;
        let mut j: usize = 0;
        let mut out: Vec<usize> = Vec::new();
        let ghost mut m: nat = 0;
        while i < la && j < lb
            invariant
                self.wf(),
                other.wf(),
                la == self.keys@.len(),
                lb == other.keys@.len(),
                i <= la,
                j <= lb,
                forall|p: int| 0 <= p < i ==> self.keys@[p] < m,
                forall|p: int| i <= p < la ==> self.keys@[p] >= m,
                forall|p: int| 0 <= p < j ==> other.keys@[p] < m,
                forall|p: int| j <= p < lb ==> other.keys@[p] >= m,
                strictly_increasing(out@),
                forall|p: int| 0 <= p < out@.len() ==> out@[p] < m,
                forall|k: nat| #[trigger]
                    has_key(out@, k) <==> k < m && self@.contains_key(k) && other@.contains_key(k),
            decreases (la - i) + (lb - j),
        {
            let ka: usize = self.keys[i];
            let kb: usize = other.keys[j];
            let ghost m0 = m;
            let ghost out0 = out@;
            if ka < kb {
                proof {
                    m = (ka + 1) as nat;
                    assert forall|k: nat| #[trigger]
                        has_key(out0, k) <==> k < m && self@.contains_key(k)
                            && other@.contains_key(k) by {
                        if m0 <= k < m {
                            lemma_absent_between(other.keys@, j as int, k);
                        }
                    }
                    assert forall|p: int| i + 1 <= p < la implies self.keys@[p] >= ka + 1 by {
                        assert(self.keys@[i as int] < self.keys@[p]);
                    }
                }
                i = i + 1;
            } else if kb < ka {
                proof {
                    m = (kb + 1) as nat;
                    assert forall|k: nat| #[trigger]
                        has_key(out0, k) <==> k < m && self@.contains_key(k)
                            && other@.contains_key(k) by {
                        if m0 <= k < m {
                            lemma_absent_between(self.keys@, i as int, k);
                        }
                    }
                    assert forall|p: int| j + 1 <= p < lb implies other.keys@[p] >= kb + 1 by {
                        assert(other.keys@[j as int] < other.keys@[p]);
                    }
                }
                j = j + 1;
            } else {
                out.push(ka);
                proof {
                    m = (ka + 1) as nat;
                    lemma_entry(self.keys@, self.vals@, i as int);
                    lemma_entry(other.keys@, other.vals@, j as int);
                    lemma_has_key_push(out0, ka);
                    assert forall|k: nat| #[trigger]
                        has_key(out@, k) <==> k < m && self@.contains_key(k)
                            && other@.contains_key(k) by {
                        assert(has_key(out0.push(ka), k) <==> has_key(out0, k) || k == ka);
                        if m0 <= k < ka {
                            lemma_absent_between(self.keys@, i as int, k);
                        }
                    }
                    assert forall|p: int| i + 1 <= p < la implies self.keys@[p] >= ka + 1 by {
                        assert(self.keys@[i as int] < self.keys@[p]);
                    }
                    assert forall|p: int| j + 1 <= p < lb implies other.keys@[p] >= ka + 1 by {
                        assert(other.keys@[j as int] < other.keys@[p]);
                    }
                }
                i = i + 1;
                j = j + 1;
            }
        }
        proof {
            assert forall|k: nat|
                has_key(out@, k) <==> self@.contains_key(k) && other@.contains_key(k) by {
                if m <= k {
                    if i >= la {
                        lemma_absent_between(self.keys@, i as int, k);
                    } else {
                        lemma_absent_between(other.keys@, j as int, k);
                    }
                }
            }
        }
        out
    }
}

/// A key that lies strictly between the indices before position `at` and the
/// indices from `at` on is absent. Stated for any split point: if every
/// earlier index is below `k` or every later index is above it, and `k` is
/// not stored, the map lacks it.
proof fn lemma_absent_between(keys: Seq<usize>, at: int, k: nat)
    requires
        0 <= at <= keys.len(),
        forall|p: int| 0 <= p < at ==> keys[p] < k,
        forall|p: int| at <= p < keys.len() ==> keys[p] > k,
    ensures
        !has_key(keys, k),
{
}

/// Membership after appending one element.
proof fn lemma_has_key_push(s: Seq<usize>, x: usize)
    ensures
        forall|k: nat| has_key(s.push(x), k) <==> has_key(s, k) || k == x,
{
    let t = s.push(x);
    assert forall|k: nat| has_key(t, k) <==> has_key(s, k) || k == x by {
        if has_key(t, k) {
            let p = position_of(t, k);
            assert(0 <= p < t.len() && t[p] == k);
            if p < s.len() {
                assert(s[p] == k);
            }
        }
        if has_key(s, k) {
            let p = position_of(s, k);
            assert(0 <= p < s.len() && s[p] == k);
            assert(t[p] == k);
        }
        if k == x {
            assert(t[s.len() as int] == k);
        }
    }
}

/// Overwriting the weight at one position overwrites one entry of the map.
proof fn lemma_map_after_update(keys: Seq<usize>, vals: Seq<u32>, p: int, val: u32)
    requires
        strictly_increasing(keys),
        keys.len() == vals.len(),
        0 <= p < keys.len(),
    ensures
        entries_map(keys, vals.update(p, val)) == entries_map(keys, vals).insert(
            keys[p] as nat,
            val as nat,
        ),
{
    let m0 = entries_map(keys, vals);
    let vals1 = vals.update(p, val);
    let m1 = entries_map(keys, vals1);
    let target = m0.insert(keys[p] as nat, val as nat);
    lemma_entry(keys, vals1, p);
    assert forall|k: nat| m1.contains_key(k) implies #[trigger] m1[k] == target[k] by {
        let q = position_of(keys, k);
        assert(0 <= q < keys.len() && keys[q] == k);
        lemma_entry(keys, vals1, q);
        lemma_entry(keys, vals, q);
    }
    assert(m1 =~= target);
}

/// Inserting a new index at its sorted position inserts one entry into the
/// map and keeps the indices strictly increasing.
proof fn lemma_map_after_insert(keys: Seq<usize>, vals: Seq<u32>, p: int, key: usize, val: u32)
    requires
        strictly_increasing(keys),
        keys.len() == vals.len(),
        0 <= p <= keys.len(),
        forall|i: int| 0 <= i < p ==> keys[i] < key,
        forall|i: int| p <= i < keys.len() ==> keys[i] > key,
    ensures
        strictly_increasing(keys.insert(p, key)),
        entries_map(keys.insert(p, key), vals.insert(p, val)) == entries_map(keys, vals).insert(
            key as nat,
            val as nat,
        ),
{
    let keys1 = keys.insert(p, key);
    let vals1 = vals.insert(p, val);
    let m0 = entries_map(keys, vals);
    let m1 = entries_map(keys1, vals1);
    let target = m0.insert(key as nat, val as nat);
    assert(strictly_increasing(keys1)) by {
        assert forall|i: int, j: int| 0 <= i < j < keys1.len() implies keys1[i] < keys1[j] by {
            let oi = if i < p { i } else { i - 1 };
            let oj = if j < p { j } else { j - 1 };
            if i != p && j != p {
                assert(keys[oi] < keys[oj]);
            }
        }
    }
    assert forall|k: nat| m1.contains_key(k) <==> target.contains_key(k) by {
        if m1.contains_key(k) {
            let q = position_of(keys1, k);
            assert(0 <= q < keys1.len() && keys1[q] == k);
            if q < p {
                assert(keys[q] == k);
            } else if q > p {
                assert(keys[q - 1] == k);
            }
        }
        if m0.contains_key(k) {
            let q = position_of(keys, k);
            assert(0 <= q < keys.len() && keys[q] == k);
            if q < p {
                assert(keys1[q] == k);
            } else {
                assert(keys1[q + 1] == k);
            }
        }
        if k == key {
            assert(keys1[p] == k);
        }
    }
    assert forall|k: nat| m1.contains_key(k) implies #[trigger] m1[k] == target[k] by {
        let q = position_of(keys1, k);
        assert(0 <= q < keys1.len() && keys1[q] == k);
        lemma_entry(keys1, vals1, q);
        if q < p {
            lemma_entry(keys, vals, q);
        } else if q > p {
            lemma_entry(keys, vals, q - 1);
        }
    }
    assert(m1 =~= target);
}

} // verus!
