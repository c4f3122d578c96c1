//! A bounded selection buffer: a binary heap that keeps the best `k` of the
//! entries offered to it, with the worst kept entry at the root.

use crate::ranking::{outranks, ranked, ranks_before, Scored};
use vstd::prelude::*;

verus! {

/// Position of the parent of heap position `i`.
pub open spec fn parent(i: int) -> int {
    (i - 1) / 2
}

/// Among the first `n` entries, no entry is ranked before its child, except
/// that the entry at `hole` may be ranked before its children.
pub open spec fn heap_below(s: Seq<Scored>, n: int, hole: int) -> bool {
    forall|i: int| 1 <= i < n && parent(i) != hole ==> !outranks(s[parent(i)], #[trigger] s[i])
}

/// Among the first `n` entries, no entry is ranked before its child, except
/// that the parent of `hole` may be ranked before `hole`.
pub open spec fn heap_above(s: Seq<Scored>, n: int, hole: int) -> bool {
    forall|i: int| 1 <= i < n && i != hole ==> !outranks(s[parent(i)], #[trigger] s[i])
}

/// The first `n` entries form a heap with the worst entry at the root.
pub open spec fn heap_ok(s: Seq<Scored>, n: int) -> bool {
    forall|i: int| 1 <= i < n ==> !outranks(s[parent(i)], #[trigger] s[i])
}

/// No two entries name the same index.
pub open spec fn distinct(s: Seq<Scored>) -> bool {
    forall|i: int, j: int| 0 <= i < j < s.len() ==> s[i].index != s[j].index
}

/// `x` is one of the first `n` entries.
pub open spec fn within(s: Seq<Scored>, n: int, x: Scored) -> bool {
    exists|q: int| 0 <= q < n && s[q] == x
}

/// The first `n` entries of `a` and of `b` are the same entries in some
/// order, and the remaining entries are equal position by position.
pub open spec fn rearranged(a: Seq<Scored>, b: Seq<Scored>, n: int) -> bool {
    &&& a.len() == b.len()
    &&& forall|j: int| 0 <= j < n ==> within(a, n, #[trigger] b[j])
    &&& forall|j: int| 0 <= j < n ==> within(b, n, #[trigger] a[j])
    &&& forall|j: int| n <= j < a.len() ==> a[j] == b[j]
    &&& distinct(a) ==> distinct(b)
}

/// Every entry of `s` is ranked before `x`.
pub open spec fn beaten_by_all(s: Seq<Scored>, x: Scored) -> bool {
    forall|p: int| 0 <= p < s.len() ==> outranks(#[trigger] s[p], x)
}

/// The root of a heap is not ranked before any entry.
pub proof fn lemma_root_worst(s: Seq<Scored>, n: int, i: int)
    requires
        heap_ok(s, n),
        0 <= i < n <= s.len(),
    ensures
        !outranks(s[0], s[i]),
    decreases i,
{
    if i > 0 {
        lemma_root_worst(s, n, parent(i));
        assert(!outranks(s[parent(i)], s[i]));
    }
}

/// Exchanging two of the first `n` entries rearranges them.
proof fn lemma_swap_rearranges(s: Seq<Scored>, n: int, i: int, j: int)
    requires
        0 <= i < n <= s.len(),
        0 <= j < n,
    ensures
        rearranged(s, s.update(i, s[j]).update(j, s[i]), n),
{
    let t = s.update(i, s[j]).update(j, s[i]);
    assert forall|q: int| 0 <= q < n implies within(s, n, #[trigger] t[q]) by {
        if q == i {
            assert(s[j] == t[q]);
        } else if q == j {
            assert(s[i] == t[q]);
        } else {
            assert(s[q] == t[q]);
        }
    }
    assert forall|q: int| 0 <= q < n implies within(t, n, #[trigger] s[q]) by {
        if q == i {
            assert(t[j] == s[q]);
        } else if q == j {
            assert(t[i] == s[q]);
        } else {
            assert(t[q] == s[q]);
        }
    }
    if distinct(s) {
        assert forall|a: int, b: int| 0 <= a < b < t.len() implies t[a].index != t[b].index by {
            let sa = if a == i { j } else if a == j { i } else { a };
            let sb = if b == i { j } else if b == j { i } else { b };
            assert(t[a] == s[sa] && t[b] == s[sb]);
            if sa < sb {
                assert(s[sa].index != s[sb].index);
            } else {
                assert(s[sb].index != s[sa].index);
            }
        }
    }
}

/// Rearranging twice is rearranging.
proof fn lemma_rearranged_transitive(a: Seq<Scored>, b: Seq<Scored>, c: Seq<Scored>, n: int)
    requires
        rearranged(a, b, n),
        rearranged(b, c, n),
        0 <= n <= a.len(),
    ensures
        rearranged(a, c, n),
{
    assert forall|j: int| 0 <= j < n implies within(a, n, #[trigger] c[j]) by {
        assert(within(b, n, c[j]));
        let q = choose|q: int| 0 <= q < n && b[q] == c[j];
        assert(within(a, n, b[q]));
    }
    assert forall|j: int| 0 <= j < n implies within(c, n, #[trigger] a[j]) by {
        assert(within(b, n, a[j]));
        let q = choose|q: int| 0 <= q < n && b[q] == a[j];
        assert(within(c, n, b[q]));
    }
}

/// Exchanges the entries at two positions.
fn exchange(h: &mut Vec<Scored>, i: usize, j: usize)
    requires
        i < old(h)@.len(),
        j < old(h)@.len(),
    ensures
        final(h)@ == old(h)@.update(i as int, old(h)@[j as int]).update(j as int, old(h)@[i as int]),
{
    let a: Scored = h[i];
    let b: Scored = h[j];
    h.set(i, b);
    h.set(j, a);
}

/// Restores the heap among the first `n` entries when only the entry at
/// `start` may be ranked before its children, by moving it down.
fn sift_down(h: &mut Vec<Scored>, start: usize, n: usize)
    requires
        start < n <= old(h)@.len(),
        heap_below(old(h)@, n as int, start as int),
        forall|c: int|
            1 <= start && start < c < n && parent(c) == start ==> !outranks(
                old(h)@[parent(start as int)],
                #[trigger] old(h)@[c],
            ),
    ensures
        heap_ok(final(h)@, n as int),
        rearranged(old(h)@, final(h)@, n as int),
{
    let ghost h0 = h@;
    let mut i: usize = start;
    proof {
        assert forall|j: int| 0 <= j < n implies within(h0, n as int, #[trigger] h0[j]) by {}
    }
    loop
        invariant
            i < n <= h@.len(),
            h0.len() == h@.len(),
            heap_below(h@, n as int, i as int),
            forall|c: int|
                1 <= i && i < c < n && parent(c) == i ==> !outranks(
                    h@[parent(i as int)],
                    #[trigger] h@[c],
                ),
            rearranged(h0, h@, n as int),
        ensures
            n <= h@.len(),
            h0.len() == h@.len(),
            heap_ok(h@, n as int),
            rearranged(h0, h@, n as int),
        decreases n - i,
    {
        if n < 2 || i > (n - 2) / 2 {
            proof {
                assert forall|c: int| 1 <= c < n implies !outranks(
                    h@[parent(c)],
                    #[trigger] h@[c],
                ) by {
                    assert(parent(c) != i);
                }
            }
            break ;
        }
        let l: usize = 2 * i + 1;
        let r: usize = l + 1;
        let c: usize = if r < n && ranks_before(h[l], h[r]) {
            r
        } else {
            l
        };
        if !ranks_before(h[i], h[c]) {
            proof {
                assert forall|d: int| 1 <= d < n implies !outranks(
                    h@[parent(d)],
                    #[trigger] h@[d],
                ) by {
                    if parent(d) == i {
                        assert(d == l || d == r);
                    }
                }
            }
            break ;
        }
        let ghost h1 = h@;
        exchange(h, i, c);
        proof {
            lemma_swap_rearranges(h1, n as int, i as int, c as int);
            lemma_rearranged_transitive(h0, h1, h@, n as int);
            assert forall|d: int| 1 <= d < n && parent(d) != c implies !outranks(
                h@[parent(d)],
                #[trigger] h@[d],
            ) by {
                if d == c {
                } else if parent(d) == i {
                    assert(d == l || d == r);
                    assert(!outranks(h1[c as int], h1[d]));
                } else if d == i {
                    assert(!outranks(h1[parent(i as int)], h1[c as int]));
                } else {
                    assert(!outranks(h1[parent(d)], h1[d]));
                }
            }
            assert forall|g: int| c < g < n && parent(g) == c implies !outranks(
                h@[parent(c as int)],
                #[trigger] h@[g],
            ) by {
                assert(!outranks(h1[parent(g)], h1[g]));
            }
        }
        i = c;
    }
}

/// Restores the heap among all entries when only the entry at `start` may
/// be ranked after its parent, by moving it up.
fn sift_up(h: &mut Vec<Scored>, start: usize)
    requires
        start < old(h)@.len(),
        heap_above(old(h)@, old(h)@.len() as int, start as int),
        forall|c: int|
            1 <= start && start < c < old(h)@.len() && parent(c) == start ==> !outranks(
                old(h)@[parent(start as int)],
                #[trigger] old(h)@[c],
            ),
    ensures
        heap_ok(final(h)@, final(h)@.len() as int),
        rearranged(old(h)@, final(h)@, old(h)@.len() as int),
{
    let ghost h0 = h@;
    let n: usize = h.len();
    let mut i: usize = start;
    proof {
        assert forall|j: int| 0 <= j < n implies within(h0, n as int, #[trigger] h0[j]) by {}
    }
    loop
        invariant
            i < n,
            n == h@.len(),
            h0.len() == h@.len(),
            heap_above(h@, n as int, i as int),
            forall|c: int|
                1 <= i && i < c < n && parent(c) == i ==> !outranks(
                    h@[parent(i as int)],
                    #[trigger] h@[c],
                ),
            rearranged(h0, h@, n as int),
        ensures
            n == h@.len(),
            h0.len() == h@.len(),
            heap_ok(h@, n as int),
            rearranged(h0, h@, n as int),
        decreases i,
    {
        if i == 0 {
            break ;
        }
        let p: usize = (i - 1) / 2;
        if !ranks_before(h[p], h[i]) {
            break ;
        }
        let ghost h1 = h@;
        exchange(h, p, i);
        proof {
            lemma_swap_rearranges(h1, n as int, p as int, i as int);
            lemma_rearranged_transitive(h0, h1, h@, n as int);
            assert forall|d: int| 1 <= d < n && d != p implies !outranks(
                h@[parent(d)],
                #[trigger] h@[d],
            ) by {
                if d == i {
                } else if parent(d) == i {
                    assert(!outranks(h1[parent(i as int)], h1[d]));
                } else if parent(d) == p {
                    assert(!outranks(h1[p as int], h1[d]));
                } else {
                    assert(!outranks(h1[parent(d)], h1[d]));
                }
            }
            assert forall|g: int| p < g < n && parent(g) == p && 1 <= p implies !outranks(
                h@[parent(p as int)],
                #[trigger] h@[g],
            ) by {
                assert(!outranks(h1[parent(p as int)], h1[p as int]));
                if g != i {
                    assert(!outranks(h1[p as int], h1[g]));
                }
            }
        }
        i = p;
    }
}

/// Entries rearranged among the first `m` are rearranged among the first
/// `n`, for any larger `n`.
proof fn lemma_rearranged_widen(a: Seq<Scored>, b: Seq<Scored>, m: int, n: int)
    requires
        rearranged(a, b, m),
        0 <= m <= n <= a.len(),
    ensures
        rearranged(a, b, n),
{
    assert forall|j: int| 0 <= j < n implies within(a, n, #[trigger] b[j]) by {
        if j < m {
            assert(within(a, m, b[j]));
            let q = choose|q: int| 0 <= q < m && a[q] == b[j];
            assert(a[q] == b[j]);
        } else {
            assert(a[j] == b[j]);
        }
    }
    assert forall|j: int| 0 <= j < n implies within(b, n, #[trigger] a[j]) by {
        if j < m {
            assert(within(b, m, a[j]));
            let q = choose|q: int| 0 <= q < m && b[q] == a[j];
            assert(b[q] == a[j]);
        } else {
            assert(b[j] == a[j]);
        }
    }
}

/// Two sequences rearranged as a whole hold the same entries.
proof fn lemma_rearranged_members(a: Seq<Scored>, b: Seq<Scored>)
    requires
        rearranged(a, b, a.len() as int),
    ensures
        forall|x: Scored| a.contains(x) <==> b.contains(x),
{
    let n = a.len() as int;
    assert forall|x: Scored| a.contains(x) <==> b.contains(x) by {
        if a.contains(x) {
            let j = choose|j: int| 0 <= j < a.len() && a[j] == x;
            assert(within(b, n, a[j]));
        }
        if b.contains(x) {
            let j = choose|j: int| 0 <= j < b.len() && b[j] == x;
            assert(within(a, n, b[j]));
        }
    }
}

/// Adds an entry with a fresh index to a heap.
fn heap_push(h: &mut Vec<Scored>, e: Scored)
    requires
        heap_ok(old(h)@, old(h)@.len() as int),
        distinct(old(h)@),
        forall|p: int| 0 <= p < old(h)@.len() ==> old(h)@[p].index != e.index,
    ensures
        heap_ok(final(h)@, final(h)@.len() as int),
        distinct(final(h)@),
        final(h)@.len() == old(h)@.len() + 1,
        forall|x: Scored| final(h)@.contains(x) <==> old(h)@.contains(x) || x == e,
{
    let ghost h0 = h@;
    let n: usize = h.len();
    h.push(e);
    let ghost h1 = h@;
    proof {
        assert forall|i: int| 1 <= i < n + 1 && i != n implies !outranks(
            h1[parent(i)],
            #[trigger] h1[i],
        ) by {
            assert(h1[i] == h0[i] && h1[parent(i)] == h0[parent(i)]);
            assert(!outranks(h0[parent(i)], h0[i]));
        }
        assert forall|a: int, b: int| 0 <= a < b < h1.len() implies h1[a].index
            != h1[b].index by {
            assert(h1[a] == h0[a]);
            if b < n {
                assert(h1[b] == h0[b]);
                assert(h0[a].index != h0[b].index);
            } else {
                assert(h1[b] == e);
            }
        }
        assert forall|x: Scored| h1.contains(x) <==> h0.contains(x) || x == e by {
            vstd::seq_lib::lemma_seq_contains_after_push(h0, e, x);
        }
    }
    sift_up(h, n);
    proof {
        lemma_rearranged_members(h1, h@);
    }
}

/// Replaces the root of a full heap by an entry with a fresh index that is
/// ranked before it.
fn heap_replace_root(h: &mut Vec<Scored>, e: Scored)
    requires
        old(h)@.len() > 0,
        heap_ok(old(h)@, old(h)@.len() as int),
        distinct(old(h)@),
        forall|p: int| 0 <= p < old(h)@.len() ==> old(h)@[p].index != e.index,
        outranks(e, old(h)@[0]),
    ensures
        heap_ok(final(h)@, final(h)@.len() as int),
        distinct(final(h)@),
        final(h)@.len() == old(h)@.len(),
        final(h)@.contains(e),
        forall|p: int|
            0 <= p < final(h)@.len() ==> #[trigger] final(h)@[p] == e || old(h)@.contains(
                final(h)@[p],
            ),
        forall|p: int| 1 <= p < old(h)@.len() ==> final(h)@.contains(#[trigger] old(h)@[p]),
        beaten_by_all(final(h)@, old(h)@[0]),
        forall|x: Scored| #[trigger] beaten_by_all(old(h)@, x) ==> beaten_by_all(final(h)@, x),
{
    let ghost h0 = h@;
    let n: usize = h.len();
    h.set(0, e);
    let ghost h1 = h@;
    proof {
        assert forall|i: int| 1 <= i < n && parent(i) != 0 implies !outranks(
            h1[parent(i)],
            #[trigger] h1[i],
        ) by {
            assert(h1[i] == h0[i] && h1[parent(i)] == h0[parent(i)]);
            assert(!outranks(h0[parent(i)], h0[i]));
        }
        assert forall|a: int, b: int| 0 <= a < b < h1.len() implies h1[a].index
            != h1[b].index by {
            assert(h1[b] == h0[b]);
            if a > 0 {
                assert(h1[a] == h0[a]);
                assert(h0[a].index != h0[b].index);
            } else {
                assert(h1[a] == e);
            }
        }
    }
    sift_down(h, 0, n);
    proof {
        let h2 = h@;
        lemma_rearranged_members(h1, h2);
        assert(h1[0] == e);
        assert(h1.contains(e));
        assert forall|p: int| 0 <= p < h2.len() implies #[trigger] h2[p] == e || h0.contains(
            h2[p],
        ) by {
            assert(h2.contains(h2[p]));
            assert(h1.contains(h2[p]));
            let q = choose|q: int| 0 <= q < h1.len() && h1[q] == h2[p];
            if q > 0 {
                assert(h0[q] == h2[p]);
            }
        }
        assert forall|p: int| 1 <= p < h0.len() implies h2.contains(#[trigger] h0[p]) by {
            assert(h1[p] == h0[p]);
            assert(h1.contains(h0[p]));
        }
        assert forall|q: int| 0 <= q < h2.len() implies outranks(#[trigger] h2[q], h0[0]) by {
            if h2[q] != e {
                assert(h0.contains(h2[q]));
                let j = choose|j: int| 0 <= j < h0.len() && h0[j] == h2[q];
                lemma_root_worst(h0, n as int, j);
                if j > 0 {
                    assert(h0[0].index != h0[j].index);
                } else {
                    assert(h2.contains(h2[q]));
                    assert(h1.contains(h2[q]));
                    let j1 = choose|j1: int| 0 <= j1 < h1.len() && h1[j1] == h2[q];
                    if j1 > 0 {
                        assert(h0[j1] == h0[0]);
                        assert(h0[0].index != h0[j1].index);
                    }
                }
            }
        }
        assert forall|x: Scored| #[trigger] beaten_by_all(h0, x) implies beaten_by_all(h2, x) by {
            assert forall|q: int| 0 <= q < h2.len() implies outranks(#[trigger] h2[q], x) by {
                assert(outranks(h0[0], x));
                if h2[q] != e {
                    assert(h0.contains(h2[q]));
                    let j = choose|j: int| 0 <= j < h0.len() && h0[j] == h2[q];
                    assert(outranks(h0[j], x));
                }
            }
        }
    }
}

/// The best entries seen so far, at most as many as the capacity.
pub struct TopK {
    heap: Vec<Scored>,
    cap: usize,
}

impl View for TopK {
    type V = Seq<Scored>;

    /// The kept entries, in no particular order.
    closed spec fn view(&self) -> Seq<Scored> {
        self.heap@
    }
}

impl TopK {
    /// Largest number of entries kept.
    pub closed spec fn capacity(&self) -> nat {
        self.cap as nat
    }

    /// Representation invariant: a heap of entries with distinct indices,
    /// within the capacity.
    pub closed spec fn wf(&self) -> bool {
        &&& self.heap@.len() <= self.cap
        &&& heap_ok(self.heap@, self.heap@.len() as int)
        &&& distinct(self.heap@)
    }

    /// An empty buffer that keeps up to `cap` entries.
    pub fn new(cap: usize) -> (t: TopK)
        ensures
            t.wf(),
            t@.len() == 0,
            t.capacity() == cap,
    {
        TopK { heap: Vec::new(), cap }
    }

    /// Number of kept entries.
    pub fn len(&self) -> (n: usize)
        ensures
            n == self@.len(),
    {
        self.heap.len()
    }

    /// Offers an entry: it is kept if there is room or if it is ranked
    /// before the worst kept entry, which it then replaces.
    pub fn offer(&mut self, e: Scored)
        requires
            old(self).wf(),
            forall|p: int| 0 <= p < old(self)@.len() ==> old(self)@[p].index != e.index,
        ensures
            final(self).wf(),
            final(self).capacity() == old(self).capacity(),
            old(self)@.len() <= final(self)@.len() <= final(self).capacity(),
            forall|p: int|
                0 <= p < final(self)@.len() ==> #[trigger] final(self)@[p] == e || old(
                    self,
                )@.contains(final(self)@[p]),
            forall|p: int|
                0 <= p < old(self)@.len() ==> final(self)@.contains(#[trigger] old(self)@[p]) || (
                final(self)@.len() == final(self).capacity() && beaten_by_all(
                    final(self)@,
                    old(self)@[p],
                )),
            final(self)@.contains(e) || (final(self)@.len() == final(self).capacity()
                && beaten_by_all(final(self)@, e)),
            forall|x: Scored|
                old(self)@.len() == old(self).capacity() && #[trigger] beaten_by_all(
                    old(self)@,
                    x,
                ) ==> beaten_by_all(final(self)@, x),
    {
        let ghost h0 = self.heap@;
        let n: usize = self.heap.len();
        if self.cap == 0 {
            return ;
        }
        proof {
            assert forall|p: int| 0 <= p < h0.len() implies h0[p].index != e.index by {
                assert(self@[p].index != e.index);
            }
        }
        if n < self.cap {
            heap_push(&mut self.heap, e);
        } else {
            let root: Scored = self.heap[0];
            if ranks_before(e, root) {
                heap_replace_root(&mut self.heap, e);
            } else {
                proof {
                    assert forall|p: int| 0 <= p < h0.len() implies outranks(
                        #[trigger] h0[p],
                        e,
                    ) by {
                        lemma_root_worst(h0, n as int, p);
                        assert(h0[0].index != e.index);
                    }
                    assert forall|p: int| 0 <= p < h0.len() implies h0.contains(
                        #[trigger] h0[p],
                    ) by {}
                }
            }
        }
    }

    /// The kept entries in rank order, best first.
    pub fn into_ranked(self) -> (r: Vec<Scored>)
        requires
            self.wf(),
        ensures
            ranked(r@),
            r@.len() == self@.len(),
            forall|x: Scored| r@.contains(x) <==> self@.contains(x),
    {
        let ghost h0 = self.heap@;
        let mut h: Vec<Scored> = self.heap;
        let n: usize = h.len();
        let mut end: usize = n;
        proof {
            assert forall|j: int| 0 <= j < n implies within(h0, n as int, #[trigger] h0[j]) by {}
        }
        while end > 1
            invariant
                end <= n,
                n == h@.len(),
                heap_ok(h@, end as int),
                rearranged(h0, h@, n as int),
                distinct(h0),
                forall|a: int, b: int| end <= a < b < n ==> !outranks(h@[b], h@[a]),
                forall|a: int, b: int| 0 <= a < end && end <= b < n ==> !outranks(h@[b], h@[a]),
            decreases end,
        {
            let ghost h1 = h@;
            let ghost end1 = end as int;
            end = end - 1;
            exchange(&mut h, 0, end);
            let ghost h2 = h@;
            proof {
                lemma_swap_rearranges(h1, n as int, 0, end as int);
                lemma_rearranged_transitive(h0, h1, h2, n as int);
                assert forall|i: int| 1 <= i < end && parent(i) != 0 implies !outranks(
                    h2[parent(i)],
                    #[trigger] h2[i],
                ) by {
                    assert(!outranks(h1[parent(i)], h1[i]));
                }
            }
            sift_down(&mut h, 0, end);
            proof {
                let h3 = h@;
                lemma_rearranged_widen(h2, h3, end as int, n as int);
                lemma_rearranged_transitive(h0, h2, h3, n as int);
                assert forall|a: int, b: int| end <= a < b < n implies !outranks(
                    h3[b],
                    h3[a],
                ) by {
                    assert(h3[b] == h1[b]);
                    if a == end {
                        assert(h3[a] == h1[0]);
                    } else {
                        assert(h3[a] == h1[a]);
                    }
                }
                assert forall|a: int, b: int| 0 <= a < end && end <= b < n implies !outranks(
                    h3[b],
                    h3[a],
                ) by {
                    assert(within(h2, end as int, h3[a]));
                    let q = choose|q: int| 0 <= q < end && h2[q] == h3[a];
                    let q1 = if q == 0 {
                        end as int
                    } else {
                        q
                    };
                    assert(h1[q1] == h3[a]);
                    if b == end {
                        assert(h3[b] == h1[0]);
                        lemma_root_worst(h1, end1, q1);
                    } else {
                        assert(h3[b] == h1[b]);
                    }
                }
            }
        }
        proof {
            assert forall|a: int, b: int| 0 <= a < b < h@.len() implies outranks(h@[a], h@[b]) by {
                assert(!outranks(h@[b], h@[a]));
                assert(h@[a].index != h@[b].index);
            }
            assert forall|x: Scored| h@.contains(x) <==> h0.contains(x) by {
                if h@.contains(x) {
                    let j = choose|j: int| 0 <= j < h@.len() && h@[j] == x;
                    assert(within(h0, n as int, h@[j]));
                }
                if h0.contains(x) {
                    let j = choose|j: int| 0 <= j < h0.len() && h0[j] == x;
                    assert(within(h@, n as int, h0[j]));
                }
            }
        }
        h
    }
}

} // verus!
