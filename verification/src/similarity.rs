//! Pairwise similarity of two interaction vectors, in fixed point.

use crate::config::{Metric, SCORE_ONE};
use crate::sparse::{
    inner, inner_upto, lemma_inner_positive, lemma_inner_symmetric, lemma_inner_upto_bounded,
    SparseVec, MAX_DIM,
};
use vstd::prelude::*;

verus! {

/// `s` does not overshoot the cosine: `s / SCORE_ONE <= dot / sqrt(norms)`,
/// stated without division or roots.
pub open spec fn score_fits(s: nat, dot: nat, norms: nat) -> bool {
    s <= SCORE_ONE && (s * s) * norms <= (SCORE_ONE * dot) * (SCORE_ONE * dot)
}

/// `s` is the largest score that fits.
pub open spec fn is_cosine_score(s: nat, dot: nat, norms: nat) -> bool {
    score_fits(s, dot, norms) && (s < SCORE_ONE ==> !score_fits(s + 1, dot, norms))
}

/// The cosine of two vectors with dot product `dot` and squared norms whose
/// product is `norms`, rounded down to a multiple of `1 / SCORE_ONE` and
/// capped at one. Zero when the dot product is zero.
pub open spec fn cosine_score(dot: nat, norms: nat) -> nat {
    if dot == 0 {
        0
    } else {
        choose|s: nat| is_cosine_score(s, dot, norms)
    }
}

/// The Jaccard index of two sets of the given sizes with `common` shared
/// elements, rounded down to a multiple of `1 / SCORE_ONE`. Zero when
/// nothing is shared.
pub open spec fn jaccard_score(common: nat, size_a: nat, size_b: nat) -> nat {
    if common == 0 || size_a + size_b <= common {
        0
    } else {
        ((SCORE_ONE * common) / (size_a + size_b - common)) as nat
    }
}

/// The similarity of two interaction vectors under `metric`.
pub open spec fn rows_similarity(a: Map<nat, nat>, b: Map<nat, nat>, metric: Metric) -> nat {
    match metric {
        Metric::Cosine => cosine_score(inner(a, b, true), inner(a, a, true) * inner(b, b, true)),
        Metric::Jaccard => jaccard_score(
            inner(a, b, false),
            inner(a, a, false),
            inner(b, b, false),
        ),
    }
}

/// At most one score is the largest that fits.
pub proof fn lemma_cosine_unique(s1: nat, s2: nat, dot: nat, norms: nat)
    requires
        is_cosine_score(s1, dot, norms),
        is_cosine_score(s2, dot, norms),
    ensures
        s1 == s2,
{
    if s1 < s2 {
        assert(((s1 + 1) * (s1 + 1)) * norms <= (s2 * s2) * norms) by (nonlinear_arith)
            requires
                s1 + 1 <= s2,
        ;
    } else if s2 < s1 {
        assert(((s2 + 1) * (s2 + 1)) * norms <= (s1 * s1) * norms) by (nonlinear_arith)
            requires
                s2 + 1 <= s1,
        ;
    }
}

/// From any score that fits, a largest fitting score can be reached.
proof fn lemma_cosine_exists_from(s: nat, dot: nat, norms: nat)
    requires
        score_fits(s, dot, norms),
    ensures
        exists|c: nat| is_cosine_score(c, dot, norms),
    decreases SCORE_ONE - s,
{
    if s < SCORE_ONE && score_fits(s + 1, dot, norms) {
        lemma_cosine_exists_from(s + 1, dot, norms);
    } else {
        assert(is_cosine_score(s, dot, norms));
    }
}

/// The cosine score is a largest fitting score and never exceeds one.
pub proof fn lemma_cosine_bounded(dot: nat, norms: nat)
    ensures
        cosine_score(dot, norms) <= SCORE_ONE,
        dot > 0 ==> is_cosine_score(cosine_score(dot, norms), dot, norms),
{
    if dot > 0 {
        assert((0nat * 0nat) * norms == 0) by (nonlinear_arith);
        assert((SCORE_ONE * dot) * (SCORE_ONE * dot) >= 0) by (nonlinear_arith);
        assert(score_fits(0, dot, norms));
        lemma_cosine_exists_from(0, dot, norms);
    }
}

/// No similarity exceeds one.
pub proof fn lemma_rows_similarity_bounded(a: Map<nat, nat>, b: Map<nat, nat>, metric: Metric)
    ensures
        rows_similarity(a, b, metric) <= SCORE_ONE,
{
    match metric {
        Metric::Cosine => {
            lemma_cosine_bounded(inner(a, b, true), inner(a, a, true) * inner(b, b, true));
        },
        Metric::Jaccard => {
            let c = inner(a, b, false);
            let sa = inner(a, a, false);
            let sb = inner(b, b, false);
            lemma_count_bounded(a, b, MAX_DIM as nat);
            if c > 0 {
                let un = (sa + sb - c) as nat;
                let num = SCORE_ONE as nat * c;
                lemma_div_bound(num / un, num, un);
                if num / un > SCORE_ONE {
                    assert((num / un) * un >= (SCORE_ONE + 1) * un) by (nonlinear_arith)
                        requires
                            num / un >= SCORE_ONE + 1,
                    ;
                    assert((SCORE_ONE + 1) * un > SCORE_ONE * c) by (nonlinear_arith)
                        requires
                            un >= c,
                            un > 0,
                    ;
                }
            }
        },
    }
}

/// Similarity does not depend on the order of the two vectors.
pub proof fn lemma_rows_similarity_symmetric(a: Map<nat, nat>, b: Map<nat, nat>, metric: Metric)
    ensures
        rows_similarity(a, b, metric) == rows_similarity(b, a, metric),
{
    lemma_inner_symmetric(a, b, true);
    lemma_inner_symmetric(a, b, false);
    let na = inner(a, a, true);
    let nb = inner(b, b, true);
    assert(na * nb == nb * na) by (nonlinear_arith);
}

/// Two vectors with a positive similarity share an index.
pub proof fn lemma_similar_rows_share(a: Map<nat, nat>, b: Map<nat, nat>, metric: Metric)
    requires
        rows_similarity(a, b, metric) > 0,
    ensures
        exists|k: nat| k < MAX_DIM && a.contains_key(k) && b.contains_key(k),
{
    match metric {
        Metric::Cosine => {
            lemma_inner_positive(a, b, true);
        },
        Metric::Jaccard => {
            lemma_inner_positive(a, b, false);
        },
    }
}

/// Two vectors share no more indices than either holds.
pub proof fn lemma_count_bounded(a: Map<nat, nat>, b: Map<nat, nat>, n: nat)
    ensures
        inner_upto(a, b, false, n) <= inner_upto(a, a, false, n),
        inner_upto(a, b, false, n) <= inner_upto(b, b, false, n),
    decreases n,
{
    if n > 0 {
        lemma_count_bounded(a, b, (n - 1) as nat);
    }
}

/// Floor division characterised by multiplication.
proof fn lemma_div_bound(a: nat, t: nat, p: nat)
    requires
        p > 0,
    ensures
        a <= t / p <==> a * p <= t,
{
    vstd::arithmetic::div_mod::lemma_fundamental_div_mod(t as int, p as int);
    let q = t / p;
    let r = t % p;
    assert(0 <= r < p) by {
        vstd::arithmetic::div_mod::lemma_mod_bound(t as int, p as int);
    }
    assert(t == p * q + r);
    if a <= q {
        assert(a * p <= q * p) by (nonlinear_arith)
            requires
                a <= q,
        ;
        assert(q * p == p * q) by (nonlinear_arith);
    } else {
        assert(a * p >= (q + 1) * p) by (nonlinear_arith)
            requires
                a >= q + 1,
        ;
        assert((q + 1) * p == p * q + p) by (nonlinear_arith);
    }
}

/// The cosine score of a dot product and two squared norms.
pub fn cosine_fixed(dot: u64, norm_a: u64, norm_b: u64) -> (s: u64)
    requires
        dot <= 100_000_000_000_000,
        norm_a <= 100_000_000_000_000,
        norm_b <= 100_000_000_000_000,
    ensures
        s == cosine_score(dot as nat, (norm_a * norm_b) as nat),
        s <= SCORE_ONE,
{
    if dot == 0 {
        return 0;
    }
    assert(norm_a * norm_b <= 10_000_000_000_000_000_000_000_000_000) by (nonlinear_arith)
        requires
            norm_a <= 100_000_000_000_000,
            norm_b <= 100_000_000_000_000,
    ;
    let p: u128 = (norm_a as u128) * (norm_b as u128);
    assert(SCORE_ONE * dot <= 10_000_000_000_000_000_000) by (nonlinear_arith)
        requires
            SCORE_ONE == 100_000,
            dot <= 100_000_000_000_000,
    ;
    let x: u128 = (SCORE_ONE as u128) * (dot as u128);
    assert(x * x <= 100_000_000_000_000_000_000_000_000_000_000_000_000) by (nonlinear_arith)
        requires
            x <= 10_000_000_000_000_000_000,
    ;
    let t: u128 = x * x;
    if p == 0 {
        proof {
            assert(forall|s: nat| (#[trigger] (s * s)) * 0 == 0) by (nonlinear_arith);
            assert((SCORE_ONE as nat * SCORE_ONE as nat) * 0 == 0);
            assert(score_fits(SCORE_ONE as nat, dot as nat, 0));
            assert(is_cosine_score(SCORE_ONE as nat, dot as nat, 0));
            let c = choose|s: nat| is_cosine_score(s, dot as nat, 0);
            lemma_cosine_unique(c, SCORE_ONE as nat, dot as nat, 0);
        }
        return SCORE_ONE;
    }
    let q: u128 = t / p;
    let mut lo: u64 = 0;
    let mut hi: u64 = SCORE_ONE + 1;
    while hi - lo > 1
        invariant
            lo < hi <= SCORE_ONE + 1,
            lo * lo <= q,
            hi <= SCORE_ONE ==> hi * hi > q,
        decreases hi - lo,
    {
        let mid: u64 = lo + (hi - lo) / 2;
        assert(mid * mid <= 10_000_200_001) by (nonlinear_arith)
            requires
                mid <= 100_001,
        ;
        let sq: u128 = (mid as u128) * (mid as u128);
        if sq <= q {
            lo = mid;
        } else {
            hi = mid;
        }
    }
    proof {
        let sn = lo as nat;
        let dn = dot as nat;
        let pn = p as nat;
        assert((SCORE_ONE * dn) * (SCORE_ONE * dn) == t);
        lemma_div_bound(sn * sn, t as nat, pn);
        assert(score_fits(sn, dn, pn));
        if sn < SCORE_ONE {
            assert(hi == lo + 1);
            lemma_div_bound((sn + 1) * (sn + 1), t as nat, pn);
            assert(!score_fits(sn + 1, dn, pn));
        }
        assert(is_cosine_score(sn, dn, pn));
        let c = choose|s: nat| is_cosine_score(s, dn, pn);
        lemma_cosine_unique(c, sn, dn, pn);
    }
    lo
}

/// The Jaccard score of two sets given their sizes and the number of shared
/// elements.
pub fn jaccard_fixed(common: u64, size_a: u64, size_b: u64) -> (s: u64)
    requires
        common <= size_a <= 100_000_000_000_000,
        common <= size_b <= 100_000_000_000_000,
    ensures
        s == jaccard_score(common as nat, size_a as nat, size_b as nat),
        s <= SCORE_ONE,
{
    if common == 0 {
        return 0;
    }
    let union: u64 = size_a + size_b - common;
    let num: u64 = SCORE_ONE * common;
    proof {
        lemma_div_bound((num / union) as nat, num as nat, union as nat);
        if num / union > SCORE_ONE {
            assert((num / union) * union >= (SCORE_ONE + 1) * union) by (nonlinear_arith)
                requires
                    num / union >= SCORE_ONE + 1,
            ;
            assert((SCORE_ONE + 1) * union > SCORE_ONE * common) by (nonlinear_arith)
                requires
                    union >= common,
                    union > 0,
            ;
        }
    }
    num / union
}

/// The inner product of a vector with itself that `metric` needs: the
/// squared norm for the cosine, the number of entries for Jaccard.
pub fn self_measure(a: &SparseVec, metric: Metric) -> (m: u64)
    requires
        a.wf(),
    ensures
        m == inner(a@, a@, metric == Metric::Cosine),
        m <= 100_000_000_000_000,
{
    match metric {
        Metric::Cosine => a.inner_product(a, true),
        Metric::Jaccard => a.inner_product(a, false),
    }
}

/// The similarity of two interaction vectors under `metric`, given the
/// self-measures of both.
pub fn similarity_given(
    a: &SparseVec,
    b: &SparseVec,
    metric: Metric,
    measure_a: u64,
    measure_b: u64,
) -> (s: u64)
    requires
        a.wf(),
        b.wf(),
        measure_a == inner(a@, a@, metric == Metric::Cosine),
        measure_b == inner(b@, b@, metric == Metric::Cosine),
    ensures
        s == rows_similarity(a@, b@, metric),
        s <= SCORE_ONE,
{
    proof {
        a.lemma_wf_facts();
        b.lemma_wf_facts();
        lemma_inner_upto_bounded(a@, a@, metric == Metric::Cosine, MAX_DIM as nat);
        lemma_inner_upto_bounded(b@, b@, metric == Metric::Cosine, MAX_DIM as nat);
    }
    match metric {
        Metric::Cosine => {
            let dot = a.inner_product(b, true);
            cosine_fixed(dot, measure_a, measure_b)
        },
        Metric::Jaccard => {
            let common = a.inner_product(b, false);
            proof {
                lemma_count_bounded(a@, b@, MAX_DIM as nat);
            }
            jaccard_fixed(common, measure_a, measure_b)
        },
    }
}

/// The similarity of two interaction vectors under `metric`.
pub fn similarity_rows(a: &SparseVec, b: &SparseVec, metric: Metric) -> (s: u64)
    requires
        a.wf(),
        b.wf(),
    ensures
        s == rows_similarity(a@, b@, metric),
        s <= SCORE_ONE,
{
    let measure_a = self_measure(a, metric);
    let measure_b = self_measure(b, metric);
    similarity_given(a, b, metric, measure_a, measure_b)
}

} // verus!
