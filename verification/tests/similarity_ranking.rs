use recfarm::config::{Metric, SCORE_ONE};
use recfarm::heap::TopK;
use recfarm::ranking::{ranks_before, Scored};
use recfarm::similarity::{
    cosine_fixed, jaccard_fixed, self_measure, similarity_given, similarity_rows,
};
use recfarm::sparse::SparseVec;

fn vec_of(entries: &[(usize, u32)]) -> SparseVec {
    let mut v = SparseVec::new();
    for (k, w) in entries {
        v.upsert(*k, *w);
    }
    v
}

fn entry(index: usize, score: u64) -> Scored {
    Scored { index, score }
}

#[test]
fn cosine_of_identical_directions_is_one() {
    assert_eq!(cosine_fixed(20_000, 20_000, 20_000), SCORE_ONE);
    assert_eq!(cosine_fixed(6, 4, 9), SCORE_ONE);
}

#[test]
fn cosine_is_rounded_down_to_five_digits() {
    // 1 / sqrt(2) = 0.70710678...
    assert_eq!(cosine_fixed(10_000, 10_000, 20_000), 70_710);
    // 1 / 3
    assert_eq!(cosine_fixed(20_000, 20_000, 180_000), 33_333);
    // 1 / sqrt(10) = 0.316227766...
    assert_eq!(cosine_fixed(10_000, 20_000, 50_000), 31_622);
}

#[test]
fn cosine_of_orthogonal_vectors_is_zero() {
    assert_eq!(cosine_fixed(0, 10_000, 20_000), 0);
    assert_eq!(cosine_fixed(0, 0, 0), 0);
}

#[test]
fn cosine_at_the_largest_inputs_stays_in_range() {
    let big = 100_000_000_000_000u64;
    assert_eq!(cosine_fixed(big, big, big), SCORE_ONE);
    assert_eq!(cosine_fixed(1, big, big), 0);
    assert_eq!(cosine_fixed(big, 1, 1), SCORE_ONE);
}

#[test]
fn cosine_matches_floating_point_on_a_grid() {
    for dot in [1u64, 2, 3, 5, 8, 13, 21, 34] {
        for na in [40u64, 55, 89, 144] {
            for nb in [40u64, 60, 233] {
                let exact = (dot as f64) / ((na as f64) * (nb as f64)).sqrt();
                let want = (exact * SCORE_ONE as f64).floor().min(SCORE_ONE as f64) as u64;
                let got = cosine_fixed(dot, na, nb);
                assert!(got == want || got + 1 == want || got == want + 1, "{dot} {na} {nb}");
                // The defining inequalities, in exact integer arithmetic.
                let t = (SCORE_ONE as u128 * dot as u128).pow(2);
                let p = na as u128 * nb as u128;
                assert!((got as u128).pow(2) * p <= t);
                if got < SCORE_ONE {
                    assert!((got as u128 + 1).pow(2) * p > t);
                }
            }
        }
    }
}

#[test]
fn jaccard_is_shared_over_union() {
    assert_eq!(jaccard_fixed(2, 2, 3), 66_666);
    assert_eq!(jaccard_fixed(1, 1, 1), SCORE_ONE);
    assert_eq!(jaccard_fixed(1, 2, 2), 33_333);
    assert_eq!(jaccard_fixed(0, 5, 7), 0);
    assert_eq!(jaccard_fixed(0, 0, 0), 0);
}

#[test]
fn similarity_rows_under_both_metrics() {
    let a = vec_of(&[(0, 100), (1, 100)]);
    let b = vec_of(&[(0, 100), (1, 100), (2, 400)]);
    assert_eq!(similarity_rows(&a, &b, Metric::Cosine), 33_333);
    assert_eq!(similarity_rows(&a, &b, Metric::Jaccard), 66_666);
    assert_eq!(similarity_rows(&a, &a, Metric::Cosine), SCORE_ONE);
    assert_eq!(similarity_rows(&a, &a, Metric::Jaccard), SCORE_ONE);
}

#[test]
fn similarity_rows_is_symmetric() {
    let rows = [
        vec_of(&[(0, 100), (1, 250), (5, 3)]),
        vec_of(&[(1, 10), (2, 999), (5, 10_000)]),
        vec_of(&[(5, 1)]),
        vec_of(&[]),
    ];
    for a in &rows {
        for b in &rows {
            for metric in [Metric::Cosine, Metric::Jaccard] {
                assert_eq!(similarity_rows(a, b, metric), similarity_rows(b, a, metric));
            }
        }
    }
}

#[test]
fn similarity_rows_without_shared_items_is_zero() {
    let a = vec_of(&[(0, 100)]);
    let b = vec_of(&[(1, 100)]);
    assert_eq!(similarity_rows(&a, &b, Metric::Cosine), 0);
    assert_eq!(similarity_rows(&a, &b, Metric::Jaccard), 0);
    assert_eq!(similarity_rows(&a, &SparseVec::new(), Metric::Cosine), 0);
}

#[test]
fn similarity_rows_does_not_depend_on_the_weight_unit() {
    let a1 = vec_of(&[(0, 1), (1, 2)]);
    let b1 = vec_of(&[(0, 3), (1, 1)]);
    let a2 = vec_of(&[(0, 1000), (1, 2000)]);
    let b2 = vec_of(&[(0, 3000), (1, 1000)]);
    assert_eq!(
        similarity_rows(&a1, &b1, Metric::Cosine),
        similarity_rows(&a2, &b2, Metric::Cosine)
    );
    // 5 / sqrt(50) = 0.70710678...
    assert_eq!(similarity_rows(&a1, &b1, Metric::Cosine), 70_710);
}

#[test]
fn ranks_before_prefers_score_then_lower_index() {
    assert!(ranks_before(entry(9, 50), entry(1, 40)));
    assert!(!ranks_before(entry(1, 40), entry(9, 50)));
    assert!(ranks_before(entry(1, 40), entry(2, 40)));
    assert!(!ranks_before(entry(2, 40), entry(1, 40)));
    assert!(!ranks_before(entry(3, 40), entry(3, 40)));
}

fn best_of(entries: &[Scored], k: usize) -> Vec<Scored> {
    let mut top = TopK::new(k);
    for e in entries {
        top.offer(*e);
    }
    top.into_ranked()
}

#[test]
fn top_k_returns_entries_in_rank_order() {
    let got = best_of(&[entry(0, 30), entry(1, 50), entry(2, 10), entry(3, 40)], 10);
    assert_eq!(got, vec![entry(1, 50), entry(3, 40), entry(0, 30), entry(2, 10)]);
}

#[test]
fn top_k_drops_the_worst_when_full() {
    let got = best_of(
        &[entry(0, 30), entry(1, 50), entry(2, 10), entry(3, 40), entry(4, 5), entry(5, 60)],
        3,
    );
    assert_eq!(got, vec![entry(5, 60), entry(1, 50), entry(3, 40)]);
}

#[test]
fn top_k_breaks_ties_by_lower_index() {
    let got = best_of(&[entry(7, 20), entry(3, 20), entry(5, 20), entry(1, 20)], 2);
    assert_eq!(got, vec![entry(1, 20), entry(3, 20)]);
}

#[test]
fn top_k_with_zero_capacity_keeps_nothing() {
    let mut top = TopK::new(0);
    top.offer(entry(0, 99));
    assert_eq!(top.len(), 0);
    assert!(top.into_ranked().is_empty());
}

#[test]
fn top_k_does_not_depend_on_arrival_order() {
    let entries = [entry(0, 30), entry(1, 50), entry(2, 30), entry(3, 40), entry(4, 50)];
    let mut reversed = entries;
    reversed.reverse();
    let forward = best_of(&entries, 3);
    assert_eq!(forward, best_of(&reversed, 3));
    assert_eq!(forward, vec![entry(1, 50), entry(4, 50), entry(3, 40)]);
}

#[test]
fn top_k_agrees_with_a_full_sort() {
    // A fixed pseudo-random sequence with many equal scores.
    let mut entries = Vec::new();
    let mut x: u64 = 12345;
    for index in 0..500usize {
        x = x.wrapping_mul(6364136223846793005).wrapping_add(1442695040888963407);
        entries.push(entry(index, (x >> 33) % 40));
    }
    let mut sorted = entries.clone();
    sorted.sort_by(|a, b| b.score.cmp(&a.score).then(a.index.cmp(&b.index)));
    for k in [0usize, 1, 2, 3, 7, 64, 499, 500, 501, 1000] {
        let want: Vec<Scored> = sorted.iter().take(k).cloned().collect();
        assert_eq!(best_of(&entries, k), want, "k = {k}");
    }
}

#[test]
fn self_measure_is_squared_norm_or_size() {
    let a = vec_of(&[(0, 3), (4, 4), (9, 12)]);
    assert_eq!(self_measure(&a, Metric::Cosine), 9 + 16 + 144);
    assert_eq!(self_measure(&a, Metric::Jaccard), 3);
    assert_eq!(self_measure(&SparseVec::new(), Metric::Cosine), 0);
}

#[test]
fn similarity_given_agrees_with_similarity_rows() {
    let a = vec_of(&[(0, 100), (1, 250), (5, 3)]);
    let b = vec_of(&[(1, 10), (2, 999), (5, 10_000)]);
    for metric in [Metric::Cosine, Metric::Jaccard] {
        let ma = self_measure(&a, metric);
        let mb = self_measure(&b, metric);
        assert_eq!(similarity_given(&a, &b, metric, ma, mb), similarity_rows(&a, &b, metric));
    }
    // dot = 2500 + 30000 = 32500; norms 72509 and 100998101; cosine = 0.01200...
    assert_eq!(similarity_rows(&a, &b, Metric::Cosine), 1_200);
    assert_eq!(similarity_rows(&a, &b, Metric::Jaccard), 50_000);
}
