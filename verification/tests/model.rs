use recfarm::config::{Config, DuplicatePolicy, Metric, SCORE_ONE};
use recfarm::error::RecError;
use recfarm::neighbors::{build_all, top_k_neighbors};
use recfarm::predict::predict_from;
use recfarm::ranking::Scored;
use recfarm::recommend::recommend_from;
use recfarm::store::{Interaction, SparseInteractionStore};
use recfarm::user_cf::{Recommendation, UserCF};

const A: u64 = 1001;
const B: u64 = 1002;
const C: u64 = 1003;

/// One unit of weight: the fixed-point value used for a weight of 1.0.
const ONE: i64 = 100;

fn rec(user: u64, item: u64, weight: i64) -> Interaction {
    Interaction { user, item, weight }
}

fn config(k: usize, metric: Metric) -> Config {
    Config { k, min_similarity: 0, metric, duplicate_policy: DuplicatePolicy::Overwrite }
}

fn chain() -> Vec<Interaction> {
    vec![rec(1, A, ONE), rec(2, A, ONE), rec(2, B, ONE), rec(3, B, ONE)]
}

fn fitted(k: usize, metric: Metric, data: &Vec<Interaction>) -> UserCF {
    let mut m = UserCF::new(config(k, metric), 100, 100);
    m.add_interactions(data).unwrap();
    m.fit();
    m
}

fn lists(m: &UserCF, users: &[u64]) -> Vec<Vec<Scored>> {
    users.iter().map(|u| m.neighbors(*u).unwrap().clone()).collect()
}

fn entry(index: usize, score: u64) -> Scored {
    Scored { index, score }
}

#[test]
fn chain_of_three_users_has_the_middle_one_as_only_neighbour() {
    let m = fitted(2, Metric::Cosine, &chain());
    // Users 1, 2, 3 have indices 0, 1, 2.
    assert_eq!(m.neighbors(1).unwrap(), &vec![entry(1, 70_710)]);
    assert_eq!(m.neighbors(3).unwrap(), &vec![entry(1, 70_710)]);
    assert_eq!(m.neighbors(2).unwrap(), &vec![entry(0, 70_710), entry(2, 70_710)]);
    assert_eq!(m.similarity(1, 3), Ok(0));
    assert_eq!(m.similarity(1, 2), Ok(70_710));
    assert_eq!(m.similarity(2, 3), Ok(70_710));
    assert_eq!(m.store().co_rated_items(1, 2), Ok(vec![0]));
    assert_eq!(m.store().co_rated_items(2, 3), Ok(vec![1]));
    assert_eq!(m.store().co_rated_items(1, 3), Ok(vec![]));
}

#[test]
fn predict_without_neighbour_data_fails() {
    let m = fitted(2, Metric::Cosine, &vec![rec(1, A, ONE), rec(2, A, ONE), rec(3, B, ONE)]);
    assert_eq!(m.neighbors(1).unwrap(), &vec![entry(1, SCORE_ONE)]);
    assert_eq!(m.predict(1, B), Err(RecError::NoNeighborData));
    assert_eq!(m.predict(3, A), Err(RecError::NoNeighborData));
    assert_eq!(m.predict(1, A), Ok(ONE as u64));
}

#[test]
fn recommend_excludes_seen_items() {
    let m = fitted(2, Metric::Cosine, &chain());
    let got = m.recommend(1, 1, true).unwrap();
    assert_eq!(got, vec![Recommendation { item: B, index: 1, score: ONE as u64 }]);
    assert!(got.iter().all(|r| r.item != A));
    for n in 0..4 {
        assert!(m.recommend(1, n, true).unwrap().iter().all(|r| r.item != A));
    }
}

#[test]
fn recommend_with_seen_items_breaks_ties_by_lower_item_index() {
    let m = fitted(2, Metric::Cosine, &chain());
    assert_eq!(
        m.recommend(1, 5, false).unwrap(),
        vec![
            Recommendation { item: A, index: 0, score: ONE as u64 },
            Recommendation { item: B, index: 1, score: ONE as u64 },
        ]
    );
    assert_eq!(
        m.recommend(1, 1, false).unwrap(),
        vec![Recommendation { item: A, index: 0, score: ONE as u64 }]
    );
    assert_eq!(m.recommend(1, 0, false).unwrap(), vec![]);
}

#[test]
fn new_shared_item_raises_similarity_after_refresh() {
    let mut m = fitted(2, Metric::Cosine, &chain());
    let before = m.similarity(1, 2).unwrap();
    assert_eq!(before, 70_710);
    m.add_interactions(&vec![rec(1, B, ONE)]).unwrap();
    assert_eq!(m.is_dirty(1), Ok(true));
    assert_eq!(m.is_dirty(2), Ok(true));
    assert_eq!(m.is_dirty(3), Ok(true));
    // Until the refresh the stored list is the old one.
    assert_eq!(m.neighbors(1).unwrap(), &vec![entry(1, 70_710)]);
    m.refresh_dirty();
    let after = m.similarity(1, 2).unwrap();
    assert_eq!(after, SCORE_ONE);
    assert!(after >= before);
    assert_eq!(m.neighbors(1).unwrap(), &vec![entry(1, SCORE_ONE), entry(2, 70_710)]);
    assert_eq!(m.neighbors(3).unwrap(), &vec![entry(0, 70_710), entry(1, 70_710)]);
    assert_eq!(m.is_dirty(1), Ok(false));
}

#[test]
fn predict_is_the_similarity_weighted_mean() {
    let data = vec![
        rec(1, A, 100),
        rec(1, B, 100),
        rec(2, A, 100),
        rec(2, B, 100),
        rec(2, C, 400),
        rec(3, A, 100),
        rec(3, C, 200),
    ];
    let m = fitted(5, Metric::Cosine, &data);
    assert_eq!(m.neighbors(1).unwrap(), &vec![entry(1, 33_333), entry(2, 31_622)]);
    // (33333 * 400 + 31622 * 200) / (33333 + 31622) = 302.6...
    assert_eq!(m.predict(1, C), Ok(302));
    // Only user 2 has rated B.
    assert_eq!(m.predict(1, B), Ok(100));
    assert_eq!(m.recommend(1, 3, true).unwrap(), vec![Recommendation { item: C, index: 2, score: 302 }]);
}

#[test]
fn predict_under_jaccard() {
    let data = vec![
        rec(1, A, 100),
        rec(1, B, 100),
        rec(2, A, 100),
        rec(2, B, 100),
        rec(2, C, 400),
        rec(3, A, 100),
        rec(3, C, 200),
    ];
    let m = fitted(5, Metric::Jaccard, &data);
    // |{A,B} & {A,B,C}| / |{A,B,C}| = 2/3; |{A,B} & {A,C}| / |{A,B,C}| = 1/3.
    assert_eq!(m.neighbors(1).unwrap(), &vec![entry(1, 66_666), entry(2, 33_333)]);
    // (66666 * 400 + 33333 * 200) / 99999 = 333.3...
    assert_eq!(m.predict(1, C), Ok(333));
}

#[test]
fn queries_before_fit_fail_with_model_not_fit() {
    let mut m = UserCF::new(config(2, Metric::Cosine), 100, 100);
    m.add_interactions(&chain()).unwrap();
    assert!(!m.is_fit());
    assert_eq!(m.predict(1, A), Err(RecError::ModelNotFit));
    assert_eq!(m.predict(99, 99), Err(RecError::ModelNotFit));
    assert_eq!(m.recommend(1, 3, true), Err(RecError::ModelNotFit));
    assert!(matches!(m.neighbors(1), Err(RecError::ModelNotFit)));
    assert_eq!(m.is_dirty(1), Err(RecError::ModelNotFit));
    // Similarity reads the store only.
    assert_eq!(m.similarity(1, 2), Ok(70_710));
    m.refresh_dirty();
    assert!(!m.is_fit());
    m.fit();
    assert!(m.is_fit());
    assert_eq!(m.predict(1, A), Ok(ONE as u64));
}

#[test]
fn queries_for_unknown_identifiers_fail() {
    let m = fitted(2, Metric::Cosine, &chain());
    assert_eq!(m.predict(9, A), Err(RecError::UnknownUser));
    assert_eq!(m.predict(1, C), Err(RecError::UnknownItem));
    assert_eq!(m.predict(9, C), Err(RecError::UnknownUser));
    assert_eq!(m.recommend(9, 1, true), Err(RecError::UnknownUser));
    assert_eq!(m.similarity(1, 9), Err(RecError::UnknownUser));
    assert_eq!(m.similarity(9, 1), Err(RecError::UnknownUser));
    assert!(matches!(m.neighbors(9), Err(RecError::UnknownUser)));
}

#[test]
fn batch_with_invalid_weight_changes_nothing() {
    let mut m = fitted(2, Metric::Cosine, &chain());
    let before = lists(&m, &[1, 2, 3]);
    let bad = vec![rec(4, C, ONE), rec(1, B, -1), rec(5, C, ONE)];
    assert_eq!(m.add_interactions(&bad), Err(RecError::InvalidWeight));
    assert_eq!(m.store().n_users(), 3);
    assert_eq!(m.store().n_items(), 2);
    assert_eq!(m.store().user_index(4), Err(RecError::UnknownUser));
    assert_eq!(m.store().weight(1, B), Ok(None));
    assert_eq!(lists(&m, &[1, 2, 3]), before);
    assert_eq!(m.is_dirty(1), Ok(false));
}

#[test]
fn batch_exceeding_capacity_changes_nothing() {
    let mut m = UserCF::new(config(2, Metric::Cosine), 3, 2);
    m.add_interactions(&chain()).unwrap();
    m.fit();
    // The fourth user does not fit; the first interaction alone would.
    let bad = vec![rec(1, B, ONE), rec(4, A, ONE)];
    assert_eq!(m.add_interactions(&bad), Err(RecError::CapacityExceeded));
    assert_eq!(m.store().weight(1, B), Ok(None));
    assert_eq!(m.store().n_users(), 3);
    // A third item does not fit either.
    assert_eq!(m.add_interactions(&vec![rec(1, C, ONE)]), Err(RecError::CapacityExceeded));
    assert_eq!(m.store().n_items(), 2);
    // Repeating a new identifier within a batch counts it once.
    let mut roomy = UserCF::new(config(2, Metric::Cosine), 2, 2);
    let twice = vec![rec(7, A, ONE), rec(7, B, ONE), rec(8, A, ONE), rec(8, B, ONE), rec(7, A, 5)];
    assert_eq!(roomy.add_interactions(&twice), Ok(()));
    assert_eq!(roomy.store().n_users(), 2);
    assert_eq!(roomy.store().weight(7, A), Ok(Some(5)));
}

#[test]
fn batch_reports_the_first_rejection() {
    let mut m = UserCF::new(config(2, Metric::Cosine), 1, 10);
    let cap_first = vec![rec(1, A, ONE), rec(2, A, ONE), rec(1, B, -1)];
    assert_eq!(m.add_interactions(&cap_first), Err(RecError::CapacityExceeded));
    let weight_first = vec![rec(1, A, ONE), rec(1, B, -1), rec(2, A, ONE)];
    assert_eq!(m.add_interactions(&weight_first), Err(RecError::InvalidWeight));
    assert_eq!(m.store().n_users(), 0);
    assert_eq!(m.add_interactions(&vec![]), Ok(()));
}

#[test]
fn similarity_is_symmetric_in_a_fitted_model() {
    let data = vec![
        rec(1, A, 100),
        rec(1, B, 300),
        rec(2, A, 200),
        rec(2, C, 100),
        rec(3, B, 50),
        rec(3, C, 75),
        rec(4, A, 1),
    ];
    for metric in [Metric::Cosine, Metric::Jaccard] {
        let m = fitted(3, metric, &data);
        for a in 1..=4u64 {
            for b in 1..=4u64 {
                assert_eq!(m.similarity(a, b), m.similarity(b, a));
            }
        }
    }
}

#[test]
fn neighbour_lists_respect_k_and_the_similarity_floor() {
    let mut data = Vec::new();
    for u in 1..=8u64 {
        data.push(rec(u, A, 100));
        data.push(rec(u, 2000 + u, (u as i64) * 100));
    }
    let cfg = Config {
        k: 3,
        min_similarity: 30_000,
        metric: Metric::Cosine,
        duplicate_policy: DuplicatePolicy::Overwrite,
    };
    let mut m = UserCF::new(cfg, 100, 100);
    m.add_interactions(&data).unwrap();
    m.fit();
    for u in 1..=8u64 {
        let list = m.neighbors(u).unwrap();
        assert!(list.len() <= 3);
        for e in list {
            assert!(e.score >= 30_000);
            assert_eq!(Ok(e.score), m.similarity(u, m.store().user_id(e.index)));
        }
        for w in list.windows(2) {
            assert!(w[0].score > w[1].score || (w[0].score == w[1].score && w[0].index < w[1].index));
        }
    }
    // cos(user 1, user 2) = 1 / (sqrt(2) * sqrt(5)) = 0.3162..., the only one above the floor.
    assert_eq!(m.neighbors(1).unwrap(), &vec![entry(1, 31_622)]);
    assert_eq!(m.neighbors(8).unwrap(), &Vec::<Scored>::new());
}

#[test]
fn zero_k_gives_empty_lists() {
    let m = fitted(0, Metric::Cosine, &chain());
    assert_eq!(m.neighbors(2).unwrap(), &Vec::<Scored>::new());
    assert_eq!(m.predict(2, A), Err(RecError::NoNeighborData));
}

#[test]
fn two_builds_from_the_same_interactions_agree() {
    let mut data = Vec::new();
    // Users 2..=6 all have the same row as user 1: five equal scores.
    for u in 1..=6u64 {
        data.push(rec(u, A, 100));
        data.push(rec(u, B, 100));
    }
    data.push(rec(7, B, 100));
    let m1 = fitted(3, Metric::Cosine, &data);
    let m2 = fitted(3, Metric::Cosine, &data);
    let users: Vec<u64> = (1..=7).collect();
    assert_eq!(lists(&m1, &users), lists(&m2, &users));
    // Equal scores come out by ascending index.
    assert_eq!(
        m1.neighbors(1).unwrap(),
        &vec![entry(1, SCORE_ONE), entry(2, SCORE_ONE), entry(3, SCORE_ONE)]
    );
    assert_eq!(
        m1.neighbors(4).unwrap(),
        &vec![entry(0, SCORE_ONE), entry(1, SCORE_ONE), entry(2, SCORE_ONE)]
    );
}

fn sample() -> (Vec<Interaction>, Vec<Interaction>) {
    let mut original = Vec::new();
    for u in 1..=12u64 {
        for i in 0..4u64 {
            let item = 3000 + (u * 7 + i * 5) % 11;
            original.push(rec(u, item, ((u + i) % 5 + 1) as i64 * 100));
        }
    }
    // Two users that share nothing with the rest.
    original.push(rec(50, 9000, 100));
    original.push(rec(51, 9000, 200));
    let batch = vec![
        rec(3, 3001, 500),
        rec(13, 3002, 100),
        rec(13, 3999, 100),
        rec(5, 3999, 300),
        rec(3, 3001, 100),
    ];
    (original, batch)
}

#[test]
fn incremental_update_equals_full_rebuild() {
    let (original, batch) = sample();
    for metric in [Metric::Cosine, Metric::Jaccard] {
        let mut inc = fitted(4, metric, &original);
        let before_50 = inc.neighbors(50).unwrap().clone();
        inc.add_interactions(&batch).unwrap();
        assert_eq!(inc.is_dirty(50), Ok(false));
        assert_eq!(inc.is_dirty(51), Ok(false));
        assert_eq!(inc.is_dirty(13), Ok(true));
        assert_eq!(inc.is_dirty(3), Ok(true));
        inc.refresh_dirty();

        let mut combined = original.clone();
        combined.extend(batch.iter().cloned());
        let full = fitted(4, metric, &combined);

        let mut users: Vec<u64> = (1..=13).collect();
        users.push(50);
        users.push(51);
        assert_eq!(lists(&inc, &users), lists(&full, &users));
        assert_eq!(inc.neighbors(50).unwrap(), &before_50);
        for u in &users {
            assert_eq!(inc.is_dirty(*u), Ok(false));
            for i in 3000..3011u64 {
                assert_eq!(inc.predict(*u, i), full.predict(*u, i));
            }
            assert_eq!(inc.recommend(*u, 5, true), full.recommend(*u, 5, true));
        }
    }
}

#[test]
fn refresh_twice_changes_nothing() {
    let (original, batch) = sample();
    let mut m = fitted(4, Metric::Cosine, &original);
    m.add_interactions(&batch).unwrap();
    m.refresh_dirty();
    let mut users: Vec<u64> = (1..=13).collect();
    users.push(50);
    let once = lists(&m, &users);
    m.refresh_dirty();
    assert_eq!(lists(&m, &users), once);
    for u in &users {
        assert_eq!(m.is_dirty(*u), Ok(false));
    }
}

#[test]
fn refit_after_updates_gives_the_same_lists() {
    let (original, batch) = sample();
    let mut m = fitted(4, Metric::Cosine, &original);
    m.add_interactions(&batch).unwrap();
    m.refresh_dirty();
    let users: Vec<u64> = (1..=13).collect();
    let refreshed = lists(&m, &users);
    m.fit();
    assert_eq!(lists(&m, &users), refreshed);
}

#[test]
fn accumulate_policy_reaches_the_model() {
    let cfg = Config {
        k: 2,
        min_similarity: 0,
        metric: Metric::Cosine,
        duplicate_policy: DuplicatePolicy::Accumulate,
    };
    let mut m = UserCF::new(cfg, 10, 10);
    m.add_interactions(&vec![rec(1, A, 100), rec(1, A, 50), rec(2, A, 10)]).unwrap();
    assert_eq!(m.store().weight(1, A), Ok(Some(150)));
    assert_eq!(m.config(), cfg);
    m.fit();
    assert_eq!(m.predict(2, A), Ok(150));
}

#[test]
fn model_over_an_existing_store() {
    let mut s = SparseInteractionStore::new(10, 10, DuplicatePolicy::Accumulate);
    s.insert(1, A, 100).unwrap();
    s.insert(2, A, 100).unwrap();
    let mut m = UserCF::from_store(s, 1, 0, Metric::Jaccard);
    assert_eq!(m.config().duplicate_policy, DuplicatePolicy::Accumulate);
    assert_eq!(m.config().metric, Metric::Jaccard);
    assert!(!m.is_fit());
    m.fit();
    assert_eq!(m.neighbors(1).unwrap(), &vec![entry(1, SCORE_ONE)]);
}

#[test]
fn default_configuration() {
    let c = Config::default();
    assert_eq!(c.k, 20);
    assert_eq!(c.min_similarity, 0);
    assert_eq!(c.metric, Metric::Cosine);
    assert_eq!(c.duplicate_policy, DuplicatePolicy::Overwrite);
    assert_eq!(Config::with_k(7).k, 7);
}

#[test]
fn top_k_neighbors_and_build_all_on_a_store() {
    let mut s = SparseInteractionStore::new(10, 10, DuplicatePolicy::Overwrite);
    for r in chain() {
        s.insert(r.user, r.item, r.weight).unwrap();
    }
    assert_eq!(
        top_k_neighbors(&s, 1, 1, 0, Metric::Cosine),
        vec![entry(0, 70_710)]
    );
    assert_eq!(
        top_k_neighbors(&s, 1, 2, 70_711, Metric::Cosine),
        Vec::<Scored>::new()
    );
    assert_eq!(
        build_all(&s, 2, 0, Metric::Jaccard),
        vec![
            vec![entry(1, 50_000)],
            vec![entry(0, 50_000), entry(2, 50_000)],
            vec![entry(1, 50_000)],
        ]
    );
}

#[test]
fn predict_from_and_recommend_from_on_a_store() {
    let mut s = SparseInteractionStore::new(10, 10, DuplicatePolicy::Overwrite);
    for (u, i, w) in [(1u64, A, 100i64), (2, A, 300), (2, B, 500), (3, B, 100), (3, C, 700)] {
        s.insert(u, i, w).unwrap();
    }
    let nbrs = vec![entry(1, 60_000), entry(2, 20_000)];
    assert_eq!(predict_from(&s, &nbrs, 0), Some(300));
    // (60000 * 500 + 20000 * 100) / 80000 = 400
    assert_eq!(predict_from(&s, &nbrs, 1), Some(400));
    assert_eq!(predict_from(&s, &nbrs, 2), Some(700));
    assert_eq!(predict_from(&s, &Vec::new(), 0), None);
    assert_eq!(
        recommend_from(&s, &nbrs, 0, 2, true),
        vec![entry(2, 700), entry(1, 400)]
    );
    assert_eq!(
        recommend_from(&s, &nbrs, 0, 5, false),
        vec![entry(2, 700), entry(1, 400), entry(0, 300)]
    );
}
