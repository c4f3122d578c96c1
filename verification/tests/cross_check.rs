use recfarm::config::{Config, DuplicatePolicy, Metric, SCORE_ONE};
use recfarm::ranking::Scored;
use recfarm::store::Interaction;
use recfarm::user_cf::UserCF;

struct Rng(u64);

impl Rng {
    fn next(&mut self, bound: u64) -> u64 {
        self.0 = self.0.wrapping_mul(6364136223846793005).wrapping_add(1442695040888963407);
        (self.0 >> 33) % bound
    }
}

fn random_data(seed: u64, users: u64, items: u64, count: usize) -> Vec<Interaction> {
    let mut rng = Rng(seed);
    (0..count)
        .map(|_| Interaction {
            user: 100 + rng.next(users),
            item: 900 + rng.next(items),
            weight: 1 + rng.next(500) as i64,
        })
        .collect()
}

fn model(metric: Metric, k: usize, min_similarity: u64, data: &Vec<Interaction>) -> UserCF {
    let cfg = Config { k, min_similarity, metric, duplicate_policy: DuplicatePolicy::Overwrite };
    let mut m = UserCF::new(cfg, 1000, 1000);
    m.add_interactions(data).unwrap();
    m.fit();
    m
}

/// The weights of a user by item index, read back from the store.
fn dense_row(m: &UserCF, user: usize) -> Vec<f64> {
    let s = m.store();
    let row = s.row_at(user);
    let mut out = vec![0.0; s.n_items()];
    for p in 0..row.len() {
        out[row.key_at(p)] = row.val_at(p) as f64;
    }
    out
}

fn float_similarity(metric: Metric, a: &Vec<f64>, b: &Vec<f64>) -> f64 {
    match metric {
        Metric::Cosine => {
            let dot: f64 = a.iter().zip(b).map(|(x, y)| x * y).sum();
            let na: f64 = a.iter().map(|x| x * x).sum();
            let nb: f64 = b.iter().map(|x| x * x).sum();
            if dot == 0.0 {
                0.0
            } else {
                dot / (na * nb).sqrt()
            }
        }
        Metric::Jaccard => {
            let both = a.iter().zip(b).filter(|(x, y)| **x > 0.0 && **y > 0.0).count() as f64;
            let either = a.iter().zip(b).filter(|(x, y)| **x > 0.0 || **y > 0.0).count() as f64;
            if both == 0.0 {
                0.0
            } else {
                both / either
            }
        }
    }
}

#[test]
fn similarities_match_floating_point_up_to_rounding() {
    let data = random_data(7, 30, 25, 300);
    for metric in [Metric::Cosine, Metric::Jaccard] {
        let m = model(metric, 5, 0, &data);
        let n = m.store().n_users();
        let rows: Vec<Vec<f64>> = (0..n).map(|u| dense_row(&m, u)).collect();
        for a in 0..n {
            for b in 0..n {
                let got = m.similarity(m.store().user_id(a), m.store().user_id(b)).unwrap();
                let want = float_similarity(metric, &rows[a], &rows[b]) * SCORE_ONE as f64;
                assert!(got <= SCORE_ONE);
                assert!((got as f64 - want).abs() <= 1.0 + 1e-6, "{a} {b}: {got} vs {want}");
            }
        }
    }
}

#[test]
fn neighbour_lists_match_a_full_sort_of_all_pairs() {
    for (seed, k, floor) in [(1u64, 3usize, 0u64), (2, 1, 20_000), (3, 10, 50_000), (4, 100, 1)] {
        let data = random_data(seed, 40, 30, 250);
        for metric in [Metric::Cosine, Metric::Jaccard] {
            let m = model(metric, k, floor, &data);
            let s = m.store();
            let n = s.n_users();
            for u in 0..n {
                let mut all: Vec<Scored> = (0..n)
                    .filter(|v| *v != u)
                    .map(|v| Scored {
                        index: v,
                        score: m.similarity(s.user_id(u), s.user_id(v)).unwrap(),
                    })
                    .filter(|e| e.score > 0 && e.score >= floor)
                    .collect();
                all.sort_by(|a, b| b.score.cmp(&a.score).then(a.index.cmp(&b.index)));
                all.truncate(k);
                assert_eq!(m.neighbors(s.user_id(u)).unwrap(), &all, "user {u}");
            }
        }
    }
}

#[test]
fn predictions_match_the_weighted_mean_of_the_neighbours() {
    let data = random_data(11, 25, 20, 200);
    let m = model(Metric::Cosine, 4, 0, &data);
    let s = m.store();
    for u in 0..s.n_users() {
        let nbrs = m.neighbors(s.user_id(u)).unwrap();
        for i in 0..s.n_items() {
            let mut num: u128 = 0;
            let mut den: u128 = 0;
            for e in nbrs {
                if let Some(w) = s.row_at(e.index).get(i) {
                    num += e.score as u128 * w as u128;
                    den += e.score as u128;
                }
            }
            let got = m.predict(s.user_id(u), s.item_id(i));
            if den == 0 {
                assert!(got.is_err());
            } else {
                assert_eq!(got, Ok((num / den) as u64));
            }
        }
    }
}

#[test]
fn recommendations_match_a_full_sort_of_all_items() {
    let data = random_data(13, 25, 20, 200);
    let m = model(Metric::Cosine, 4, 0, &data);
    let s = m.store();
    for u in 0..s.n_users() {
        for exclude_seen in [true, false] {
            let mut all: Vec<(u64, usize)> = (0..s.n_items())
                .filter(|i| !(exclude_seen && s.row_at(u).contains(*i)))
                .filter_map(|i| m.predict(s.user_id(u), s.item_id(i)).ok().map(|p| (p, i)))
                .collect();
            all.sort_by(|a, b| b.0.cmp(&a.0).then(a.1.cmp(&b.1)));
            for n in [0usize, 1, 3, 100] {
                let got: Vec<(u64, usize)> = m
                    .recommend(s.user_id(u), n, exclude_seen)
                    .unwrap()
                    .iter()
                    .map(|r| {
                        assert_eq!(r.item, s.item_id(r.index));
                        (r.score, r.index)
                    })
                    .collect();
                let want: Vec<(u64, usize)> = all.iter().take(n).cloned().collect();
                assert_eq!(got, want);
            }
        }
    }
}

#[test]
fn many_small_batches_equal_one_rebuild() {
    let data = random_data(17, 40, 30, 400);
    for metric in [Metric::Cosine, Metric::Jaccard] {
        let cfg = Config {
            k: 5,
            min_similarity: 10_000,
            metric,
            duplicate_policy: DuplicatePolicy::Accumulate,
        };
        let mut inc = UserCF::new(cfg, 1000, 1000);
        inc.fit();
        for chunk in data.chunks(7) {
            inc.add_interactions(&chunk.to_vec()).unwrap();
            inc.refresh_dirty();
        }
        let mut full = UserCF::new(cfg, 1000, 1000);
        full.add_interactions(&data).unwrap();
        full.fit();
        assert_eq!(inc.store().n_users(), full.store().n_users());
        for u in 0..full.store().n_users() {
            let id = full.store().user_id(u);
            assert_eq!(inc.store().user_id(u), id);
            assert_eq!(inc.neighbors(id).unwrap(), full.neighbors(id).unwrap());
        }
    }
}
