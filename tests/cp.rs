use rusty_machine::linalg::BaseMatrix;
use tcp::cp::{ConfidencePredictor, CpError, NonConformityScorer, CP};
use tcp::pvalue::{exceeds, pvalue, PValue, Significance};
use tcp::region::region_matrix;

/// Sum of the distances from `pool[j]` to its `k` nearest neighbours in the
/// pool, in millionths.
struct Knn {
    k: usize,
}

impl NonConformityScorer<Vec<f64>> for Knn {
    fn score(&self, j: usize, pool: &[Vec<f64>]) -> Option<i64> {
        let mut d: Vec<f64> = pool
            .iter()
            .enumerate()
            .filter(|(i, _)| *i != j)
            .map(|(_, x)| {
                x.iter()
                    .zip(pool[j].iter())
                    .map(|(a, b)| (a - b) * (a - b))
                    .sum::<f64>()
                    .sqrt()
            })
            .collect();
        d.sort_by(|a, b| a.partial_cmp(b).unwrap());
        let s: f64 = d.iter().take(self.k).sum();
        if s.is_finite() {
            Some((s * 1e6).round() as i64)
        } else {
            None
        }
    }
}

/// Every position scores zero.
struct Zero;

impl NonConformityScorer<Vec<f64>> for Zero {
    fn score(&self, _j: usize, _pool: &[Vec<f64>]) -> Option<i64> {
        Some(0)
    }
}

/// The score of a position is the position itself.
struct Position;

impl NonConformityScorer<Vec<f64>> for Position {
    fn score(&self, j: usize, _pool: &[Vec<f64>]) -> Option<i64> {
        Some(j as i64)
    }
}

/// Fails on every pool with more than two objects.
struct Small;

impl NonConformityScorer<Vec<f64>> for Small {
    fn score(&self, _j: usize, pool: &[Vec<f64>]) -> Option<i64> {
        if pool.len() > 2 {
            None
        } else {
            Some(1)
        }
    }
}

fn training() -> (Vec<Vec<f64>>, Vec<usize>) {
    let train_inputs = vec![
        vec![0., 0.],
        vec![1., 0.],
        vec![0., 1.],
        vec![1., 1.],
        vec![2., 2.],
        vec![1., 2.],
    ];
    let train_targets = vec![0, 0, 1, 1, 2, 2];
    (train_inputs, train_targets)
}

#[test]
fn train() {
    let ncm = Knn { k: 2 };
    let mut cp = CP::new(ncm, Some(Significance { num: 1, den: 10 }), false);

    let (train_inputs, train_targets) = training();

    let expected_train_inputs = vec![
        vec![vec![0., 0.], vec![1., 0.]],
        vec![vec![0., 1.], vec![1., 1.]],
        vec![vec![2., 2.], vec![1., 2.]],
    ];

    cp.train(&train_inputs, &train_targets).unwrap();

    assert!(cp.train_inputs().unwrap() == &expected_train_inputs);
}

#[test]
fn train_interleaved_targets_keep_order() {
    let mut cp = CP::new(Zero, None, false);
    let inputs = vec![vec![1.], vec![2.], vec![3.], vec![4.], vec![5.]];
    let targets = vec![1, 0, 1, 1, 0];
    cp.train(&inputs, &targets).unwrap();
    let part = cp.train_inputs().unwrap();
    assert_eq!(part, &vec![vec![vec![2.], vec![5.]], vec![vec![1.], vec![3.], vec![4.]]]);
    let total: usize = part.iter().map(|p| p.len()).sum();
    assert_eq!(total, inputs.len());
}

#[test]
fn train_replaces_previous_state() {
    let mut cp = CP::new(Zero, None, false);
    let (inputs, targets) = training();
    cp.train(&inputs, &targets).unwrap();
    cp.train(&vec![vec![9.]], &vec![0]).unwrap();
    assert_eq!(cp.train_inputs().unwrap(), &vec![vec![vec![9.]]]);
}

#[test]
fn train_empty() {
    let mut cp = CP::new(Zero, None, false);
    cp.train(&vec![], &vec![]).unwrap();
    assert_eq!(cp.train_inputs().unwrap().len(), 0);
    let conf = cp.predict_confidence(&vec![vec![1.]]).unwrap();
    assert_eq!(conf, vec![Vec::<PValue>::new()]);
}

#[test]
fn train_length_mismatch_is_invalid() {
    let mut cp = CP::new(Zero, None, false);
    let r = cp.train(&vec![vec![0.], vec![1.]], &vec![0]);
    assert_eq!(r, Err(CpError::InvalidInput));
    assert!(cp.train_inputs().is_none());
}

#[test]
fn train_sparse_labels_are_invalid() {
    let mut cp = CP::new(Zero, None, false);
    let r = cp.train(&vec![vec![0.], vec![1.]], &vec![0, 2]);
    assert_eq!(r, Err(CpError::InvalidInput));
}

#[test]
fn all_ties_give_one() {
    let mut cp = CP::new(Zero, None, false);
    let (inputs, targets) = training();
    cp.train(&inputs, &targets).unwrap();
    let conf = cp.predict_confidence(&vec![vec![0.5, 0.5], vec![3., 3.]]).unwrap();
    assert_eq!(conf.len(), 2);
    for row in &conf {
        assert_eq!(row.len(), 3);
        for p in row {
            assert_eq!(p.num, p.den);
            assert_eq!(p.num as f64 / p.den as f64, 1.0);
        }
    }
}

#[test]
fn confidence_in_unit_interval_and_pools_restored() {
    let mut cp = CP::new(Knn { k: 1 }, None, false);
    let (inputs, targets) = training();
    cp.train(&inputs, &targets).unwrap();
    let before = cp.train_inputs().unwrap().clone();
    let tests = vec![vec![0.5, 0.], vec![2., 2.], vec![10., -3.]];
    let conf = cp.predict_confidence(&tests).unwrap();
    assert_eq!(conf.len(), 3);
    for row in &conf {
        assert_eq!(row.len(), 3);
        for p in row {
            assert!(p.den == 3 && p.num >= 1 && p.num <= p.den);
        }
    }
    assert_eq!(cp.train_inputs().unwrap(), &before);
}

#[test]
fn confidence_is_idempotent() {
    let mut cp = CP::new(Knn { k: 2 }, None, false);
    let (inputs, targets) = training();
    cp.train(&inputs, &targets).unwrap();
    let tests = vec![vec![0.5, 0.], vec![1.5, 2.]];
    let a = cp.predict_confidence(&tests).unwrap();
    let b = cp.predict_confidence(&tests).unwrap();
    assert_eq!(a, b);
}

#[test]
fn knn_pvalues() {
    let mut cp = CP::new(Knn { k: 1 }, None, false);
    let inputs = vec![vec![0.], vec![1.], vec![10.], vec![11.]];
    let targets = vec![0, 0, 1, 1];
    cp.train(&inputs, &targets).unwrap();
    // Pool {0, 1, 0.5}: scores 0.5, 0.5, 0.5 -> 3/3.
    // Pool {10, 11, 0.5}: scores 1, 1, 9.5 -> 1/3.
    let conf = cp.predict_confidence(&vec![vec![0.5]]).unwrap();
    assert_eq!(conf, vec![vec![PValue { num: 3, den: 3 }, PValue { num: 1, den: 3 }]]);
}

#[test]
fn position_scorer_gives_one_over_pool_size() {
    let mut cp = CP::new(Position, Some(Significance { num: 1, den: 10 }), false);
    let inputs: Vec<Vec<f64>> = (0..9).map(|i| vec![i as f64]).collect();
    let targets = vec![0; 9];
    cp.train(&inputs, &targets).unwrap();
    let conf = cp.predict_confidence(&vec![vec![0.]]).unwrap();
    assert_eq!(conf, vec![vec![PValue { num: 1, den: 10 }]]);
    let region = cp.predict(&vec![vec![0.]]).unwrap();
    assert_eq!(region.rows(), 1);
    assert_eq!(region.cols(), 1);
    assert_eq!(region.data(), &vec![false]);
}

#[test]
fn region_boundary_is_strict() {
    let m = region_matrix(
        &vec![vec![PValue { num: 1, den: 10 }, PValue { num: 2, den: 10 }]],
        2,
        Significance { num: 1, den: 10 },
    );
    assert_eq!(m.rows(), 1);
    assert_eq!(m.cols(), 2);
    assert_eq!(m[[0, 0]], false);
    assert_eq!(m[[0, 1]], true);
}

#[test]
fn region_matrix_layout() {
    let conf = vec![
        vec![PValue { num: 1, den: 2 }, PValue { num: 1, den: 4 }, PValue { num: 1, den: 1 }],
        vec![PValue { num: 0, den: 3 }, PValue { num: 2, den: 3 }, PValue { num: 1, den: 5 }],
    ];
    let m = region_matrix(&conf, 3, Significance { num: 3, den: 10 });
    assert_eq!(m.rows(), 2);
    assert_eq!(m.cols(), 3);
    assert_eq!(m.data(), &vec![true, false, true, false, true, false]);
}

#[test]
fn predict_region() {
    let mut cp = CP::new(Knn { k: 1 }, Some(Significance { num: 1, den: 2 }), false);
    let inputs = vec![vec![0.], vec![1.], vec![10.], vec![11.]];
    let targets = vec![0, 0, 1, 1];
    cp.train(&inputs, &targets).unwrap();
    let m = cp.predict(&vec![vec![0.5], vec![10.5]]).unwrap();
    assert_eq!(m.rows(), 2);
    assert_eq!(m.cols(), 2);
    assert_eq!(m.data(), &vec![true, false, false, true]);
}

#[test]
fn predict_without_epsilon() {
    let mut cp = CP::new(Zero, None, false);
    let (inputs, targets) = training();
    cp.train(&inputs, &targets).unwrap();
    assert_eq!(cp.predict(&vec![vec![0., 0.]]).err(), Some(CpError::EpsilonNotSet));
    cp.set_epsilon(Significance { num: 1, den: 10 });
    assert!(cp.predict(&vec![vec![0., 0.]]).is_ok());
}

#[test]
fn predict_confidence_without_training() {
    let mut cp = CP::new(Zero, Some(Significance { num: 1, den: 10 }), false);
    assert_eq!(cp.predict_confidence(&vec![vec![0., 0.]]), Err(CpError::NotTrained));
    assert_eq!(cp.predict(&vec![vec![0., 0.]]).err(), Some(CpError::NotTrained));
}

#[test]
fn smoothing_is_not_implemented() {
    let mut cp = CP::new(Zero, Some(Significance { num: 1, den: 10 }), true);
    let (inputs, targets) = training();
    cp.train(&inputs, &targets).unwrap();
    assert_eq!(cp.predict_confidence(&vec![vec![0., 0.]]), Err(CpError::NotImplemented));
    assert_eq!(cp.predict(&vec![vec![0., 0.]]).err(), Some(CpError::NotImplemented));
}

#[test]
fn scoring_failure_is_reported_and_pools_restored() {
    let mut cp = CP::new(Small, Some(Significance { num: 1, den: 10 }), false);
    let (inputs, targets) = training();
    cp.train(&inputs, &targets).unwrap();
    let before = cp.train_inputs().unwrap().clone();
    assert_eq!(cp.predict_confidence(&vec![vec![0., 0.]]), Err(CpError::ScoringError));
    assert_eq!(cp.predict(&vec![vec![0., 0.]]).err(), Some(CpError::ScoringError));
    assert_eq!(cp.train_inputs().unwrap(), &before);
}

#[test]
fn pvalue_counts_scores_at_least_the_last() {
    assert_eq!(pvalue(&vec![3, 1, 2, 2]), PValue { num: 3, den: 4 });
    assert_eq!(pvalue(&vec![5]), PValue { num: 1, den: 1 });
    assert_eq!(pvalue(&vec![-1, -7, 4]), PValue { num: 1, den: 3 });
    assert_eq!(pvalue(&vec![9, 9, 9]), PValue { num: 3, den: 3 });
}

#[test]
fn exceeds_is_strict() {
    let eps = Significance { num: 1, den: 10 };
    assert!(!exceeds(PValue { num: 1, den: 10 }, eps));
    assert!(!exceeds(PValue { num: 2, den: 20 }, eps));
    assert!(exceeds(PValue { num: 3, den: 20 }, eps));
    assert!(!exceeds(PValue { num: 0, den: 5 }, Significance { num: 0, den: 1 }));
    assert!(exceeds(PValue { num: 1, den: 5 }, Significance { num: 0, den: 1 }));
}

#[test]
fn predictor_trait_delegates() {
    let mut cp = CP::new(Position, None, false);
    let inputs: Vec<Vec<f64>> = (0..4).map(|i| vec![i as f64]).collect();
    ConfidencePredictor::train(&mut cp, &inputs, &vec![0, 1, 0, 1]).unwrap();
    assert_eq!(
        ConfidencePredictor::predict(&mut cp, &vec![vec![0.]]).err(),
        Some(CpError::EpsilonNotSet)
    );
    ConfidencePredictor::set_epsilon(&mut cp, Significance { num: 1, den: 4 });
    let conf = ConfidencePredictor::predict_confidence(&mut cp, &vec![vec![0.]]).unwrap();
    assert_eq!(conf, vec![vec![PValue { num: 1, den: 3 }, PValue { num: 1, den: 3 }]]);
    let m = ConfidencePredictor::predict(&mut cp, &vec![vec![0.]]).unwrap();
    assert_eq!(m.data(), &vec![true, true]);
}
