use ccan::bayes::{co_change, BayesianModel};
use ccan::bettergit::{BetterCommit, BetterDiff};
use ccan::changes::{Changes, GroupedBetterDiffs};
use ccan::cochanges::{filter_rows, CoChanges, CoChangesOpt};
use ccan::matrix::NamedMatrix;
use ccan::model::ModelTypes;
use ccan::naive::NaiveModel;
use ccan::predict::{window_bounds, PredictionOpt, RippleChangeProbabilities};
use chrono::{Days, Utc};
use std::ops::Sub;

const DAY: i64 = 86400;

fn commit(sha: &str, author: &str, when: i64) -> BetterCommit {
    BetterCommit { sha1: String::from(sha), author: String::from(author), when }
}

fn diff(parent: &BetterCommit, child: &BetterCommit, files: &[&str]) -> (i64, BetterDiff) {
    let mut d = BetterDiff::new(
        commit(&parent.sha1, &parent.author, parent.when),
        commit(&child.sha1, &child.author, child.when),
    );
    for f in files {
        d.old_files.push(String::from(*f));
        d.new_files.push(String::from(*f));
    }
    (child.when, d)
}

fn sqrt(x: f64) -> f64 {
    x.sqrt()
}

/// Three files, two bins one day apart: `t1 -> {A, B, C}`, `t2 -> {A, C}`.
fn scenario_a() -> Changes {
    let t1 = 1_700_000_000 - 3 * DAY;
    let c0 = commit("c0", "x", t1 - DAY);
    let c1 = commit("c1", "x", t1);
    let c2 = commit("c2", "x", t1 + DAY);
    let diffs: GroupedBetterDiffs = vec![diff(&c1, &c2, &["C", "A"]), diff(&c0, &c1, &["B", "A", "C"])];
    Changes::from_diffs(&diffs)
}

fn opts(algorithm: ModelTypes, freq_min: u32) -> CoChangesOpt {
    CoChangesOpt { changes_min: 0, freq_min, algorithm }
}

fn cells(m: &NamedMatrix<usize, usize, f64>) -> Vec<Vec<f64>> {
    let mut r = Vec::new();
    for i in 0..m.row_names.len() {
        let mut row = Vec::new();
        for j in 0..m.col_names.len() {
            row.push(m.get(i, j));
        }
        r.push(row);
    }
    r
}

const PHI_A: [[f64; 3]; 3] = [
    [0.0, 1.7071067811865475, 2.7071067811865475],
    [1.0, 0.0, 1.0],
    [2.7071067811865475, 1.7071067811865475, 0.0],
];

const PI_A: [[f64; 3]; 3] = [
    [0.0, 0.5, 0.7302478566101821],
    [0.26975214338981796, 0.0, 0.26975214338981796],
    [0.7302478566101821, 0.5, 0.0],
];

// The frequencies and probabilities below are those of the coefficient as
// defined: for each bin i where the impacted file changed, the bins j <= i
// where the changed file changed exactly once. The values listed for this
// scenario elsewhere (3.7071... and 2.0 where these have 2.7071... and 1.0)
// would come from summing over every bin j instead.
#[test]
fn test_changes_calc() {
    let c1 = commit("sha_abc1", "author1", Utc::now().sub(Days::new(3)).timestamp());
    let c2 = commit("sha_abc2", "author2", Utc::now().sub(Days::new(2)).timestamp());
    let c3 = commit("sha_abc3", "author3", Utc::now().sub(Days::new(1)).timestamp());
    let diffs: GroupedBetterDiffs = vec![
        diff(&c1, &c2, &["my/file.txt", "my/file2.txt", "my/file3.txt"]),
        diff(&c2, &c3, &["my/file.txt", "my/file3.txt"]),
    ];
    let changes = Changes::from_diffs(&diffs);
    let expected = vec![vec![1u32, 1], vec![1, 0], vec![1, 1]];
    let mut actual = Vec::new();
    for i in 0..3 {
        actual.push(vec![changes.freqs.get(i, 0), changes.freqs.get(i, 1)]);
    }
    assert_eq!(expected, actual);
    let cc = CoChanges::from_changes(&changes, &opts(ModelTypes::Naive, 0), sqrt);
    let expected: Vec<Vec<f64>> = PHI_A.iter().map(|r| r.to_vec()).collect();
    assert_eq!(expected, cells(&cc.freqs));
    let expected: Vec<Vec<f64>> = PI_A.iter().map(|r| r.to_vec()).collect();
    assert_eq!(expected, cells(&cc.probs));
}

#[test]
fn scenario_a_changes_matrix() {
    let changes = scenario_a();
    assert_eq!(vec!["A", "B", "C"], changes.files);
    assert_eq!(vec![0usize, 1, 2], changes.freqs.row_names);
    let t1 = 1_700_000_000 - 3 * DAY;
    assert_eq!(vec![t1, t1 + DAY], changes.freqs.col_names);
    assert_eq!(vec![2u32, 1, 2], changes.c_freq);
    assert_eq!(Some("files".to_string()), changes.freqs.row_dimname);
    assert_eq!(Some("dates".to_string()), changes.freqs.col_dimname);
    assert_eq!(1, changes.freqs.get(1, 0));
    assert_eq!(0, changes.freqs.get(1, 1));
}

#[test]
fn scenario_a_naive() {
    let changes = scenario_a();
    let cc = CoChanges::from_changes(&changes, &opts(ModelTypes::Naive, 0), sqrt);
    let expected: Vec<Vec<f64>> = PHI_A.iter().map(|r| r.to_vec()).collect();
    assert_eq!(expected, cells(&cc.freqs));
    let expected: Vec<Vec<f64>> = PI_A.iter().map(|r| r.to_vec()).collect();
    assert_eq!(expected, cells(&cc.probs));
    assert_eq!(Some("impacted".to_string()), cc.freqs.row_dimname);
    assert_eq!(Some("changed".to_string()), cc.freqs.col_dimname);
    assert_eq!(Some("changing".to_string()), cc.probs.col_dimname);
}

#[test]
fn scenario_b_frequency_floor() {
    let changes = scenario_a();
    let cc = CoChanges::from_changes(&changes, &opts(ModelTypes::Naive, 2), sqrt);
    let expected = vec![
        vec![0.0, 0.0, 2.7071067811865475],
        vec![0.0, 0.0, 0.0],
        vec![2.7071067811865475, 0.0, 0.0],
    ];
    assert_eq!(expected, cells(&cc.freqs));
    let probs = cells(&cc.probs);
    assert_eq!(1.0, probs[2][0]);
    assert_eq!(0.0, probs[1][0]);
    assert!(probs[0][1].is_nan());
    for row in cells(&cc.freqs) {
        for v in row {
            assert!(v == 0.0 || v > 2.0);
        }
    }
}

#[test]
fn repeated_multiplicity_counts_twice() {
    let c0 = commit("c0", "x", 0);
    let c1 = commit("c1", "x", DAY);
    let diffs: GroupedBetterDiffs = vec![diff(&c0, &c1, &["A", "A", "B"])];
    let changes = Changes::from_diffs(&diffs);
    assert_eq!(2, changes.freqs.get(0, 0));
    assert_eq!(vec![2u32, 1], changes.c_freq);
}

#[test]
fn empty_input_gives_empty_matrices() {
    let diffs: GroupedBetterDiffs = Vec::new();
    let changes = Changes::from_diffs(&diffs);
    assert!(changes.files.is_empty());
    assert!(changes.freqs.col_names.is_empty());
    let cc = CoChanges::from_changes(&changes, &opts(ModelTypes::Naive, 0), sqrt);
    assert!(cc.freqs.row_names.is_empty());
    assert!(cc.probs.row_names.is_empty());
}

#[test]
fn changes_min_filters_rows() {
    let changes = scenario_a();
    assert_eq!(vec![0usize, 2], filter_rows(&changes, 2));
    let o = CoChangesOpt { changes_min: 2, freq_min: 0, algorithm: ModelTypes::Bayes };
    let cc: CoChanges<f64> = CoChanges::from_changes(&changes, &o, sqrt);
    assert_eq!(vec![0usize, 2], cc.freqs.row_names);
    assert_eq!(vec![0usize, 2], cc.freqs.col_names);
    assert_eq!(vec![0usize, 2], cc.probs.row_names);
    assert_eq!(vec![vec![0.0, 2.0], vec![2.0, 0.0]], cells(&cc.freqs));
}

#[test]
fn scenario_a_bayes() {
    let changes = scenario_a();
    let cc = CoChanges::from_changes(&changes, &opts(ModelTypes::Bayes, 0), sqrt);
    assert_eq!(vec![vec![0.0, 1.0, 2.0], vec![1.0, 0.0, 1.0], vec![2.0, 1.0, 0.0]], cells(&cc.freqs));
    // (freq / 2 bins) * (c_freq[u] / 3) / (c_freq[v] / 3)
    let p = cells(&cc.probs);
    assert_eq!((1.0 / 2.0 * (2.0 / 3.0)) / (1.0 / 3.0), p[0][1]);
    assert_eq!((1.0 / 2.0 * (1.0 / 3.0)) / (2.0 / 3.0), p[1][0]);
    assert_eq!((2.0 / 2.0 * (2.0 / 3.0)) / (2.0 / 3.0), p[0][2]);
    assert_eq!(0.0, p[1][1]);
}

#[test]
fn scenario_a_mixed() {
    let changes = scenario_a();
    let cc = CoChanges::from_changes(&changes, &opts(ModelTypes::Mixed, 0), sqrt);
    let expected: Vec<Vec<f64>> = PHI_A.iter().map(|r| r.to_vec()).collect();
    assert_eq!(expected, cells(&cc.freqs));
    let p = cells(&cc.probs);
    assert_eq!((PHI_A[0][1] / 2.0 * (2.0 / 3.0)) / (1.0 / 3.0), p[0][1]);
}

#[test]
fn scenario_c_bayes_probability() {
    let mut freqs: NamedMatrix<usize, usize, f64> = NamedMatrix::new(vec![0, 1, 2], vec![0, 1, 2], None, None, 0.0);
    let phi = [[0.0, 1.0, 2.0], [1.0, 0.0, 1.0], [2.0, 1.0, 0.0]];
    for i in 0..3 {
        for j in 0..3 {
            freqs.set(i, j, phi[i][j]);
        }
    }
    // priors 2/4, 1/4, 2/4 and four bins
    let p = BayesianModel::posterior(&freqs, &vec![2, 1, 2], 4, 4);
    assert_eq!(0.5, p.get(0, 2));
    assert_eq!(vec![vec![0.0, 0.5, 0.5], vec![0.125, 0.0, 0.125], vec![0.5, 0.5, 0.0]], cells(&p));
}

#[test]
fn negligible_priors_are_skipped() {
    let mut freqs: NamedMatrix<usize, usize, f64> = NamedMatrix::new(vec![0, 1], vec![0, 1], None, None, 0.0);
    freqs.set(0, 1, 3.0);
    freqs.set(1, 0, 3.0);
    // file 1 never changed: its prior 0 / n is below one in a million
    let p = BayesianModel::posterior(&freqs, &vec![3, 0], 2, 3);
    assert_eq!(0.0, p.get(0, 1));
    assert_eq!(0.0, p.get(1, 0));
}

#[test]
fn scenario_f_nop() {
    let changes = scenario_a();
    let cc = CoChanges::from_changes(&changes, &opts(ModelTypes::Nop, 0), sqrt);
    assert_eq!(0, cc.freqs.row_names.len());
    assert_eq!(0, cc.freqs.col_names.len());
    assert_eq!(0, cc.probs.row_names.len());
    let pred = PredictionOpt { skip: false, since_changes: 0, until_changes: i64::MAX, algorithm: ModelTypes::Nop };
    let r = RippleChangeProbabilities::from(&cc, &changes, &pred);
    assert!(r.ripples.is_empty());
}

fn prediction(algorithm: ModelTypes, skip: bool, since: i64, until: i64) -> PredictionOpt {
    PredictionOpt { skip, since_changes: since, until_changes: until, algorithm }
}

#[test]
fn scenario_d_empty_window() {
    let changes = scenario_a();
    let cc = CoChanges::from_changes(&changes, &opts(ModelTypes::Naive, 0), sqrt);
    let r = RippleChangeProbabilities::from(&cc, &changes, &prediction(ModelTypes::Naive, false, 0, 1000));
    assert!(r.changing_files.is_empty());
    assert!(r.ripples.is_empty());
}

#[test]
fn skip_gives_empty_ripple() {
    let changes = scenario_a();
    let cc = CoChanges::from_changes(&changes, &opts(ModelTypes::Naive, 0), sqrt);
    let r = RippleChangeProbabilities::from(&cc, &changes, &prediction(ModelTypes::Naive, true, 0, i64::MAX));
    assert!(r.changing_files.is_empty());
    assert!(r.ripples.is_empty());
}

#[test]
fn scenario_e_window_excludes_last_bin() {
    let changes = scenario_a();
    let cc = CoChanges::from_changes(&changes, &opts(ModelTypes::Naive, 0), sqrt);
    // both bins in the window; the last one is left out, so A, B and C changed
    let r = RippleChangeProbabilities::from(&cc, &changes, &prediction(ModelTypes::Naive, false, 0, i64::MAX));
    assert_eq!(vec!["A", "B", "C"], r.changing_files);
    assert_eq!(3, r.ripples.len());
    let names: Vec<&str> = r.ripples.iter().map(|x| x.0.as_str()).collect();
    assert_eq!(vec!["A", "B", "C"], names);
    for i in 0..3 {
        let sum = (0.0 + PI_A[i][0]) + PI_A[i][1] + PI_A[i][2];
        assert_eq!(sum / 3.0, r.ripples[i].1);
    }
}

#[test]
fn scenario_e_single_changed_file() {
    // A changes alone in the first bin; the window spans the first two bins
    let t1 = 1_700_000_000 - 3 * DAY;
    let c0 = commit("c0", "x", t1 - DAY);
    let c1 = commit("c1", "x", t1);
    let c2 = commit("c2", "x", t1 + DAY);
    let c3 = commit("c3", "x", t1 + 2 * DAY);
    let diffs: GroupedBetterDiffs = vec![
        diff(&c0, &c1, &["A"]),
        diff(&c1, &c2, &["A", "B", "C"]),
        diff(&c2, &c3, &["A", "C"]),
    ];
    let changes = Changes::from_diffs(&diffs);
    let cc = CoChanges::from_changes(&changes, &opts(ModelTypes::Naive, 0), sqrt);
    let probs = cells(&cc.probs);
    let window = |a: ModelTypes| prediction(a, false, t1, t1 + DAY);
    let r = RippleChangeProbabilities::from(&cc, &changes, &window(ModelTypes::Naive));
    assert_eq!(vec!["A"], r.changing_files);
    for i in 0..3 {
        assert_eq!((0.0 + probs[i][0]) / 1.0, r.ripples[i].1);
    }
    let r = RippleChangeProbabilities::from(&cc, &changes, &window(ModelTypes::Bayes));
    let bayes = CoChanges::from_changes(&changes, &opts(ModelTypes::Bayes, 0), sqrt);
    let r2 = RippleChangeProbabilities::from(&bayes, &changes, &window(ModelTypes::Bayes));
    let bp = cells(&bayes.probs);
    for i in 0..3 {
        assert_eq!(0.0 + probs[i][0], r.ripples[i].1);
        assert_eq!(0.0 + bp[i][0], r2.ripples[i].1);
    }
}

#[test]
fn window_bounds_first_and_last() {
    let bins = vec![10, 20, 30, 40];
    assert_eq!(Some((1, 2)), window_bounds(&bins, 15, 35));
    assert_eq!(Some((0, 3)), window_bounds(&bins, 10, 40));
    assert_eq!(None, window_bounds(&bins, 41, 50));
    assert_eq!(None, window_bounds(&Vec::new(), 0, 50));
}

#[test]
fn naive_columns_sum_to_one() {
    let changes = scenario_a();
    let cc = CoChanges::from_changes(&changes, &opts(ModelTypes::Naive, 0), sqrt);
    let f = cells(&cc.freqs);
    let p = cells(&cc.probs);
    for j in 0..3 {
        let s: f64 = (0..3).map(|i| f[i][j]).sum();
        if s > 0.0 {
            let t: f64 = (0..3).map(|i| p[i][j]).sum();
            assert!((t - 1.0).abs() < 1e-9);
        }
    }
}

#[test]
fn recomputing_is_bitwise_identical() {
    for algorithm in [ModelTypes::Naive, ModelTypes::Bayes, ModelTypes::Mixed, ModelTypes::Nop] {
        let a = CoChanges::from_changes(&scenario_a(), &opts(algorithm, 0), sqrt);
        let b = CoChanges::from_changes(&scenario_a(), &opts(algorithm, 0), sqrt);
        let bits = |m: &NamedMatrix<usize, usize, f64>| -> Vec<u64> {
            cells(m).into_iter().flatten().map(|x| x.to_bits()).collect()
        };
        assert_eq!(bits(&a.freqs), bits(&b.freqs));
        assert_eq!(bits(&a.probs), bits(&b.probs));
        assert_eq!(a.freqs.row_names, b.freqs.row_names);
    }
}

#[test]
fn dates_distance_weights() {
    let dates = vec![0, DAY, 4 * DAY];
    let d: NamedMatrix<i64, i64, f64> = NaiveModel::dates_distance(&dates, sqrt);
    assert_eq!(1.0, d.get(0, 0));
    assert_eq!(1.0, d.get(0, 2));
    assert_eq!(1.0 / 2f64.sqrt(), d.get(1, 0));
    assert_eq!(1.0 / 5f64.sqrt(), d.get(2, 0));
    assert_eq!(0.5, d.get(2, 1));
    let identity: NamedMatrix<i64, i64, f64> = NaiveModel::dates_distance(&dates, |x: f64| x);
    assert_eq!(0.2, identity.get(2, 0));
}

#[test]
fn coefficient_and_joint_count() {
    let dates = vec![0, DAY];
    let d: NamedMatrix<i64, i64, f64> = NaiveModel::dates_distance(&dates, sqrt);
    assert_eq!(1.7071067811865475, NaiveModel::cc_coefficient(&vec![1, 1], &vec![1, 0], &d));
    assert_eq!(0.0, NaiveModel::cc_coefficient(&vec![0, 0], &vec![1, 1], &d));
    // a file changed twice in a bin is no cause there
    assert_eq!(1.0, NaiveModel::cc_coefficient(&vec![1, 1], &vec![2, 1], &d));
    assert_eq!(1, co_change(&vec![1, 0, 3], &vec![2, 2, 0]));
    assert_eq!(0, co_change(&vec![], &vec![]));
}

#[test]
fn priors_divide_by_row_count() {
    let changes = scenario_a();
    let p: Vec<f64> = changes.c_prob();
    assert_eq!(vec![2.0 / 3.0, 1.0 / 3.0, 2.0 / 3.0], p);
    assert_eq!(3, changes.n_files());
    assert_eq!(2, changes.n_vers());
}

#[test]
fn count_frequencies_on_integers() {
    let changes = scenario_a();
    let o = CoChangesOpt { changes_min: 0, freq_min: 1, algorithm: ModelTypes::Bayes };
    let r: NamedMatrix<usize, usize, u64> = BayesianModel::calculate_freqs(&changes, &o);
    let mut cells = Vec::new();
    for i in 0..3 {
        cells.push(vec![r.get(i, 0), r.get(i, 1), r.get(i, 2)]);
    }
    assert_eq!(vec![vec![0u64, 0, 2], vec![0, 0, 0], vec![2, 0, 0]], cells);
}

#[test]
fn record_order_does_not_matter() {
    let t1 = 1_700_000_000 - 3 * DAY;
    let c0 = commit("c0", "x", t1 - DAY);
    let c1 = commit("c1", "x", t1);
    let c2 = commit("c2", "x", t1 + DAY);
    let a: GroupedBetterDiffs = vec![diff(&c0, &c1, &["B", "A", "C"]), diff(&c1, &c2, &["C", "A"])];
    let b: GroupedBetterDiffs = vec![diff(&c1, &c2, &["A", "C"]), diff(&c0, &c1, &["C", "B", "A"])];
    let (x, y) = (Changes::from_diffs(&a), Changes::from_diffs(&b));
    assert_eq!(x.files, y.files);
    assert_eq!(x.freqs.col_names, y.freqs.col_names);
    assert_eq!(x.freqs.cells, y.freqs.cells);
    assert_eq!(x.c_freq, y.c_freq);
}

