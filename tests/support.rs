use ccan::bettergit::{num_days, pattern_of, CommitFilteringOpt, DateGrouping, FileFilteringOpt};
use ccan::changes::{Changes, GroupedBetterDiffs};
use ccan::cochanges::CoChangesOpt;
use ccan::labels::{find_label, sorted_unique_ints, sorted_unique_labels};
use ccan::matrix::NamedMatrix;
use ccan::model::{Model, ModelTypes};
use ccan::output::{create_path, join_paths, p};
use ccan::predict::PredictionOpt;
use ccan::{Analysis, AnalysisError, AnalysisStatus};
use chrono::{TimeZone, Utc};

fn ts(y: i32, mo: u32, d: u32, h: u32, mi: u32, s: u32) -> i64 {
    Utc.with_ymd_and_hms(y, mo, d, h, mi, s).unwrap().timestamp()
}

#[test]
fn test() {}

#[test]
fn output_test_paths() {
    let path = create_path(&["/tmp", "ccan-rs", "repo"]);
    println!("{}", path);
    assert_eq!("/tmp/ccan-rs/repo", path);
}

#[test]
fn test_paths() {
    let path = create_path(&["/tmp", "ccan-rs", "repo"]);
    println!("{}", path);
    assert_eq!("/tmp/ccan-rs/repo", path);
}

#[test]
fn paths_join_like_unix_paths() {
    assert_eq!("", create_path(&[]));
    assert_eq!("repo", create_path(&["repo"]));
    assert_eq!("/etc", create_path(&["/tmp", "/etc"]));
    assert_eq!("/tmp/x", create_path(&["/tmp/", "x"]));
    assert_eq!("a/", join_paths("a", ""));
    assert_eq!("b", join_paths("", "b"));
    assert_eq!(Some("out/cc_freqs.csv".to_string()), p(&"out".to_string(), "cc_freqs.csv").ok());
}

#[test]
fn test_matrix() {
    let rows: Vec<u64> = vec![1, 2, 3];
    let cols: Vec<u64> = vec![7, 8, 9];
    let m: NamedMatrix<u64, u64, f64> = NamedMatrix::new(rows, cols, None, None, 0.0);
    println!("{:?}", m.cells);
    assert_eq!(9, m.cells.len());
    assert!(m.cells.iter().all(|x| *x == 0.0));
}

#[test]
fn matrix_lookup_and_update() {
    let mut m: NamedMatrix<u64, i64, u32> = NamedMatrix::new(vec![5, 6, 5], vec![-1, 4], Some("files"), None, 0);
    assert_eq!(Some(2), m.index_of_row(&5));
    assert_eq!(Some(1), m.index_of_row(&6));
    assert_eq!(None, m.index_of_row(&7));
    assert_eq!(Some(0), m.index_of_col(&-1));
    assert_eq!(vec![1, 0], m.slice_columns(&vec![4, 3, -1]));
    m.set(1, 1, 9);
    assert_eq!(9, m.get(1, 1));
    assert_eq!(0, m.get(1, 0));
    assert_eq!(Some("files".to_string()), m.row_dimname);
    assert_eq!(None, m.col_dimname);
}

#[test]
fn test_test_grouping() {
    let daily = DateGrouping::Daily;
    let date1 = ts(2023, 10, 30, 11, 0, 0);
    let date2 = ts(2023, 10, 30, 12, 30, 0);
    let date3 = ts(2023, 10, 31, 11, 0, 0);
    assert_eq!(daily.get_group(date1), daily.get_group(date2));
    assert_ne!(daily.get_group(date1), daily.get_group(date3));
    assert_ne!(daily.get_group(date2), daily.get_group(date3));

    let weekly = DateGrouping::Weekly;
    let date1 = ts(2023, 10, 30, 12, 0, 1);
    let date2 = ts(2023, 10, 31, 12, 30, 0);
    let date3 = ts(2023, 10, 28, 11, 0, 0);
    assert_eq!(weekly.get_group(date1), weekly.get_group(date2));
    assert_ne!(weekly.get_group(date1), weekly.get_group(date3));
    assert_ne!(weekly.get_group(date2), weekly.get_group(date3));

    let monthly = DateGrouping::Monthly;
    let date1 = ts(2023, 10, 30, 12, 0, 1);
    let date2 = ts(2023, 10, 3, 12, 30, 0);
    let date3 = ts(2023, 9, 28, 11, 0, 0);
    assert_eq!(monthly.get_group(date1), monthly.get_group(date2));
    assert_ne!(monthly.get_group(date1), monthly.get_group(date3));
    assert_ne!(monthly.get_group(date2), monthly.get_group(date3));
}

#[test]
fn grouping_gives_the_canonical_instant() {
    let t = ts(2023, 11, 2, 15, 4, 5);
    assert_eq!(t, DateGrouping::Unbinned.get_group(t));
    assert_eq!(ts(2023, 11, 2, 0, 0, 0), DateGrouping::Daily.get_group(t));
    assert_eq!(ts(2023, 10, 30, 0, 0, 0), DateGrouping::Weekly.get_group(t));
    assert_eq!(ts(2023, 11, 1, 0, 0, 0), DateGrouping::Monthly.get_group(t));
    let before_epoch = ts(1969, 12, 31, 23, 0, 0);
    assert_eq!(ts(1969, 12, 31, 0, 0, 0), DateGrouping::Daily.get_group(before_epoch));
    assert_eq!(ts(1969, 12, 29, 0, 0, 0), DateGrouping::Weekly.get_group(before_epoch));
    assert_eq!(ts(1969, 12, 1, 0, 0, 0), DateGrouping::Monthly.get_group(before_epoch));
    assert_eq!("weekly", DateGrouping::Weekly.name());
    assert_eq!("none", DateGrouping::Unbinned.name());
}

#[test]
fn whole_days_round_toward_zero() {
    assert_eq!(1, num_days(ts(2023, 1, 2, 12, 0, 0), ts(2023, 1, 1, 0, 0, 0)));
    assert_eq!(0, num_days(ts(2023, 1, 1, 23, 0, 0), ts(2023, 1, 1, 0, 0, 0)));
    assert_eq!(-1, num_days(ts(2023, 1, 1, 0, 0, 0), ts(2023, 1, 2, 12, 0, 0)));
}

#[test]
fn labels_sort_by_code_point() {
    let v = vec!["b".to_string(), "B".to_string(), "a".to_string(), "b".to_string(), "ä".to_string()];
    let r = sorted_unique_labels(v);
    assert_eq!(vec!["B", "a", "b", "ä"], r);
    assert_eq!(Some(2), find_label(&r, "b"));
    assert_eq!(None, find_label(&r, "c"));
    assert_eq!(vec![-3, 1, 9], sorted_unique_ints(vec![9, 1, -3, 9, 1]));
}

#[test]
fn file_filters() {
    assert_eq!(".*", pattern_of(&[]));
    assert_eq!("x", pattern_of(&["x"]));
    assert_eq!("(a|b|c)", pattern_of(&["a", "b", "c"]));
    let all = FileFilteringOpt::accept_all().ok().unwrap();
    assert!(all.matches("src/main.rs"));
    let cs = FileFilteringOpt::include_only(&[".*cs$"]).ok().unwrap();
    assert!(cs.matches("Program.CS"));
    assert!(!cs.matches("main.rs"));
    let f = FileFilteringOpt::new(&[".*md$", ".*txt$"], &[".*"]).ok().unwrap();
    assert!(f.excludes("README.md"));
    assert!(!f.matches("notes.TXT"));
    assert!(f.matches("lib.rs"));
    match FileFilteringOpt::new(&["("], &[".*"]) {
        Err(e) => assert_eq!("(", e.pattern),
        Ok(_) => panic!("an unbalanced pattern compiles"),
    }
}

#[test]
fn names_parse_back() {
    for g in [DateGrouping::Unbinned, DateGrouping::Daily, DateGrouping::Weekly, DateGrouping::Monthly] {
        assert_eq!(Some(g), DateGrouping::from_name(g.name()));
    }
    for m in [ModelTypes::Naive, ModelTypes::Bayes, ModelTypes::Mixed, ModelTypes::Nop] {
        assert_eq!(Some(m), ModelTypes::from_name(m.name()));
    }
    assert_eq!(None, DateGrouping::from_name("yearly"));
    assert_eq!(None, ModelTypes::from_name("Naive"));
    assert_eq!(Some(DateGrouping::Unbinned), DateGrouping::from_name("none"));
}

#[test]
fn filter_constructors_succeed_on_valid_patterns() {
    assert!(FileFilteringOpt::accept_all().is_ok());
    assert!(FileFilteringOpt::include_only(&["("]).is_err());
    assert!(FileFilteringOpt::vec_to_regex(&["a", "b"]).is_ok());
    assert!(FileFilteringOpt::vec_to_regex(&["a", "("]).is_err());
}

#[test]
fn commit_period_is_open() {
    let f = CommitFilteringOpt { branch: "main".to_string(), since: 10, until: 20, binning: DateGrouping::Daily };
    assert!(f.admits(15));
    assert!(!f.admits(10));
    assert!(!f.admits(20));
}

#[test]
fn model_selection() {
    assert!(matches!(ModelTypes::Naive.get_model(), Model::Naive(_)));
    assert!(matches!(ModelTypes::Bayes.get_model(), Model::Bayes(_)));
    assert!(matches!(ModelTypes::Mixed.get_model(), Model::Mixed(_)));
    assert!(matches!(ModelTypes::Nop.get_model(), Model::Nop(_)));
    assert_eq!("mixed", ModelTypes::Mixed.name());
}

fn options() -> ccan::Options {
    ccan::Options {
        repository: "repo".to_string(),
        git_opts: ccan::bettergit::BetterGitOpt {
            commit_filters: CommitFilteringOpt {
                branch: "main".to_string(),
                since: 0,
                until: 100,
                binning: DateGrouping::Unbinned,
            },
            file_filters: FileFilteringOpt::accept_all().ok().unwrap(),
        },
        cc_opts: CoChangesOpt { changes_min: 0, freq_min: 0, algorithm: ModelTypes::Nop },
        pred_opts: PredictionOpt { skip: true, since_changes: 0, until_changes: 0, algorithm: ModelTypes::Nop },
    }
}

#[test]
fn analysis_status_transitions() {
    let mut a: Analysis<f64> = Analysis::new(options());
    assert_eq!(AnalysisStatus::Initialized, a.status);
    a.begin(1_000);
    assert_eq!(AnalysisStatus::Running, a.status);
    let diffs: GroupedBetterDiffs = Vec::new();
    let out = Analysis::<f64>::execute(&diffs, &a.opts.cc_opts, &a.opts.pred_opts, |x: f64| x.sqrt());
    assert!(a.finish(Ok(out), 1_250).is_ok());
    assert_eq!(AnalysisStatus::Completed, a.status);
    assert_eq!(250, a.duration);
    assert_eq!(Some(1_250), a.end);
    assert!(a.output.is_some());

    let mut b: Analysis<f64> = Analysis::new(options());
    b.begin(5);
    let r = b.finish(Err(AnalysisError::BranchNotFound("dev".to_string())), 7);
    assert!(matches!(r, Err(AnalysisError::BranchNotFound(ref s)) if s == "dev"));
    assert_eq!(AnalysisStatus::Failed, b.status);
    assert_eq!(2, b.duration);
    assert!(b.output.is_none());
}

#[test]
fn changes_of_empty_bins() {
    let diffs: GroupedBetterDiffs = Vec::new();
    let c = Changes::from_diffs(&diffs);
    assert_eq!(0, c.n_files());
    assert_eq!(0, c.n_vers());
}
