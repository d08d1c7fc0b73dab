use crate::bayes::prior;
use crate::bettergit::BetterDiff;
use crate::changes::{all_new_files, count_in, is_changes_of, occurrences, Changes};
use crate::bayes::bayes_raw_freq;
use crate::cochanges::{
    floored, CCMatrix, arith_modelled, at_most, fold_sum, is_cochanges_of, lemma_kept_rows, model_of, CoChanges,
    CoChangesOpt,
};
use crate::labels::{
    label_lt, lemma_label_lt_asymmetric, lemma_label_lt_irreflexive, strictly_sorted_ints,
    strictly_sorted_labels, views,
};
use crate::matrix::NamedMatrix;
use crate::model::Model;
use crate::naive::{coeff_inner, coeff_outer, is_dates_distance, weight_at};
use core::ops::{Add, Div, Mul};
use vstd::prelude::*;
use vstd::std_specs::convert::FromSpec;
use vstd::std_specs::ops::{AddSpec, DivSpec, MulSpec};

verus! {

/// The files of a changes matrix are distinct, its rows carry distinct
/// labels, and its bins are strictly ascending.
pub proof fn axis_uniqueness(c: Changes)
    requires
        c.wf(),
    ensures
        views(c.files@).no_duplicates(),
        c.freqs.row_names@.no_duplicates(),
        strictly_sorted_ints(c.freqs.col_names@),
{
    let v = views(c.files@);
    assert forall|i: int, j: int| 0 <= i < v.len() && 0 <= j < v.len() && i != j implies v[i]
        != v[j] by {
        lemma_label_lt_irreflexive(v[i]);
    }
}

/// The frequency matrix and the probability matrix are square, over one and
/// the same sequence of labels.
pub proof fn cochange_shape<
    T: Copy + Add<Output = T> + Mul<Output = T> + Div<Output = T> + From<u32> + PartialOrd,
    F: Fn(T) -> T,
>(cc: CoChanges<T>, changes: Changes, opts: CoChangesOpt, smooth: F)
    requires
        is_cochanges_of(cc, changes, opts, smooth),
    ensures
        cc.freqs.col_names@ == cc.freqs.row_names@,
        cc.probs.row_names@ == cc.freqs.row_names@,
        cc.probs.col_names@ == cc.freqs.row_names@,
{
    if model_of(opts.algorithm) is Nop {
        assert(cc.freqs.col_names@ =~= cc.freqs.row_names@);
        assert(cc.probs.row_names@ =~= cc.freqs.row_names@);
        assert(cc.probs.col_names@ =~= cc.freqs.row_names@);
    }
}

/// Every file that labels the co-change matrices changed at least
/// `changes_min` times.
pub proof fn filtering<
    T: Copy + Add<Output = T> + Mul<Output = T> + Div<Output = T> + From<u32> + PartialOrd,
    F: Fn(T) -> T,
>(cc: CoChanges<T>, changes: Changes, opts: CoChangesOpt, smooth: F)
    requires
        changes.wf(),
        is_cochanges_of(cc, changes, opts, smooth),
    ensures
        forall|k: int|
            0 <= k < cc.freqs.nrows() ==> #[trigger] cc.freqs.row_names@[k] < changes.files@.len()
                && changes.c_freq@[cc.freqs.row_names@[k] as int] >= opts.changes_min,
{
    lemma_kept_rows(changes.c_freq@, opts.changes_min);
}

/// Every co-change frequency is zero or above `freq_min`.
pub proof fn frequency_floor<
    T: Copy + Add<Output = T> + Mul<Output = T> + Div<Output = T> + From<u32> + PartialOrd,
    F: Fn(T) -> T,
>(cc: CoChanges<T>, changes: Changes, opts: CoChangesOpt, smooth: F)
    requires
        is_cochanges_of(cc, changes, opts, smooth),
        arith_modelled::<T>(),
    ensures
        forall|a: int, b: int|
            0 <= a < cc.freqs.nrows() && 0 <= b < cc.freqs.ncols() ==> #[trigger] cc.freqs.at(a, b)
                == T::from_spec(0u32) || !at_most(cc.freqs.at(a, b), T::from_spec(opts.freq_min)),
{
    match model_of(opts.algorithm) {
        Model::Nop(_) => {},
        Model::Bayes(_) => {},
        _ => {
            let d = choose|d: NamedMatrix<i64, i64, T>|
                {
                    &&& is_dates_distance(d, changes.freqs.col_names@, smooth)
                    &&& forall|a: int, b: int|
                        0 <= a < cc.freqs.nrows() && 0 <= b < cc.freqs.ncols() ==> #[trigger] cc.freqs.at(
                            a,
                            b,
                        ) == crate::cochanges::floored(
                            crate::naive::naive_raw_freq(changes, cc.freqs.row_names@, d, a, b),
                            opts.freq_min,
                        )
                };
        },
    }
}

/// With counts as cells (where the operations are fully modelled), every
/// Bayesian frequency is zero or above `freq_min`, and the diagonal is zero.
pub proof fn count_frequencies_floor(changes: Changes, opts: CoChangesOpt, r: CCMatrix<u64>)
    requires
        forall|a: int, b: int|
            0 <= a < r.nrows() && 0 <= b < r.ncols() ==> #[trigger] r.at(a, b) == floored(
                bayes_raw_freq::<u64>(changes, r.row_names@, a, b),
                opts.freq_min,
            ),
    ensures
        forall|a: int, b: int|
            0 <= a < r.nrows() && 0 <= b < r.ncols() ==> #[trigger] r.at(a, b) == 0 || r.at(a, b)
                > opts.freq_min,
        forall|i: int| 0 <= i < r.nrows() && i < r.ncols() ==> #[trigger] r.at(i, i) == 0,
{
}

/// The diagonal of the frequencies is zero, and the diagonal of the
/// probabilities is what the column normalisation (Naive) or the Bayesian
/// formula makes of a zero frequency.
pub proof fn diagonal<
    T: Copy + Add<Output = T> + Mul<Output = T> + Div<Output = T> + From<u32> + PartialOrd,
    F: Fn(T) -> T,
>(cc: CoChanges<T>, changes: Changes, opts: CoChangesOpt, smooth: F)
    requires
        is_cochanges_of(cc, changes, opts, smooth),
        arith_modelled::<T>(),
    ensures
        forall|i: int|
            0 <= i < cc.freqs.nrows() && i < cc.freqs.ncols() ==> #[trigger] cc.freqs.at(i, i)
                == T::from_spec(0u32),
        opts.algorithm == crate::model::ModelTypes::Naive ==> forall|i: int|
            0 <= i < cc.probs.nrows() ==> #[trigger] cc.probs.at(i, i) == T::from_spec(0u32).div_spec(
                fold_sum(T::from_spec(0u32), cc.freqs.column(i)),
            ),
        opts.algorithm == crate::model::ModelTypes::Bayes || opts.algorithm
            == crate::model::ModelTypes::Mixed ==> forall|i: int|
            0 <= i < cc.probs.nrows() ==> {
                let p = prior::<T>(
                    changes.c_freq@[cc.freqs.row_names@[i] as int],
                    changes.freqs.nrows() as u32,
                );
                #[trigger] cc.probs.at(i, i) == T::from_spec(0u32) || cc.probs.at(i, i)
                    == T::from_spec(0u32).div_spec(T::from_spec(changes.freqs.ncols() as u32)).mul_spec(
                    p,
                ).div_spec(p)
            },
{
    match model_of(opts.algorithm) {
        Model::Nop(_) => {},
        Model::Bayes(_) => {},
        _ => {
            let d = choose|d: NamedMatrix<i64, i64, T>|
                {
                    &&& is_dates_distance(d, changes.freqs.col_names@, smooth)
                    &&& forall|a: int, b: int|
                        0 <= a < cc.freqs.nrows() && 0 <= b < cc.freqs.ncols() ==> #[trigger] cc.freqs.at(
                            a,
                            b,
                        ) == crate::cochanges::floored(
                            crate::naive::naive_raw_freq(changes, cc.freqs.row_names@, d, a, b),
                            opts.freq_min,
                        )
                };
        },
    }
}

/// Two strictly ascending label sequences with the same members are equal.
pub proof fn lemma_sorted_labels_unique(a: Seq<Seq<char>>, b: Seq<Seq<char>>)
    requires
        strictly_sorted_labels(a),
        strictly_sorted_labels(b),
        forall|x: Seq<char>| a.contains(x) <==> b.contains(x),
    ensures
        a == b,
    decreases a.len(),
{
    if a.len() == 0 {
        if b.len() > 0 {
            assert(b.contains(b[0]));
        }
        assert(a =~= b);
    } else {
        assert(a.contains(a[0]));
        assert(b.len() > 0);
        assert(b.contains(b[0]));
        let k = choose|k: int| 0 <= k < b.len() && b[k] == a[0];
        let k2 = choose|k2: int| 0 <= k2 < a.len() && a[k2] == b[0];
        if k > 0 {
            if k2 > 0 {
                lemma_label_lt_asymmetric(a[0], b[0]);
            } else {
                lemma_label_lt_irreflexive(a[0]);
            }
        }
        let a1 = a.drop_first();
        let b1 = b.drop_first();
        assert forall|x: Seq<char>| a1.contains(x) <==> b1.contains(x) by {
            if a1.contains(x) {
                let i = choose|i: int| 0 <= i < a1.len() && a1[i] == x;
                assert(a[i + 1] == x);
                assert(label_lt(a[0], x));
                lemma_label_lt_irreflexive(x);
                assert(b.contains(x));
                let j = choose|j: int| 0 <= j < b.len() && b[j] == x;
                assert(j != 0);
                assert(b1[j - 1] == x);
            }
            if b1.contains(x) {
                let i = choose|i: int| 0 <= i < b1.len() && b1[i] == x;
                assert(b[i + 1] == x);
                assert(label_lt(b[0], x));
                lemma_label_lt_irreflexive(x);
                assert(a.contains(x));
                let j = choose|j: int| 0 <= j < a.len() && a[j] == x;
                assert(j != 0);
                assert(a1[j - 1] == x);
            }
        }
        lemma_sorted_labels_unique(a1, b1);
        assert(a =~= seq![a[0]] + a1);
        assert(b =~= seq![b[0]] + b1);
    }
}

/// Two strictly ascending integer sequences with the same members are equal.
pub proof fn lemma_sorted_ints_unique(a: Seq<i64>, b: Seq<i64>)
    requires
        strictly_sorted_ints(a),
        strictly_sorted_ints(b),
        forall|x: i64| a.contains(x) <==> b.contains(x),
    ensures
        a == b,
    decreases a.len(),
{
    if a.len() == 0 {
        if b.len() > 0 {
            assert(b.contains(b[0]));
        }
        assert(a =~= b);
    } else {
        assert(a.contains(a[0]));
        assert(b.len() > 0);
        assert(b.contains(b[0]));
        let k = choose|k: int| 0 <= k < b.len() && b[k] == a[0];
        let k2 = choose|k2: int| 0 <= k2 < a.len() && a[k2] == b[0];
        let a1 = a.drop_first();
        let b1 = b.drop_first();
        assert forall|x: i64| a1.contains(x) <==> b1.contains(x) by {
            if a1.contains(x) {
                let i = choose|i: int| 0 <= i < a1.len() && a1[i] == x;
                assert(a[i + 1] == x);
                assert(b.contains(x));
                let j = choose|j: int| 0 <= j < b.len() && b[j] == x;
                assert(b1[j - 1] == x);
            }
            if b1.contains(x) {
                let i = choose|i: int| 0 <= i < b1.len() && b1[i] == x;
                assert(b[i + 1] == x);
                assert(a.contains(x));
                let j = choose|j: int| 0 <= j < a.len() && a[j] == x;
                assert(a1[j - 1] == x);
            }
        }
        lemma_sorted_ints_unique(a1, b1);
        assert(a =~= seq![a[0]] + a1);
        assert(b =~= seq![b[0]] + b1);
    }
}

/// Building the changes matrix twice from the same records gives the same
/// files, the same bins, the same counts.
pub proof fn changes_deterministic(d: Seq<(i64, BetterDiff)>, c1: Changes, c2: Changes)
    requires
        is_changes_of(c1, d),
        is_changes_of(c2, d),
    ensures
        views(c1.files@) == views(c2.files@),
        c1.freqs.row_names@ == c2.freqs.row_names@,
        c1.freqs.col_names@ == c2.freqs.col_names@,
        forall|i: int, j: int|
            0 <= i < c1.freqs.nrows() && 0 <= j < c1.freqs.ncols() ==> #[trigger] c1.freqs.at(i, j)
                == c2.freqs.at(i, j),
        c1.c_freq@ == c2.c_freq@,
{
    changes_order_independent(d, d, c1, c2);
}

/// The order of the records does not matter: records given in another
/// order (as a map walked differently) give the same files, the same bins,
/// the same counts.
pub proof fn changes_order_independent(
    d1: Seq<(i64, BetterDiff)>,
    d2: Seq<(i64, BetterDiff)>,
    c1: Changes,
    c2: Changes,
)
    requires
        is_changes_of(c1, d1),
        is_changes_of(c2, d2),
        d1.to_multiset() == d2.to_multiset(),
    ensures
        views(c1.files@) == views(c2.files@),
        c1.freqs.row_names@ == c2.freqs.row_names@,
        c1.freqs.col_names@ == c2.freqs.col_names@,
        forall|i: int, j: int|
            0 <= i < c1.freqs.nrows() && 0 <= j < c1.freqs.ncols() ==> #[trigger] c1.freqs.at(i, j)
                == c2.freqs.at(i, j),
        c1.c_freq@ == c2.c_freq@,
{
    broadcast use vstd::seq_lib::group_to_multiset_ensures;

    assert forall|k: int| 0 <= k < d1.len() implies d2.contains(#[trigger] d1[k]) by {
        assert(d1.contains(d1[k]));
        assert(d1.to_multiset().count(d1[k]) > 0);
    }
    assert forall|k: int| 0 <= k < d2.len() implies d1.contains(#[trigger] d2[k]) by {
        assert(d2.contains(d2[k]));
        assert(d2.to_multiset().count(d2[k]) > 0);
    }
    assert forall|x: Seq<char>| views(c1.files@).contains(x) <==> views(c2.files@).contains(x) by {
        lemma_all_new_files_contains(d1, x);
        lemma_all_new_files_contains(d2, x);
        if all_new_files(d1).contains(x) {
            let k = choose|k: int| 0 <= k < d1.len() && views(d1[k].1.new_files@).contains(x);
            let k2 = choose|k2: int| 0 <= k2 < d2.len() && d2[k2] == d1[k];
        }
        if all_new_files(d2).contains(x) {
            let k = choose|k: int| 0 <= k < d2.len() && views(d2[k].1.new_files@).contains(x);
            let k2 = choose|k2: int| 0 <= k2 < d1.len() && d1[k2] == d2[k];
        }
    }
    lemma_sorted_labels_unique(views(c1.files@), views(c2.files@));
    assert(c1.files@.len() == views(c1.files@).len());
    assert(c2.files@.len() == views(c2.files@).len());
    assert forall|b: i64| c1.freqs.col_names@.contains(b) <==> c2.freqs.col_names@.contains(b) by {
        if c1.freqs.col_names@.contains(b) {
            let k = choose|k: int| 0 <= k < d1.len() && #[trigger] d1[k].0 == b;
            let k2 = choose|k2: int| 0 <= k2 < d2.len() && d2[k2] == d1[k];
            assert(d2[k2].0 == b);
        }
        if c2.freqs.col_names@.contains(b) {
            let k = choose|k: int| 0 <= k < d2.len() && #[trigger] d2[k].0 == b;
            let k2 = choose|k2: int| 0 <= k2 < d1.len() && d1[k2] == d2[k];
            assert(d1[k2].0 == b);
        }
    }
    lemma_sorted_ints_unique(c1.freqs.col_names@, c2.freqs.col_names@);
    assert(c1.freqs.row_names@ =~= c2.freqs.row_names@);
    assert forall|i: int, j: int|
        0 <= i < c1.freqs.nrows() && 0 <= j < c1.freqs.ncols() implies #[trigger] c1.freqs.at(i, j)
        == c2.freqs.at(i, j) by {
        assert(views(c1.files@)[i] == c1.files@[i]@);
        assert(views(c2.files@)[i] == c2.files@[i]@);
        lemma_occurrences_perm(d1, d2, c1.files@[i]@, c1.freqs.col_names@[j]);
    }
    assert forall|i: int| 0 <= i < c1.c_freq@.len() implies c1.c_freq@[i] == c2.c_freq@[i] by {
        assert(c1.freqs.row(i) =~= c2.freqs.row(i)) by {
            assert forall|j: int| 0 <= j < c1.freqs.ncols() implies c1.freqs.row(i)[j] == c2.freqs.row(
                i,
            )[j] by {
                assert(c1.freqs.at(i, j) == c2.freqs.at(i, j));
            }
        }
    }
    assert(c1.c_freq@ =~= c2.c_freq@);
}

/// A label is among all the labels exactly when some record holds it.
proof fn lemma_all_new_files_contains(d: Seq<(i64, BetterDiff)>, x: Seq<char>)
    ensures
        all_new_files(d).contains(x) <==> exists|k: int|
            0 <= k < d.len() && views(d[k].1.new_files@).contains(x),
    decreases d.len(),
{
    if d.len() > 0 {
        let init = d.drop_last();
        let a = all_new_files(init);
        let v = views(d.last().1.new_files@);
        lemma_all_new_files_contains(init, x);
        if (a + v).contains(x) {
            let i = choose|i: int| 0 <= i < (a + v).len() && (a + v)[i] == x;
            if i < a.len() {
                assert(a[i] == x);
                let k = choose|k: int| 0 <= k < init.len() && views(init[k].1.new_files@).contains(x);
                assert(d[k] == init[k]);
            } else {
                assert(v[i - a.len()] == x);
                assert(d[d.len() - 1] == d.last());
            }
        }
        if exists|k: int| 0 <= k < d.len() && views(d[k].1.new_files@).contains(x) {
            let k = choose|k: int| 0 <= k < d.len() && views(d[k].1.new_files@).contains(x);
            if k < d.len() - 1 {
                assert(init[k] == d[k]);
                assert(a.contains(x));
                let i = choose|i: int| 0 <= i < a.len() && a[i] == x;
                assert((a + v)[i] == x);
            } else {
                let i = choose|i: int| 0 <= i < v.len() && v[i] == x;
                assert((a + v)[a.len() + i] == x);
            }
        }
    }
}

/// The occurrences in the records without record `i`, and those of record `i`.
proof fn lemma_occurrences_remove(d: Seq<(i64, BetterDiff)>, i: int, f: Seq<char>, b: i64)
    requires
        0 <= i < d.len(),
    ensures
        occurrences(d, f, b) == occurrences(d.remove(i), f, b) + if d[i].0 == b {
            count_in(views(d[i].1.new_files@), f)
        } else {
            0nat
        },
    decreases d.len(),
{
    if i == d.len() - 1 {
        assert(d.remove(i) =~= d.drop_last());
    } else {
        lemma_occurrences_remove(d.drop_last(), i, f, b);
        assert(d.remove(i).drop_last() =~= d.drop_last().remove(i));
        assert(d.remove(i).last() == d.last());
    }
}

/// Occurrences do not depend on the order of the records.
proof fn lemma_occurrences_perm(
    d1: Seq<(i64, BetterDiff)>,
    d2: Seq<(i64, BetterDiff)>,
    f: Seq<char>,
    b: i64,
)
    requires
        d1.to_multiset() == d2.to_multiset(),
    ensures
        occurrences(d1, f, b) == occurrences(d2, f, b),
    decreases d1.len(),
{
    broadcast use vstd::seq_lib::group_to_multiset_ensures;
    broadcast use vstd::multiset::group_multiset_axioms;

    if d1.len() == 0 {
        assert(d2.to_multiset().len() == 0);
        assert(d2.len() == 0);
    } else {
        let x = d1.last();
        let init = d1.drop_last();
        assert(d1 =~= init.push(x));
        assert(d1.contains(x)) by {
            assert(d1[d1.len() - 1] == x);
        }
        assert(d2.to_multiset().count(x) > 0);
        assert(d2.contains(x));
        let i = choose|i: int| 0 <= i < d2.len() && d2[i] == x;
        assert(d2.remove(i).to_multiset() == d2.to_multiset().remove(x));
        assert(init.to_multiset() =~= d2.remove(i).to_multiset()) by {
            assert(d1.to_multiset() =~= init.to_multiset().insert(x));
        }
        lemma_occurrences_perm(init, d2.remove(i), f, b);
        lemma_occurrences_remove(d2, i, f, b);
    }
}

proof fn lemma_coeff_inner_agree<T: Copy + Add<Output = T>>(
    f1: Seq<u32>,
    f2: Seq<u32>,
    d1: NamedMatrix<i64, i64, T>,
    d2: NamedMatrix<i64, i64, T>,
    acc: T,
    i: int,
    j: int,
)
    requires
        0 <= i < f1.len(),
        j <= i,
        forall|a: int, b: int| 0 <= a < f1.len() && 0 <= b < f1.len() ==> #[trigger] d1.at(a, b) == d2.at(a, b),
    ensures
        coeff_inner(f1, f2, d1, acc, i, j) == coeff_inner(f1, f2, d2, acc, i, j),
    decreases j + 1,
{
    if j >= 0 {
        let next = if f1[i] > 0 && f2[j] == 1 {
            acc.add_spec(d1.at(i, j))
        } else {
            acc
        };
        lemma_coeff_inner_agree(f1, f2, d1, d2, next, i, j - 1);
    }
}

proof fn lemma_coeff_outer_agree<T: Copy + Add<Output = T>>(
    f1: Seq<u32>,
    f2: Seq<u32>,
    d1: NamedMatrix<i64, i64, T>,
    d2: NamedMatrix<i64, i64, T>,
    acc: T,
    i: int,
)
    requires
        i < f1.len(),
        forall|a: int, b: int| 0 <= a < f1.len() && 0 <= b < f1.len() ==> #[trigger] d1.at(a, b) == d2.at(a, b),
    ensures
        coeff_outer(f1, f2, d1, acc, i) == coeff_outer(f1, f2, d2, acc, i),
    decreases i + 1,
{
    if i >= 0 {
        lemma_coeff_inner_agree(f1, f2, d1, d2, acc, i, i);
        lemma_coeff_outer_agree(f1, f2, d1, d2, coeff_inner(f1, f2, d1, acc, i, i), i - 1);
    }
}

/// Computing the co-changes twice from the same changes and options, with a
/// smoothing whose result depends on its argument alone, gives the same
/// labels and the same cells.
pub proof fn cochanges_deterministic<
    T: Copy + Add<Output = T> + Mul<Output = T> + Div<Output = T> + From<u32> + PartialOrd,
    F: Fn(T) -> T,
>(cc1: CoChanges<T>, cc2: CoChanges<T>, changes: Changes, opts: CoChangesOpt, smooth: F)
    requires
        changes.wf(),
        is_cochanges_of(cc1, changes, opts, smooth),
        is_cochanges_of(cc2, changes, opts, smooth),
        arith_modelled::<T>(),
        forall|x: T, y1: T, y2: T|
            smooth.ensures((x,), y1) && smooth.ensures((x,), y2) ==> y1 == y2,
    ensures
        cc1.freqs.row_names@ == cc2.freqs.row_names@,
        cc1.probs.row_names@ == cc2.probs.row_names@,
        forall|a: int, b: int|
            0 <= a < cc1.freqs.nrows() && 0 <= b < cc1.freqs.ncols() ==> #[trigger] cc1.freqs.at(a, b)
                == cc2.freqs.at(a, b),
        forall|a: int, b: int|
            0 <= a < cc1.probs.nrows() && 0 <= b < cc1.probs.ncols() ==> #[trigger] cc1.probs.at(a, b)
                == cc2.probs.at(a, b),
{
    cochange_shape(cc1, changes, opts, smooth);
    cochange_shape(cc2, changes, opts, smooth);
    let m = model_of(opts.algorithm);
    if m is Nop {
        assert(cc1.freqs.row_names@ =~= cc2.freqs.row_names@);
        assert(cc1.probs.row_names@ =~= cc2.probs.row_names@);
    }
    if !(m is Nop) && !(m is Bayes) {
        let d1 = choose|d: NamedMatrix<i64, i64, T>|
            {
                &&& is_dates_distance(d, changes.freqs.col_names@, smooth)
                &&& forall|a: int, b: int|
                    0 <= a < cc1.freqs.nrows() && 0 <= b < cc1.freqs.ncols() ==> #[trigger] cc1.freqs.at(
                        a,
                        b,
                    ) == crate::cochanges::floored(
                        crate::naive::naive_raw_freq(changes, cc1.freqs.row_names@, d, a, b),
                        opts.freq_min,
                    )
            };
        let d2 = choose|d: NamedMatrix<i64, i64, T>|
            {
                &&& is_dates_distance(d, changes.freqs.col_names@, smooth)
                &&& forall|a: int, b: int|
                    0 <= a < cc2.freqs.nrows() && 0 <= b < cc2.freqs.ncols() ==> #[trigger] cc2.freqs.at(
                        a,
                        b,
                    ) == crate::cochanges::floored(
                        crate::naive::naive_raw_freq(changes, cc2.freqs.row_names@, d, a, b),
                        opts.freq_min,
                    )
            };
        let nb = changes.freqs.col_names@.len();
        assert forall|a: int, b: int| 0 <= a < nb && 0 <= b < nb implies #[trigger] d1.at(a, b) == d2.at(
            a,
            b,
        ) by {
            assert(weight_at(d1, changes.freqs.col_names@, smooth, a, b));
            assert(weight_at(d2, changes.freqs.col_names@, smooth, a, b));
        }
        assert forall|a: int, b: int|
            0 <= a < cc1.freqs.nrows() && 0 <= b < cc1.freqs.ncols() implies #[trigger] cc1.freqs.at(
            a,
            b,
        ) == cc2.freqs.at(a, b) by {
            lemma_kept_rows(changes.c_freq@, opts.changes_min);
            let labels = cc1.freqs.row_names@;
            if a != b {
                let f1 = changes.freqs.row(labels[a] as int);
                let f2 = changes.freqs.row(labels[b] as int);
                lemma_coeff_outer_agree(f1, f2, d1, d2, T::from_spec(0u32), f1.len() - 1);
            }
        }
    }
    assert forall|a: int, b: int|
        0 <= a < cc1.probs.nrows() && 0 <= b < cc1.probs.ncols() implies #[trigger] cc1.probs.at(a, b)
        == cc2.probs.at(a, b) by {
        if m is Naive {
            assert(cc1.freqs.column(b) =~= cc2.freqs.column(b));
        }
    }
}

} // verus!
