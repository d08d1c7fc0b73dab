use crate::changes::{wide_index, Changes};
use crate::cochanges::{
    arith_defined, filter_freqs, filter_rows, floored, is_square_over, kept_rows,
    lemma_kept_rows, square_matrix, CCMatrix, CoChangesOpt,
};
use crate::matrix::NamedMatrix;
use crate::naive::{is_dates_distance, naive_raw_freq, row_counts, NaiveModel};
use core::ops::{Add, Div, Mul};
use vstd::prelude::*;
use vstd::std_specs::cmp::PartialOrdSpec;
use vstd::std_specs::convert::FromSpec;
use vstd::std_specs::ops::{AddSpec, DivSpec, MulSpec};

verus! {

broadcast use vstd::std_specs::hash::group_hash_axioms;

/// Number of bins in which both files changed.
pub open spec fn joint_count(f1: Seq<u32>, f2: Seq<u32>) -> nat
    decreases f1.len(),
{
    if f1.len() == 0 {
        0
    } else {
        joint_count(f1.drop_last(), f2.take(f1.len() - 1)) + if f1.last() > 0 && f2[f1.len() - 1]
            > 0 {
            1nat
        } else {
            0nat
        }
    }
}

/// The Bayesian co-change frequency of the kept rows `a` and `b`, before the floor.
pub open spec fn bayes_raw_freq<T: From<u32>>(
    changes: Changes,
    labels: Seq<usize>,
    a: int,
    b: int,
) -> T {
    if a == b {
        T::from_spec(0u32)
    } else {
        T::from_spec(
            joint_count(
                changes.freqs.row(labels[a] as int),
                changes.freqs.row(labels[b] as int),
            ) as u32,
        )
    }
}

/// A file whose prior `c_freq / n_rows` is below one in a million.
pub open spec fn negligible(c_freq: u32, n_rows: u32) -> bool {
    (c_freq as int) * 1_000_000 < n_rows as int
}

/// The prior of a file: its change count over the number of files.
pub open spec fn prior<T: From<u32> + Div<Output = T>>(c_freq: u32, n_rows: u32) -> T {
    T::from_spec(c_freq).div_spec(T::from_spec(n_rows))
}

/// `P(impacted | changing) = (freq / n_vers) * P(impacted) / P(changing)`,
/// and zero where either prior is negligible.
pub open spec fn bayes_prob<T: Copy + Mul<Output = T> + Div<Output = T> + From<u32>>(
    freqs: CCMatrix<T>,
    c_freq: Seq<u32>,
    n_rows: u32,
    n_vers: u32,
    a: int,
    b: int,
) -> T {
    let ca = c_freq[freqs.row_names@[a] as int];
    let cb = c_freq[freqs.col_names@[b] as int];
    if negligible(ca, n_rows) || negligible(cb, n_rows) {
        T::from_spec(0u32)
    } else {
        freqs.at(a, b).div_spec(T::from_spec(n_vers)).mul_spec(prior::<T>(ca, n_rows)).div_spec(
            prior::<T>(cb, n_rows),
        )
    }
}

pub struct BayesianModel;

/// Naive frequencies with Bayesian probabilities and predictions.
pub struct MixedModel;

/// Number of bins in which both files changed.
pub fn co_change(f1: &Vec<u32>, f2: &Vec<u32>) -> (r: u32)
    requires
        f1@.len() == f2@.len(),
        f1@.len() <= u32::MAX,
    ensures
        r == joint_count(f1@, f2@),
{
    let mut r: u32 = 0;
    let mut j: usize = 0;
    while j < f1.len()
        invariant
            f1@.len() == f2@.len(),
            f1@.len() <= u32::MAX,
            j <= f1@.len(),
            r == joint_count(f1@.take(j as int), f2@.take(j as int)),
            r <= j,
        decreases f1@.len() - j,
    {
        proof {
            assert(f1@.take(j as int + 1).drop_last() =~= f1@.take(j as int));
            assert(f2@.take(j as int + 1).take(j as int) =~= f2@.take(j as int));
        }
        if f1[j] > 0 && f2[j] > 0 {
            r = r + 1;
        }
        j = j + 1;
    }
    proof {
        assert(f1@.take(j as int) =~= f1@);
        assert(f2@.take(j as int) =~= f2@);
    }
    r
}

impl BayesianModel {
    /// The Bayesian co-change frequencies: over the files whose change count
    /// reaches `changes_min`, the number of bins in which both files of each
    /// ordered pair of distinct files changed, with the frequency floor applied.
    pub fn calculate_freqs<T: Copy + From<u32> + PartialOrd>(
        changes: &Changes,
        opts: &CoChangesOpt,
    ) -> (r: CCMatrix<T>)
        requires
            changes.wf(),
        ensures
            r.wf(),
            is_square_over(r, kept_rows(changes.c_freq@, opts.changes_min)),
            r.row_dimname matches Some(s) && s@ == "impacted"@,
            r.col_dimname matches Some(s) && s@ == "changed"@,
            forall|a: int, b: int|
                0 <= a < r.nrows() && 0 <= b < r.ncols() ==> T::obeys_from_spec()
                    && T::obeys_partial_cmp_spec() ==> #[trigger] r.at(a, b) == floored(
                    bayes_raw_freq::<T>(*changes, r.row_names@, a, b),
                    opts.freq_min,
                ),
    {
        let labels = filter_rows(changes, opts.changes_min);
        proof {
            lemma_kept_rows(changes.c_freq@, opts.changes_min);
        }
        let n = labels.len();
        let zero = T::from(0u32);
        let mut cc = square_matrix(&labels, "impacted", "changed", zero);
        let rows = row_counts(changes, &labels);
        let mut a: usize = 0;
        while a < n
            invariant
                changes.wf(),
                n == labels@.len(),
                labels@ == kept_rows(changes.c_freq@, opts.changes_min),
                forall|k: int| 0 <= k < n ==> #[trigger] labels@[k] < changes.freqs.nrows(),
                a <= n,
                cc.wf(),
                is_square_over(cc, labels@),
                cc.row_dimname matches Some(s) && s@ == "impacted"@,
                cc.col_dimname matches Some(s) && s@ == "changed"@,
                rows@.len() == n,
                forall|k: int|
                    0 <= k < n ==> (#[trigger] rows@[k])@ == changes.freqs.row(labels@[k] as int),
                T::obeys_from_spec() ==> zero == T::from_spec(0u32),
                forall|x: int, y: int|
                    0 <= x < n && 0 <= y < n ==> T::obeys_from_spec() ==> #[trigger] cc.at(x, y) == if x
                        < a {
                        bayes_raw_freq::<T>(*changes, labels@, x, y)
                    } else {
                        zero
                    },
            decreases n - a,
        {
            let mut b: usize = 0;
            while b < n
                invariant
                    changes.wf(),
                    n == labels@.len(),
                    labels@ == kept_rows(changes.c_freq@, opts.changes_min),
                    forall|k: int| 0 <= k < n ==> #[trigger] labels@[k] < changes.freqs.nrows(),
                    a < n,
                    b <= n,
                    cc.wf(),
                    is_square_over(cc, labels@),
                    cc.row_dimname matches Some(s) && s@ == "impacted"@,
                    cc.col_dimname matches Some(s) && s@ == "changed"@,
                    rows@.len() == n,
                    forall|k: int|
                        0 <= k < n ==> (#[trigger] rows@[k])@ == changes.freqs.row(labels@[k] as int),
                    T::obeys_from_spec() ==> zero == T::from_spec(0u32),
                    forall|x: int, y: int|
                        0 <= x < n && 0 <= y < n ==> T::obeys_from_spec() ==> #[trigger] cc.at(x, y)
                            == if x < a || (x == a && y < b) {
                            bayes_raw_freq::<T>(*changes, labels@, x, y)
                        } else {
                            zero
                        },
                decreases n - b,
            {
                if a != b {
                    let count = co_change(&rows[a], &rows[b]);
                    cc.set(a, b, T::from(count));
                }
                b = b + 1;
            }
            a = a + 1;
        }
        filter_freqs(&mut cc, opts.freq_min);
        cc
    }

    /// The Bayesian co-change probabilities of `freqs`, whose labels are
    /// file ids, from the change counts `c_freq` of the files, the number of
    /// files `n_rows` and the number of bins `n_vers`.
    pub fn posterior<T: Copy + Add<Output = T> + Mul<Output = T> + Div<Output = T> + From<u32>>(
        freqs: &CCMatrix<T>,
        c_freq: &Vec<u32>,
        n_rows: u32,
        n_vers: u32,
    ) -> (r: CCMatrix<T>)
        requires
            freqs.wf(),
            freqs.col_names@ == freqs.row_names@,
            freqs.nrows() <= u32::MAX,
            wide_index(),
            forall|k: int| 0 <= k < freqs.nrows() ==> #[trigger] freqs.row_names@[k] < c_freq@.len(),
            forall|a: T, b: T| #[trigger] a.mul_req(b),
            forall|a: T, b: T| #[trigger] a.div_req(b),
        ensures
            r.wf(),
            is_square_over(r, freqs.row_names@),
            r.row_dimname matches Some(s) && s@ == "impacted"@,
            r.col_dimname matches Some(s) && s@ == "changing"@,
            forall|a: int, b: int|
                0 <= a < r.nrows() && 0 <= b < r.ncols() ==> T::obeys_mul_spec() && T::obeys_div_spec()
                    && T::obeys_from_spec() ==> #[trigger] r.at(a, b) == bayes_prob(
                    *freqs,
                    c_freq@,
                    n_rows,
                    n_vers,
                    a,
                    b,
                ),
    {
        let n = freqs.nrows_exec();
        let zero = T::from(0u32);
        let mut p = square_matrix(&freqs.row_names, "impacted", "changing", zero);
        let vers = T::from(n_vers);
        let rows = T::from(n_rows);
        let mut a: usize = 0;
        while a < n
            invariant
                freqs.wf(),
                freqs.col_names@ == freqs.row_names@,
                n == freqs.nrows(),
                a <= n,
                forall|k: int| 0 <= k < n ==> #[trigger] freqs.row_names@[k] < c_freq@.len(),
                p.wf(),
                is_square_over(p, freqs.row_names@),
                p.row_dimname matches Some(s) && s@ == "impacted"@,
                p.col_dimname matches Some(s) && s@ == "changing"@,
                forall|x: T, y: T| #[trigger] x.mul_req(y),
                forall|x: T, y: T| #[trigger] x.div_req(y),
                T::obeys_from_spec() ==> zero == T::from_spec(0u32),
                T::obeys_from_spec() ==> vers == T::from_spec(n_vers),
                T::obeys_from_spec() ==> rows == T::from_spec(n_rows),
                forall|x: int, y: int|
                    0 <= x < n && 0 <= y < n ==> T::obeys_mul_spec() && T::obeys_div_spec()
                        && T::obeys_from_spec() ==> #[trigger] p.at(x, y) == if x < a {
                        bayes_prob(*freqs, c_freq@, n_rows, n_vers, x, y)
                    } else {
                        zero
                    },
            decreases n - a,
        {
            let ca = c_freq[freqs.row_names[a]];
            if (ca as u64) * 1_000_000 >= n_rows as u64 {
                let e1 = T::from(ca) / rows;
                let mut b: usize = 0;
                while b < n
                    invariant
                        freqs.wf(),
                        freqs.col_names@ == freqs.row_names@,
                        n == freqs.nrows(),
                        a < n,
                        b <= n,
                        forall|k: int| 0 <= k < n ==> #[trigger] freqs.row_names@[k] < c_freq@.len(),
                        ca == c_freq@[freqs.row_names@[a as int] as int],
                        !negligible(ca, n_rows),
                        T::obeys_from_spec() && T::obeys_div_spec() ==> e1 == prior::<T>(ca, n_rows),
                        p.wf(),
                        is_square_over(p, freqs.row_names@),
                        p.row_dimname matches Some(s) && s@ == "impacted"@,
                        p.col_dimname matches Some(s) && s@ == "changing"@,
                        forall|x: T, y: T| #[trigger] x.mul_req(y),
                        forall|x: T, y: T| #[trigger] x.div_req(y),
                        T::obeys_from_spec() ==> zero == T::from_spec(0u32),
                        T::obeys_from_spec() ==> vers == T::from_spec(n_vers),
                        T::obeys_from_spec() ==> rows == T::from_spec(n_rows),
                        forall|x: int, y: int|
                            0 <= x < n && 0 <= y < n ==> T::obeys_mul_spec() && T::obeys_div_spec()
                                && T::obeys_from_spec() ==> #[trigger] p.at(x, y) == if x < a || (x
                                == a && y < b) {
                                bayes_prob(*freqs, c_freq@, n_rows, n_vers, x, y)
                            } else {
                                zero
                            },
                    decreases n - b,
                {
                    let cb = c_freq[freqs.col_names[b]];
                    if (cb as u64) * 1_000_000 >= n_rows as u64 {
                        let e2 = T::from(cb) / rows;
                        let v = freqs.get(a, b) / vers * e1 / e2;
                        p.set(a, b, v);
                    }
                    b = b + 1;
                }
            }
            a = a + 1;
        }
        p
    }

    /// The Bayesian co-change probabilities of `freqs` over the files of `changes`.
    pub fn calculate_probs<T: Copy + Add<Output = T> + Mul<Output = T> + Div<Output = T> + From<u32>>(
        changes: &Changes,
        freqs: &CCMatrix<T>,
    ) -> (r: CCMatrix<T>)
        requires
            changes.wf(),
            freqs.wf(),
            freqs.col_names@ == freqs.row_names@,
            forall|k: int|
                0 <= k < freqs.nrows() ==> #[trigger] freqs.row_names@[k] < changes.freqs.nrows(),
            freqs.nrows() <= changes.freqs.nrows(),
            forall|a: T, b: T| #[trigger] a.mul_req(b),
            forall|a: T, b: T| #[trigger] a.div_req(b),
        ensures
            r.wf(),
            is_square_over(r, freqs.row_names@),
            r.row_dimname matches Some(s) && s@ == "impacted"@,
            r.col_dimname matches Some(s) && s@ == "changing"@,
            forall|a: int, b: int|
                0 <= a < r.nrows() && 0 <= b < r.ncols() ==> T::obeys_mul_spec() && T::obeys_div_spec()
                    && T::obeys_from_spec() ==> #[trigger] r.at(a, b) == bayes_prob(
                    *freqs,
                    changes.c_freq@,
                    changes.freqs.nrows() as u32,
                    changes.freqs.ncols() as u32,
                    a,
                    b,
                ),
    {
        let n_rows = changes.n_files() as u32;
        let n_vers = changes.n_vers() as u32;
        Self::posterior(freqs, &changes.c_freq, n_rows, n_vers)
    }
}

impl MixedModel {
    /// Naive frequencies.
    pub fn calculate_freqs<
        T: Copy + Add<Output = T> + Mul<Output = T> + Div<Output = T> + From<u32> + PartialOrd,
        F: Fn(T) -> T,
    >(changes: &Changes, opts: &CoChangesOpt, smooth: F) -> (r: CCMatrix<T>)
        requires
            changes.wf(),
            arith_defined::<T>(),
            forall|x: T| smooth.requires((x,)),
        ensures
            r.wf(),
            is_square_over(r, kept_rows(changes.c_freq@, opts.changes_min)),
            T::obeys_add_spec() && T::obeys_div_spec() && T::obeys_from_spec()
                && T::obeys_partial_cmp_spec() ==> exists|d: NamedMatrix<i64, i64, T>|
                {
                    &&& is_dates_distance(d, changes.freqs.col_names@, smooth)
                    &&& forall|a: int, b: int|
                        0 <= a < r.nrows() && 0 <= b < r.ncols() ==> #[trigger] r.at(a, b)
                            == floored(naive_raw_freq(*changes, r.row_names@, d, a, b), opts.freq_min)
                },
    {
        NaiveModel::calculate_freqs(changes, opts, smooth)
    }

    /// Bayesian probabilities.
    pub fn calculate_probs<T: Copy + Add<Output = T> + Mul<Output = T> + Div<Output = T> + From<u32>>(
        changes: &Changes,
        freqs: &CCMatrix<T>,
    ) -> (r: CCMatrix<T>)
        requires
            changes.wf(),
            freqs.wf(),
            freqs.col_names@ == freqs.row_names@,
            forall|k: int|
                0 <= k < freqs.nrows() ==> #[trigger] freqs.row_names@[k] < changes.freqs.nrows(),
            freqs.nrows() <= changes.freqs.nrows(),
            forall|a: T, b: T| #[trigger] a.mul_req(b),
            forall|a: T, b: T| #[trigger] a.div_req(b),
        ensures
            r.wf(),
            is_square_over(r, freqs.row_names@),
            forall|a: int, b: int|
                0 <= a < r.nrows() && 0 <= b < r.ncols() ==> T::obeys_mul_spec() && T::obeys_div_spec()
                    && T::obeys_from_spec() ==> #[trigger] r.at(a, b) == bayes_prob(
                    *freqs,
                    changes.c_freq@,
                    changes.freqs.nrows() as u32,
                    changes.freqs.ncols() as u32,
                    a,
                    b,
                ),
    {
        BayesianModel::calculate_probs(changes, freqs)
    }
}

} // verus!
