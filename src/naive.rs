use crate::bettergit::{days_between, is_instant, num_days};
use crate::changes::{lemma_wide_product, wide_index, Changes};
use crate::cochanges::{
    arith_defined, filter_freqs, filter_rows, floored, fold_sum, is_square_over, kept_rows,
    lemma_kept_rows, square_matrix, CCMatrix, CoChangesOpt,
};
use crate::matrix::NamedMatrix;
use core::ops::{Add, Div, Mul};
use vstd::prelude::*;
use vstd::std_specs::cmp::PartialOrdSpec;
use vstd::std_specs::convert::FromSpec;
use vstd::std_specs::ops::{AddSpec, DivSpec};

verus! {

broadcast use vstd::std_specs::hash::group_hash_axioms;

/// Whole days from bin `j` to bin `i` below the diagonal, zero elsewhere.
pub open spec fn day_gap(dates: Seq<i64>, i: int, j: int) -> int {
    if j < i {
        days_between(dates[i], dates[j])
    } else {
        0
    }
}

/// Cell `(i, j)` of `d` is `1 / smooth(1 + day_gap(i, j))` for some result of `smooth`.
pub open spec fn weight_at<T: Copy + From<u32> + Div<Output = T>, F: Fn(T) -> T>(
    d: NamedMatrix<i64, i64, T>,
    dates: Seq<i64>,
    smooth: F,
    i: int,
    j: int,
) -> bool {
    exists|s: T|
        {
            &&& smooth.ensures((T::from_spec((day_gap(dates, i, j) + 1) as u32),), s)
            &&& d.at(i, j) == T::from_spec(1u32).div_spec(s)
        }
}

/// `d` weights each pair of bins `(i, j)` with `1 / smooth(1 + day_gap(i, j))`.
pub open spec fn is_dates_distance<T: Copy + From<u32> + Div<Output = T>, F: Fn(T) -> T>(
    d: NamedMatrix<i64, i64, T>,
    dates: Seq<i64>,
    smooth: F,
) -> bool {
    &&& d.wf()
    &&& d.row_names@ == dates
    &&& d.col_names@ == dates
    &&& forall|i: int, j: int|
        0 <= i < dates.len() && 0 <= j < dates.len() ==> #[trigger] weight_at(d, dates, smooth, i, j)
}

/// Co-change coefficient, accumulated in the order the pairs are visited:
/// bin `j` from `i` down to 0 of bin `i`.
pub open spec fn coeff_inner<T: Copy + Add<Output = T>>(
    f1: Seq<u32>,
    f2: Seq<u32>,
    d: NamedMatrix<i64, i64, T>,
    acc: T,
    i: int,
    j: int,
) -> T
    decreases j + 1,
{
    if j < 0 {
        acc
    } else {
        let next = if f1[i] > 0 && f2[j] == 1 {
            acc.add_spec(d.at(i, j))
        } else {
            acc
        };
        coeff_inner(f1, f2, d, next, i, j - 1)
    }
}

/// Co-change coefficient, accumulated over bins `i` down to 0.
pub open spec fn coeff_outer<T: Copy + Add<Output = T>>(
    f1: Seq<u32>,
    f2: Seq<u32>,
    d: NamedMatrix<i64, i64, T>,
    acc: T,
    i: int,
) -> T
    decreases i + 1,
{
    if i < 0 {
        acc
    } else {
        coeff_outer(f1, f2, d, coeff_inner(f1, f2, d, acc, i, i), i - 1)
    }
}

/// Sum of `d[i][j]` over the bins `i` where `f1` changed and the bins `j <= i`
/// where `f2` changed exactly once, last bins first.
pub open spec fn coefficient<T: Copy + Add<Output = T> + From<u32>>(
    f1: Seq<u32>,
    f2: Seq<u32>,
    d: NamedMatrix<i64, i64, T>,
) -> T {
    coeff_outer(f1, f2, d, T::from_spec(0u32), f1.len() - 1)
}

/// The Naive co-change frequency of the kept rows `a` and `b`, before the floor.
pub open spec fn naive_raw_freq<T: Copy + Add<Output = T> + From<u32>>(
    changes: Changes,
    labels: Seq<usize>,
    d: NamedMatrix<i64, i64, T>,
    a: int,
    b: int,
) -> T {
    if a == b {
        T::from_spec(0u32)
    } else {
        coefficient(changes.freqs.row(labels[a] as int), changes.freqs.row(labels[b] as int), d)
    }
}

/// Column-normalised probability: each cell divided by the sum of its column.
pub open spec fn naive_prob<T: Copy + Add<Output = T> + Div<Output = T> + From<u32>>(
    freqs: CCMatrix<T>,
    i: int,
    j: int,
) -> T {
    freqs.at(i, j).div_spec(fold_sum(T::from_spec(0u32), freqs.column(j)))
}

pub proof fn lemma_coeff_inner_idle<T: Copy + Add<Output = T>>(
    f1: Seq<u32>,
    f2: Seq<u32>,
    d: NamedMatrix<i64, i64, T>,
    acc: T,
    i: int,
    j: int,
)
    requires
        0 <= i < f1.len(),
        f1[i] == 0,
    ensures
        coeff_inner(f1, f2, d, acc, i, j) == acc,
    decreases j + 1,
{
    if j >= 0 {
        lemma_coeff_inner_idle(f1, f2, d, acc, i, j - 1);
    }
}

pub struct NaiveModel;

impl NaiveModel {
    /// The weight of each pair of bins: `1 / smooth(1 + days)` where `days`
    /// is the whole number of days from bin `j` to the later bin `i`, and
    /// zero days on and above the diagonal.
    pub fn dates_distance<T: Copy + From<u32> + Div<Output = T>, F: Fn(T) -> T>(
        dates: &Vec<i64>,
        smooth: F,
    ) -> (d: NamedMatrix<i64, i64, T>)
        requires
            dates@.len() <= u32::MAX,
            wide_index(),
            forall|i: int, j: int| 0 <= i < j < dates@.len() ==> dates@[i] <= dates@[j],
            forall|i: int| 0 <= i < dates@.len() ==> is_instant(#[trigger] dates@[i]),
            forall|x: T| smooth.requires((x,)),
            forall|a: T, b: T| #[trigger] a.div_req(b),
        ensures
            T::obeys_from_spec() && T::obeys_div_spec() ==> is_dates_distance(d, dates@, smooth),
            d.wf(),
            d.row_names@ == dates@,
            d.col_names@ == dates@,
    {
        let m = dates.len();
        proof {
            lemma_wide_product(m as int, m as int);
        }
        let one = T::from(1u32);
        let mut d: NamedMatrix<i64, i64, T> = NamedMatrix::new(
            dates.clone(),
            dates.clone(),
            None,
            None,
            one,
        );
        let mut i: usize = 0;
        while i < m
            invariant
                m == dates@.len(),
                i <= m,
                d.wf(),
                d.row_names@ == dates@,
                d.col_names@ == dates@,
                forall|a: int, b: int| 0 <= a < b < dates@.len() ==> dates@[a] <= dates@[b],
                forall|a: int| 0 <= a < dates@.len() ==> is_instant(#[trigger] dates@[a]),
                forall|x: T| smooth.requires((x,)),
                forall|a: T, b: T| #[trigger] a.div_req(b),
                T::obeys_from_spec() ==> one == T::from_spec(1u32),
                forall|a: int, b: int|
                    0 <= a < i && 0 <= b < m ==> T::obeys_from_spec() && T::obeys_div_spec()
                        ==> #[trigger] weight_at(d, dates@, smooth, a, b),
            decreases m - i,
        {
            let mut j: usize = 0;
            while j < m
                invariant
                    m == dates@.len(),
                    i < m,
                    j <= m,
                    d.wf(),
                    d.row_names@ == dates@,
                    d.col_names@ == dates@,
                    forall|a: int, b: int| 0 <= a < b < dates@.len() ==> dates@[a] <= dates@[b],
                    forall|a: int| 0 <= a < dates@.len() ==> is_instant(#[trigger] dates@[a]),
                    forall|x: T| smooth.requires((x,)),
                    forall|a: T, b: T| #[trigger] a.div_req(b),
                    T::obeys_from_spec() ==> one == T::from_spec(1u32),
                    forall|a: int, b: int|
                        0 <= a < m && 0 <= b < m && (a < i || (a == i && b < j))
                            ==> T::obeys_from_spec() && T::obeys_div_spec()
                            ==> #[trigger] weight_at(d, dates@, smooth, a, b),
                decreases m - j,
            {
                let gap: i64 = if j < i {
                    num_days(dates[i], dates[j])
                } else {
                    0
                };
                proof {
                    if j < i {
                        assert(dates@[j as int] <= dates@[i as int]);
                    }
                    assert(0 <= gap <= 200_000_000);
                }
                let x = T::from((gap + 1) as u32);
                let s = smooth(x);
                let ghost old_d = d;
                d.set(i, j, one / s);
                proof {
                    assert forall|a: int, b: int|
                        0 <= a < m && 0 <= b < m && (a < i || (a == i && b < j + 1))
                            && T::obeys_from_spec() && T::obeys_div_spec() implies #[trigger] weight_at(
                        d,
                        dates@,
                        smooth,
                        a,
                        b,
                    ) by {
                        if a == i && b == j {
                            assert(day_gap(dates@, a, b) == gap);
                            assert(smooth.ensures((T::from_spec((day_gap(dates@, a, b) + 1) as u32),), s));
                        } else {
                            assert(weight_at(old_d, dates@, smooth, a, b));
                            let s2 = choose|s2: T|
                                {
                                    &&& smooth.ensures(
                                        (T::from_spec((day_gap(dates@, a, b) + 1) as u32),),
                                        s2,
                                    )
                                    &&& old_d.at(a, b) == T::from_spec(1u32).div_spec(s2)
                                };
                            assert(d.at(a, b) == old_d.at(a, b));
                            assert(smooth.ensures((T::from_spec((day_gap(dates@, a, b) + 1) as u32),), s2));
                        }
                    }
                }
                j = j + 1;
            }
            i = i + 1;
        }
        d
    }

    /// The co-change coefficient of the change counts `f1` (the impacted
    /// file) and `f2` (the changed file).
    pub fn cc_coefficient<T: Copy + Add<Output = T> + From<u32>>(
        f1: &Vec<u32>,
        f2: &Vec<u32>,
        d: &NamedMatrix<i64, i64, T>,
    ) -> (r: T)
        requires
            d.wf(),
            f2@.len() >= f1@.len(),
            d.nrows() >= f1@.len(),
            d.ncols() >= f1@.len(),
            forall|a: T, b: T| #[trigger] a.add_req(b),
        ensures
            T::obeys_add_spec() && T::obeys_from_spec() ==> r == coefficient(f1@, f2@, *d),
    {
        let n = f1.len();
        let mut coeff = T::from(0u32);
        let ghost goal = coefficient(f1@, f2@, *d);
        let mut i: usize = n;
        while i > 0
            invariant
                i <= n,
                n == f1@.len(),
                d.wf(),
                f2@.len() >= f1@.len(),
                d.nrows() >= f1@.len(),
                d.ncols() >= f1@.len(),
                forall|a: T, b: T| #[trigger] a.add_req(b),
                T::obeys_add_spec() && T::obeys_from_spec() ==> goal == coeff_outer(
                    f1@,
                    f2@,
                    *d,
                    coeff,
                    i - 1,
                ),
            decreases i,
        {
            i = i - 1;
            if f1[i] == 0 {
                proof {
                    lemma_coeff_inner_idle(f1@, f2@, *d, coeff, i as int, i as int);
                }
            } else {
                let mut j: usize = i + 1;
                while j > 0
                    invariant
                        i < n,
                        j <= i + 1,
                        n == f1@.len(),
                        d.wf(),
                        f2@.len() >= f1@.len(),
                        d.nrows() >= f1@.len(),
                        d.ncols() >= f1@.len(),
                        f1@[i as int] > 0,
                        forall|a: T, b: T| #[trigger] a.add_req(b),
                        T::obeys_add_spec() && T::obeys_from_spec() ==> goal == coeff_outer(
                            f1@,
                            f2@,
                            *d,
                            coeff_inner(f1@, f2@, *d, coeff, i as int, j - 1),
                            i - 1,
                        ),
                    decreases j,
                {
                    j = j - 1;
                    if f2[j] == 1 {
                        coeff = coeff + d.get(i, j);
                    }
                }
            }
        }
        coeff
    }

    /// The Naive co-change frequencies: over the files whose change count
    /// reaches `changes_min`, the coefficient of each ordered pair of distinct
    /// files, with the frequency floor applied.
    pub fn calculate_freqs<
        T: Copy + Add<Output = T> + Mul<Output = T> + Div<Output = T> + From<u32> + PartialOrd,
        F: Fn(T) -> T,
    >(changes: &Changes, opts: &CoChangesOpt, smooth: F) -> (r: CCMatrix<T>)
        requires
            changes.wf(),
            arith_defined::<T>(),
            forall|x: T| smooth.requires((x,)),
        ensures
            r.wf(),
            is_square_over(r, kept_rows(changes.c_freq@, opts.changes_min)),
            r.row_dimname matches Some(s) && s@ == "impacted"@,
            r.col_dimname matches Some(s) && s@ == "changed"@,
            T::obeys_add_spec() && T::obeys_div_spec() && T::obeys_from_spec()
                && T::obeys_partial_cmp_spec() ==> exists|d: NamedMatrix<i64, i64, T>|
                {
                    &&& is_dates_distance(d, changes.freqs.col_names@, smooth)
                    &&& forall|a: int, b: int|
                        0 <= a < r.nrows() && 0 <= b < r.ncols() ==> #[trigger] r.at(a, b)
                            == floored(
                            naive_raw_freq(*changes, r.row_names@, d, a, b),
                            opts.freq_min,
                        )
                },
    {
        let labels = filter_rows(changes, opts.changes_min);
        proof {
            lemma_kept_rows(changes.c_freq@, opts.changes_min);
        }
        let n = labels.len();
        let zero = T::from(0u32);
        let mut cc = square_matrix(&labels, "impacted", "changed", zero);
        let d = Self::dates_distance(&changes.freqs.col_names, smooth);
        let rows = row_counts(changes, &labels);
        let mut a: usize = 0;
        while a < n
            invariant
                changes.wf(),
                n == labels@.len(),
                labels@ == kept_rows(changes.c_freq@, opts.changes_min),
                forall|k: int| 0 <= k < n ==> #[trigger] labels@[k] < changes.freqs.nrows(),
                a <= n,
                cc.wf(),
                is_square_over(cc, labels@),
                cc.row_dimname matches Some(s) && s@ == "impacted"@,
                cc.col_dimname matches Some(s) && s@ == "changed"@,
                d.wf(),
                d.nrows() == changes.freqs.ncols(),
                d.ncols() == changes.freqs.ncols(),
                rows@.len() == n,
                forall|k: int| 0 <= k < n ==> (#[trigger] rows@[k])@ == changes.freqs.row(labels@[k] as int),
                arith_defined::<T>(),
                T::obeys_from_spec() ==> zero == T::from_spec(0u32),
                forall|x: int, y: int|
                    0 <= x < n && 0 <= y < n ==> T::obeys_add_spec() && T::obeys_from_spec() ==> #[trigger] cc.at(x, y) == if x < a {
                        naive_raw_freq(*changes, labels@, d, x, y)
                    } else {
                        zero
                    },
            decreases n - a,
        {
            let mut b: usize = 0;
            while b < n
                invariant
                    changes.wf(),
                    n == labels@.len(),
                    labels@ == kept_rows(changes.c_freq@, opts.changes_min),
                    forall|k: int| 0 <= k < n ==> #[trigger] labels@[k] < changes.freqs.nrows(),
                    a < n,
                    b <= n,
                    cc.wf(),
                    is_square_over(cc, labels@),
                    cc.row_dimname matches Some(s) && s@ == "impacted"@,
                    cc.col_dimname matches Some(s) && s@ == "changed"@,
                    d.wf(),
                    d.nrows() == changes.freqs.ncols(),
                    d.ncols() == changes.freqs.ncols(),
                    rows@.len() == n,
                    forall|k: int| 0 <= k < n ==> (#[trigger] rows@[k])@ == changes.freqs.row(labels@[k] as int),
                    arith_defined::<T>(),
                    T::obeys_from_spec() ==> zero == T::from_spec(0u32),
                    forall|x: int, y: int|
                        0 <= x < n && 0 <= y < n ==> T::obeys_add_spec() && T::obeys_from_spec() ==> #[trigger] cc.at(x, y) == if x < a || (x == a && y < b) {
                            naive_raw_freq(*changes, labels@, d, x, y)
                        } else {
                            zero
                        },
                decreases n - b,
            {
                if a != b {
                    let v = Self::cc_coefficient(&rows[a], &rows[b], &d);
                    cc.set(a, b, v);
                }
                b = b + 1;
            }
            a = a + 1;
        }
        filter_freqs(&mut cc, opts.freq_min);
        cc
    }

    /// Divides each cell by the sum of its column; a column that sums to
    /// zero divides by zero, as `T` does.
    pub fn calculate_probs<T: Copy + Add<Output = T> + Div<Output = T> + From<u32>>(
        freqs: &CCMatrix<T>,
    ) -> (r: CCMatrix<T>)
        requires
            freqs.wf(),
            freqs.col_names@ == freqs.row_names@,
            freqs.nrows() <= u32::MAX,
            wide_index(),
            forall|a: T, b: T| #[trigger] a.add_req(b),
            forall|a: T, b: T| #[trigger] a.div_req(b),
        ensures
            r.wf(),
            is_square_over(r, freqs.row_names@),
            r.row_dimname matches Some(s) && s@ == "impacted"@,
            r.col_dimname matches Some(s) && s@ == "changing"@,
            forall|i: int, j: int|
                0 <= i < r.nrows() && 0 <= j < r.ncols() ==> T::obeys_add_spec() && T::obeys_div_spec()
                    && T::obeys_from_spec() ==> #[trigger] r.at(i, j) == naive_prob(*freqs, i, j),
    {
        let n = freqs.nrows_exec();
        let zero = T::from(0u32);
        let mut p = square_matrix(&freqs.row_names, "impacted", "changing", zero);
        let mut j: usize = 0;
        while j < n
            invariant
                freqs.wf(),
                n == freqs.nrows(),
                n == freqs.ncols(),
                j <= n,
                p.wf(),
                is_square_over(p, freqs.row_names@),
                p.row_dimname matches Some(s) && s@ == "impacted"@,
                p.col_dimname matches Some(s) && s@ == "changing"@,
                forall|a: T, b: T| #[trigger] a.add_req(b),
                forall|a: T, b: T| #[trigger] a.div_req(b),
                T::obeys_from_spec() ==> zero == T::from_spec(0u32),
                forall|x: int, y: int|
                    0 <= x < n && 0 <= y < j ==> T::obeys_add_spec() && T::obeys_div_spec()
                        && T::obeys_from_spec() ==> #[trigger] p.at(x, y) == naive_prob(*freqs, x, y),
            decreases n - j,
        {
            let s = column_sum(freqs, j, zero);
            let mut i: usize = 0;
            while i < n
                invariant
                    freqs.wf(),
                    n == freqs.nrows(),
                    n == freqs.ncols(),
                    j < n,
                    i <= n,
                    p.wf(),
                    is_square_over(p, freqs.row_names@),
                    p.row_dimname matches Some(s) && s@ == "impacted"@,
                    p.col_dimname matches Some(s) && s@ == "changing"@,
                    forall|a: T, b: T| #[trigger] a.div_req(b),
                    T::obeys_add_spec() ==> s == fold_sum(zero, freqs.column(j as int)),
                    T::obeys_from_spec() ==> zero == T::from_spec(0u32),
                    forall|x: int, y: int|
                        0 <= x < n && 0 <= y < n && (y < j || (y == j && x < i))
                            ==> T::obeys_add_spec() && T::obeys_div_spec() && T::obeys_from_spec()
                            ==> #[trigger] p.at(x, y) == naive_prob(*freqs, x, y),
                decreases n - i,
            {
                let v = freqs.get(i, j) / s;
                p.set(i, j, v);
                i = i + 1;
            }
            j = j + 1;
        }
        p
    }
}

/// Left-to-right sum of column `j`, starting from `zero`.
pub fn column_sum<R: Copy + Eq + core::hash::Hash, C: Copy + Eq + core::hash::Hash, T: Copy + Add<Output = T>>(
    m: &NamedMatrix<R, C, T>,
    j: usize,
    zero: T,
) -> (s: T)
    requires
        m.wf(),
        j < m.ncols(),
        forall|a: T, b: T| #[trigger] a.add_req(b),
    ensures
        T::obeys_add_spec() ==> s == fold_sum(zero, m.column(j as int)),
{
    let n = m.nrows_exec();
    let mut s = zero;
    let mut i: usize = 0;
    while i < n
        invariant
            m.wf(),
            n == m.nrows(),
            j < m.ncols(),
            i <= n,
            forall|a: T, b: T| #[trigger] a.add_req(b),
            T::obeys_add_spec() ==> s == fold_sum(zero, m.column(j as int).take(i as int)),
        decreases n - i,
    {
        s = s + m.get(i, j);
        proof {
            assert(m.column(j as int).take(i as int + 1).drop_last() =~= m.column(j as int).take(
                i as int,
            ));
        }
        i = i + 1;
    }
    proof {
        assert(m.column(j as int).take(i as int) =~= m.column(j as int));
    }
    s
}

/// The change counts of the given rows of the changes matrix.
pub fn row_counts(changes: &Changes, labels: &Vec<usize>) -> (rows: Vec<Vec<u32>>)
    requires
        changes.wf(),
        forall|k: int| 0 <= k < labels@.len() ==> #[trigger] labels@[k] < changes.freqs.nrows(),
    ensures
        rows@.len() == labels@.len(),
        forall|k: int|
            0 <= k < labels@.len() ==> (#[trigger] rows@[k])@ == changes.freqs.row(labels@[k] as int),
{
    let m = changes.freqs.ncols_exec();
    let mut rows: Vec<Vec<u32>> = Vec::new();
    let mut k: usize = 0;
    while k < labels.len()
        invariant
            changes.wf(),
            m == changes.freqs.ncols(),
            k <= labels@.len(),
            forall|q: int| 0 <= q < labels@.len() ==> #[trigger] labels@[q] < changes.freqs.nrows(),
            rows@.len() == k,
            forall|q: int| 0 <= q < k ==> (#[trigger] rows@[q])@ == changes.freqs.row(labels@[q] as int),
        decreases labels@.len() - k,
    {
        let i = labels[k];
        let mut row: Vec<u32> = Vec::new();
        let mut j: usize = 0;
        while j < m
            invariant
                changes.wf(),
                m == changes.freqs.ncols(),
                i < changes.freqs.nrows(),
                j <= m,
                row@ == changes.freqs.row(i as int).take(j as int),
            decreases m - j,
        {
            row.push(changes.freqs.get(i, j));
            proof {
                assert(row@ =~= changes.freqs.row(i as int).take(j as int + 1));
            }
            j = j + 1;
        }
        proof {
            assert(row@ =~= changes.freqs.row(i as int));
        }
        rows.push(row);
        k = k + 1;
    }
    rows
}

} // verus!
