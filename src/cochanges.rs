use crate::changes::{lemma_wide_product, wide_index, Changes};
use crate::matrix::NamedMatrix;
use crate::model::{freqs_spec, probs_spec, Model, ModelTypes};
use core::cmp::Ordering;
use core::ops::{Add, Div, Mul};
use vstd::prelude::*;
use vstd::std_specs::cmp::PartialOrdSpec;
use vstd::std_specs::convert::FromSpec;
use vstd::std_specs::ops::{AddSpec, DivSpec, MulSpec};

verus! {

broadcast use vstd::std_specs::hash::group_hash_axioms;

/// A file-by-file matrix; both axes are labelled with file ids of the pool.
pub type CCMatrix<T> = NamedMatrix<usize, usize, T>;

/// The options of the co-change step: the least total change count of a
/// file, the frequency floor and the algorithm.
pub struct CoChangesOpt {
    pub changes_min: u32,
    pub freq_min: u32,
    pub algorithm: ModelTypes,
}

impl Clone for CoChangesOpt {
    fn clone(&self) -> (r: Self)
        ensures
            r == *self,
    {
        CoChangesOpt {
            changes_min: self.changes_min,
            freq_min: self.freq_min,
            algorithm: self.algorithm,
        }
    }
}

/// The co-change frequency matrix and the co-change probability matrix.
pub struct CoChanges<T> {
    pub freqs: CCMatrix<T>,
    pub probs: CCMatrix<T>,
}

/// The arithmetic of `T` accepts every pair of operands.
pub open spec fn arith_defined<T: Add<Output = T> + Mul<Output = T> + Div<Output = T>>() -> bool {
    &&& forall|a: T, b: T| #[trigger] a.add_req(b)
    &&& forall|a: T, b: T| #[trigger] a.mul_req(b)
    &&& forall|a: T, b: T| #[trigger] a.div_req(b)
}

/// The operations of `T` follow their vstd models.
pub open spec fn arith_modelled<
    T: Add<Output = T> + Mul<Output = T> + Div<Output = T> + From<u32> + PartialOrd,
>() -> bool {
    &&& T::obeys_add_spec()
    &&& T::obeys_mul_spec()
    &&& T::obeys_div_spec()
    &&& T::obeys_from_spec()
    &&& T::obeys_partial_cmp_spec()
}

/// `a <= b` in the partial order of `T`.
pub open spec fn at_most<T: PartialOrd>(a: T, b: T) -> bool {
    a.partial_cmp_spec(&b) matches Some(Ordering::Less | Ordering::Equal)
}

/// The rows that take part in co-change: those whose total change count
/// reaches `min`, in their original order.
pub open spec fn kept_rows(c_freq: Seq<u32>, min: u32) -> Seq<usize>
    decreases c_freq.len(),
{
    if c_freq.len() == 0 {
        Seq::empty()
    } else if c_freq.last() >= min {
        kept_rows(c_freq.drop_last(), min).push((c_freq.len() - 1) as usize)
    } else {
        kept_rows(c_freq.drop_last(), min)
    }
}

pub proof fn lemma_kept_rows(c_freq: Seq<u32>, min: u32)
    requires
        c_freq.len() <= usize::MAX,
    ensures
        forall|a: int, b: int|
            0 <= a < b < kept_rows(c_freq, min).len() ==> kept_rows(c_freq, min)[a] < kept_rows(
                c_freq,
                min,
            )[b],
        forall|a: int|
            0 <= a < kept_rows(c_freq, min).len() ==> #[trigger] kept_rows(c_freq, min)[a]
                < c_freq.len() && c_freq[kept_rows(c_freq, min)[a] as int] >= min,
        forall|i: int|
            0 <= i < c_freq.len() && c_freq[i] >= min ==> kept_rows(c_freq, min).contains(
                i as usize,
            ),
        kept_rows(c_freq, min).len() <= c_freq.len(),
    decreases c_freq.len(),
{
    if c_freq.len() > 0 {
        let init = c_freq.drop_last();
        lemma_kept_rows(init, min);
        let k = kept_rows(init, min);
        assert forall|i: int| 0 <= i < c_freq.len() && c_freq[i] >= min implies kept_rows(
            c_freq,
            min,
        ).contains(i as usize) by {
            if i < c_freq.len() - 1 {
                assert(init[i] == c_freq[i]);
                let a = choose|a: int| 0 <= a < k.len() && k[a] == i as usize;
                if c_freq.last() >= min {
                    assert(kept_rows(c_freq, min)[a] == i as usize);
                }
            } else {
                assert(kept_rows(c_freq, min)[k.len() as int] == i as usize);
            }
        }
    }
}

/// The rows of the changes matrix whose total change count reaches `min`,
/// in their original order.
pub fn filter_rows(changes: &Changes, min: u32) -> (r: Vec<usize>)
    requires
        changes.wf(),
    ensures
        r@ == kept_rows(changes.c_freq@, min),
{
    let n = changes.c_freq.len();
    let mut r: Vec<usize> = Vec::new();
    let mut i: usize = 0;
    while i < n
        invariant
            n == changes.c_freq@.len(),
            i <= n,
            r@ == kept_rows(changes.c_freq@.take(i as int), min),
        decreases n - i,
    {
        proof {
            assert(changes.c_freq@.take(i as int + 1).drop_last() =~= changes.c_freq@.take(i as int));
        }
        if changes.c_freq[i] >= min {
            r.push(i);
        }
        i = i + 1;
    }
    proof {
        assert(changes.c_freq@.take(i as int) =~= changes.c_freq@);
    }
    r
}

/// A square matrix labelled on both axes by `labels`.
pub open spec fn is_square_over<T>(m: CCMatrix<T>, labels: Seq<usize>) -> bool {
    &&& m.row_names@ == labels
    &&& m.col_names@ == labels
}

/// A zero-filled square matrix labelled on both axes by `labels`.
pub fn square_matrix<T: Copy>(
    labels: &Vec<usize>,
    row_dimname: &str,
    col_dimname: &str,
    zero: T,
) -> (m: CCMatrix<T>)
    requires
        labels@.len() <= u32::MAX,
        wide_index(),
    ensures
        m.wf(),
        is_square_over(m, labels@),
        forall|i: int, j: int| 0 <= i < m.nrows() && 0 <= j < m.ncols() ==> m.at(i, j) == zero,
        m.row_dimname matches Some(s) && s@ == row_dimname@,
        m.col_dimname matches Some(s) && s@ == col_dimname@,
{
    proof {
        lemma_wide_product(labels@.len() as int, labels@.len() as int);
    }
    NamedMatrix::new(labels.clone(), labels.clone(), Some(row_dimname), Some(col_dimname), zero)
}

/// What the frequency floor leaves of a cell.
pub open spec fn floored<T: PartialOrd + From<u32>>(v: T, min: u32) -> T {
    if at_most(v, T::from_spec(min)) {
        T::from_spec(0u32)
    } else {
        v
    }
}

/// Sets to zero every cell that is at most `min`.
pub fn filter_freqs<T: Copy + PartialOrd + From<u32>>(freqs: &mut CCMatrix<T>, min: u32)
    requires
        old(freqs).wf(),
    ensures
        final(freqs).wf(),
        final(freqs).row_names@ == old(freqs).row_names@,
        final(freqs).col_names@ == old(freqs).col_names@,
        final(freqs).row_dimname == old(freqs).row_dimname,
        final(freqs).col_dimname == old(freqs).col_dimname,
        forall|i: int, j: int|
            0 <= i < final(freqs).nrows() && 0 <= j < final(freqs).ncols() ==> T::obeys_from_spec()
                && T::obeys_partial_cmp_spec() ==> #[trigger] final(freqs).at(i, j) == floored(
                old(freqs).at(i, j),
                min,
            ),
{
    let ghost start = *freqs;
    let n = freqs.nrows_exec();
    let m = freqs.ncols_exec();
    let floor = T::from(min);
    let mut i: usize = 0;
    while i < n
        invariant
            freqs.wf(),
            n == freqs.nrows(),
            m == freqs.ncols(),
            i <= n,
            T::obeys_from_spec() ==> floor == T::from_spec(min),
            freqs.row_names@ == start.row_names@,
            freqs.col_names@ == start.col_names@,
            freqs.row_dimname == start.row_dimname,
            freqs.col_dimname == start.col_dimname,
            forall|a: int, b: int|
                0 <= a < n && 0 <= b < m ==> T::obeys_from_spec() && T::obeys_partial_cmp_spec()
                    ==> #[trigger] freqs.at(a, b) == if a < i {
                    floored(start.at(a, b), min)
                } else {
                    start.at(a, b)
                },
        decreases n - i,
    {
        let mut j: usize = 0;
        while j < m
            invariant
                freqs.wf(),
                n == freqs.nrows(),
                m == freqs.ncols(),
                i < n,
                j <= m,
                T::obeys_from_spec() ==> floor == T::from_spec(min),
                freqs.row_names@ == start.row_names@,
                freqs.col_names@ == start.col_names@,
                freqs.row_dimname == start.row_dimname,
                freqs.col_dimname == start.col_dimname,
                forall|a: int, b: int|
                    0 <= a < n && 0 <= b < m ==> T::obeys_from_spec() && T::obeys_partial_cmp_spec()
                        ==> #[trigger] freqs.at(a, b) == if a < i || (a == i && b < j) {
                        floored(start.at(a, b), min)
                    } else {
                        start.at(a, b)
                    },
            decreases m - j,
        {
            let v = freqs.get(i, j);
            if v <= floor {
                freqs.set(i, j, T::from(0u32));
            }
            j = j + 1;
        }
        i = i + 1;
    }
}

/// Left-to-right sum of `s`, starting from `zero`, as `T` adds.
pub open spec fn fold_sum<T: Add<Output = T>>(zero: T, s: Seq<T>) -> T
    decreases s.len(),
{
    if s.len() == 0 {
        zero
    } else {
        fold_sum(zero, s.drop_last()).add_spec(s.last())
    }
}

/// The algorithm that `t` selects.
pub open spec fn model_of(t: ModelTypes) -> Model {
    match t {
        ModelTypes::Naive => Model::Naive(crate::naive::NaiveModel),
        ModelTypes::Bayes => Model::Bayes(crate::bayes::BayesianModel),
        ModelTypes::Mixed => Model::Mixed(crate::bayes::MixedModel),
        ModelTypes::Nop => Model::Nop(crate::nop::NopModel),
    }
}

/// `cc` holds the co-changes of `changes` under `opts`: the frequencies and
/// probabilities of the selected algorithm, the probabilities computed from
/// those very frequencies.
pub open spec fn is_cochanges_of<
    T: Copy + Add<Output = T> + Mul<Output = T> + Div<Output = T> + From<u32> + PartialOrd,
    F: Fn(T) -> T,
>(cc: CoChanges<T>, changes: Changes, opts: CoChangesOpt, smooth: F) -> bool {
    &&& freqs_spec(model_of(opts.algorithm), changes, opts, smooth, cc.freqs)
    &&& probs_spec(model_of(opts.algorithm), changes, cc.freqs, cc.probs)
}

impl<T: Copy + Add<Output = T> + Mul<Output = T> + Div<Output = T> + From<u32> + PartialOrd> CoChanges<T> {
    /// Frequencies, then probabilities, with the algorithm that `opts` selects.
    pub fn from_changes<F: Fn(T) -> T>(changes: &Changes, opts: &CoChangesOpt, smooth: F) -> (r: Self)
        requires
            changes.wf(),
            arith_defined::<T>(),
            forall|x: T| smooth.requires((x,)),
        ensures
            is_cochanges_of(r, *changes, *opts, smooth),
            r.freqs.wf(),
            r.probs.wf(),
            r.freqs.col_names@ == r.freqs.row_names@,
            r.probs.row_names@ == r.freqs.row_names@,
            r.probs.col_names@ == r.freqs.row_names@,
            forall|k: int|
                0 <= k < r.freqs.nrows() ==> #[trigger] r.freqs.row_names@[k] < changes.freqs.nrows()
                    && changes.c_freq@[r.freqs.row_names@[k] as int] >= opts.changes_min,
            opts.algorithm == ModelTypes::Nop ==> r.freqs.nrows() == 0 && r.probs.nrows() == 0,
    {
        let model = opts.algorithm.get_model();
        let freqs = model.calculate_freqs(changes, opts, smooth);
        proof {
            lemma_kept_rows(changes.c_freq@, opts.changes_min);
            assert(freqs.col_names@ =~= freqs.row_names@);
        }
        let probs = model.calculate_probs(changes, &freqs);
        CoChanges { freqs, probs }
    }
}

} // verus!
