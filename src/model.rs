use crate::bayes::{bayes_prob, bayes_raw_freq, BayesianModel, MixedModel};
use crate::changes::Changes;
use crate::cochanges::{arith_defined, floored, is_square_over, kept_rows, CCMatrix, CoChangesOpt};
use crate::naive::{is_dates_distance, naive_prob, naive_raw_freq, NaiveModel};
use crate::labels::same_text;
use crate::matrix::NamedMatrix;
use crate::nop::NopModel;
use crate::predict::{is_ripple, ripple, CRVector};
use core::ops::{Add, Div, Mul};
use vstd::prelude::*;
use vstd::std_specs::cmp::PartialOrdSpec;
use vstd::std_specs::convert::FromSpec;
use vstd::std_specs::ops::{AddSpec, DivSpec, MulSpec};

verus! {

broadcast use vstd::std_specs::hash::group_hash_axioms;

/// The co-change algorithm.
#[derive(Clone, Copy, Debug, PartialEq, Eq, Structural)]
pub enum ModelTypes {
    Naive,
    Bayes,
    Mixed,
    Nop,
}

/// An algorithm with its three behaviours: frequencies, probabilities and
/// ripple prediction.
pub enum Model {
    Naive(NaiveModel),
    Bayes(BayesianModel),
    Mixed(MixedModel),
    Nop(NopModel),
}

/// The lower-case name of an algorithm.
pub open spec fn model_name(m: ModelTypes) -> Seq<char> {
    match m {
        ModelTypes::Naive => "naive"@,
        ModelTypes::Bayes => "bayes"@,
        ModelTypes::Mixed => "mixed"@,
        ModelTypes::Nop => "nop"@,
    }
}

impl ModelTypes {
    /// The algorithm whose lower-case name is `name`, if any.
    pub fn from_name(name: &str) -> (r: Option<ModelTypes>)
        ensures
            match r {
                Some(m) => name@ == model_name(m),
                None => forall|m: ModelTypes| name@ != model_name(m),
            },
    {
        proof {
            reveal_strlit("naive");
            reveal_strlit("bayes");
            reveal_strlit("mixed");
            reveal_strlit("nop");
            assert("naive"@[0] == 'n' && "bayes"@[0] == 'b' && "mixed"@[0] == 'm');
            assert("naive"@.len() == 5 && "bayes"@.len() == 5 && "mixed"@.len() == 5);
            assert("nop"@.len() == 3);
        }
        if same_text(name, "naive") {
            Some(ModelTypes::Naive)
        } else if same_text(name, "bayes") {
            Some(ModelTypes::Bayes)
        } else if same_text(name, "mixed") {
            Some(ModelTypes::Mixed)
        } else if same_text(name, "nop") {
            Some(ModelTypes::Nop)
        } else {
            None
        }
    }

    pub fn get_model(&self) -> (m: Model)
        ensures
            *self == ModelTypes::Naive <==> m is Naive,
            *self == ModelTypes::Bayes <==> m is Bayes,
            *self == ModelTypes::Mixed <==> m is Mixed,
            *self == ModelTypes::Nop <==> m is Nop,
    {
        match self {
            ModelTypes::Naive => Model::Naive(NaiveModel),
            ModelTypes::Bayes => Model::Bayes(BayesianModel),
            ModelTypes::Mixed => Model::Mixed(MixedModel),
            ModelTypes::Nop => Model::Nop(NopModel),
        }
    }

    /// The name of the algorithm, in lower case.
    pub fn name(&self) -> (s: &'static str)
        ensures
            s@ == model_name(*self),
    {
        match self {
            ModelTypes::Naive => "naive",
            ModelTypes::Bayes => "bayes",
            ModelTypes::Mixed => "mixed",
            ModelTypes::Nop => "nop",
        }
    }
}

/// What the frequency step of `model` yields on `changes`.
pub open spec fn freqs_spec<
    T: Copy + Add<Output = T> + Mul<Output = T> + Div<Output = T> + From<u32> + PartialOrd,
    F: Fn(T) -> T,
>(model: Model, changes: Changes, opts: CoChangesOpt, smooth: F, r: CCMatrix<T>) -> bool {
    &&& r.wf()
    &&& match model {
        Model::Nop(_) => r.nrows() == 0 && r.ncols() == 0,
        Model::Bayes(_) => {
            &&& is_square_over(r, kept_rows(changes.c_freq@, opts.changes_min))
            &&& T::obeys_from_spec() && T::obeys_partial_cmp_spec() ==> forall|a: int, b: int|
                0 <= a < r.nrows() && 0 <= b < r.ncols() ==> #[trigger] r.at(a, b) == floored(
                    bayes_raw_freq::<T>(changes, r.row_names@, a, b),
                    opts.freq_min,
                )
        },
        _ => {
            &&& is_square_over(r, kept_rows(changes.c_freq@, opts.changes_min))
            &&& T::obeys_add_spec() && T::obeys_div_spec() && T::obeys_from_spec()
                && T::obeys_partial_cmp_spec() ==> exists|d: NamedMatrix<i64, i64, T>|
                {
                    &&& is_dates_distance(d, changes.freqs.col_names@, smooth)
                    &&& forall|a: int, b: int|
                        0 <= a < r.nrows() && 0 <= b < r.ncols() ==> #[trigger] r.at(a, b)
                            == floored(naive_raw_freq(changes, r.row_names@, d, a, b), opts.freq_min)
                }
        },
    }
}

/// What the probability step of `model` yields from `freqs`.
pub open spec fn probs_spec<T: Copy + Add<Output = T> + Mul<Output = T> + Div<Output = T> + From<u32>>(
    model: Model,
    changes: Changes,
    freqs: CCMatrix<T>,
    r: CCMatrix<T>,
) -> bool {
    &&& r.wf()
    &&& match model {
        Model::Nop(_) => r.nrows() == 0 && r.ncols() == 0,
        Model::Naive(_) => {
            &&& is_square_over(r, freqs.row_names@)
            &&& T::obeys_add_spec() && T::obeys_div_spec() && T::obeys_from_spec() ==> forall|
                i: int,
                j: int,
            |
                0 <= i < r.nrows() && 0 <= j < r.ncols() ==> #[trigger] r.at(i, j) == naive_prob(
                    freqs,
                    i,
                    j,
                )
        },
        _ => {
            &&& is_square_over(r, freqs.row_names@)
            &&& T::obeys_mul_spec() && T::obeys_div_spec() && T::obeys_from_spec() ==> forall|
                a: int,
                b: int,
            |
                0 <= a < r.nrows() && 0 <= b < r.ncols() ==> #[trigger] r.at(a, b) == bayes_prob(
                    freqs,
                    changes.c_freq@,
                    changes.freqs.nrows() as u32,
                    changes.freqs.ncols() as u32,
                    a,
                    b,
                )
        },
    }
}

impl Model {
    /// The co-change frequencies; `smooth` is the smoothing of day distances
    /// that the Naive frequencies use.
    pub fn calculate_freqs<
        T: Copy + Add<Output = T> + Mul<Output = T> + Div<Output = T> + From<u32> + PartialOrd,
        F: Fn(T) -> T,
    >(&self, changes: &Changes, opts: &CoChangesOpt, smooth: F) -> (r: CCMatrix<T>)
        requires
            changes.wf(),
            arith_defined::<T>(),
            forall|x: T| smooth.requires((x,)),
        ensures
            freqs_spec(*self, *changes, *opts, smooth, r),
    {
        match self {
            Model::Naive(_) | Model::Mixed(_) => NaiveModel::calculate_freqs(changes, opts, smooth),
            Model::Bayes(_) => BayesianModel::calculate_freqs(changes, opts),
            Model::Nop(_) => NopModel::empty(T::from(0u32)),
        }
    }

    /// The co-change probabilities from the frequencies `freqs`.
    pub fn calculate_probs<T: Copy + Add<Output = T> + Mul<Output = T> + Div<Output = T> + From<u32>>(
        &self,
        changes: &Changes,
        freqs: &CCMatrix<T>,
    ) -> (r: CCMatrix<T>)
        requires
            changes.wf(),
            freqs.wf(),
            freqs.col_names@ == freqs.row_names@,
            forall|k: int|
                0 <= k < freqs.nrows() ==> #[trigger] freqs.row_names@[k] < changes.freqs.nrows(),
            freqs.nrows() <= changes.freqs.nrows(),
            arith_defined::<T>(),
        ensures
            probs_spec(*self, *changes, *freqs, r),
    {
        match self {
            Model::Naive(_) => NaiveModel::calculate_probs(freqs),
            Model::Bayes(_) | Model::Mixed(_) => BayesianModel::calculate_probs(changes, freqs),
            Model::Nop(_) => NopModel::empty(T::from(0u32)),
        }
    }

    /// The ripple of the changed files (ids of the pool `files`): the Naive
    /// algorithm averages the columns it sums, the Bayesian and Mixed ones do
    /// not, and the no-op one predicts nothing.
    pub fn predict<T: Copy + Add<Output = T> + Div<Output = T> + From<u32>>(
        &self,
        probs: &CCMatrix<T>,
        files: &Vec<String>,
        changed: &Vec<usize>,
    ) -> (r: CRVector<T>)
        requires
            probs.wf(),
            forall|k: int| 0 <= k < probs.nrows() ==> #[trigger] probs.row_names@[k] < files@.len(),
            changed@.len() <= u32::MAX,
            forall|a: T, b: T| #[trigger] a.add_req(b),
            forall|a: T, b: T| #[trigger] a.div_req(b),
        ensures
            *self is Nop ==> r@.len() == 0,
            !(*self is Nop) ==> is_ripple(r@, *probs, files@, changed@, *self is Naive),
    {
        match self {
            Model::Naive(_) => ripple(probs, files, changed, true),
            Model::Bayes(_) | Model::Mixed(_) => ripple(probs, files, changed, false),
            Model::Nop(_) => NopModel::predict(),
        }
    }
}

} // verus!
