use crate::changes::Changes;
use crate::cochanges::{fold_sum, CCMatrix, CoChanges};
use crate::labels::views;
use crate::matrix::column_positions;
use crate::model::ModelTypes;
use core::ops::{Add, Div};
use vstd::prelude::*;
use vstd::std_specs::convert::FromSpec;
use vstd::std_specs::ops::{AddSpec, DivSpec};

verus! {

broadcast use vstd::std_specs::hash::group_hash_axioms;

/// The prediction window and the algorithm that predicts.
pub struct PredictionOpt {
    pub skip: bool,
    pub since_changes: i64,
    pub until_changes: i64,
    pub algorithm: ModelTypes,
}

impl Clone for PredictionOpt {
    fn clone(&self) -> (r: Self)
        ensures
            r == *self,
    {
        PredictionOpt {
            skip: self.skip,
            since_changes: self.since_changes,
            until_changes: self.until_changes,
            algorithm: self.algorithm,
        }
    }
}

/// Label and impact probability of each file.
pub type CRVector<T> = Vec<(String, T)>;

/// The files that changed in the window and the ripple they predict.
pub struct RippleChangeProbabilities<T> {
    pub changing_files: Vec<String>,
    pub ripples: CRVector<T>,
}

pub open spec fn in_window(b: i64, since: i64, until: i64) -> bool {
    since <= b <= until
}

/// Rows that changed in some bin of `start..end` (the end bin left out),
/// in row order.
pub open spec fn changing_rows(changes: Changes, start: int, end: int, n: int) -> Seq<usize>
    decreases n,
{
    if n <= 0 {
        Seq::empty()
    } else if exists|j: int| start <= j < end && #[trigger] changes.freqs.at(n - 1, j) > 0 {
        changing_rows(changes, start, end, n - 1).push((n - 1) as usize)
    } else {
        changing_rows(changes, start, end, n - 1)
    }
}

/// Sum over the columns `cols` of row `i`, left to right from `zero`.
pub open spec fn row_sum_over<T: Copy + Add<Output = T> + From<u32>>(
    probs: CCMatrix<T>,
    cols: Seq<usize>,
    i: int,
) -> T {
    fold_sum(T::from_spec(0u32), cols.map_values(|c: usize| probs.at(i, c as int)))
}

/// The ripple value of row `i` when the columns `cols` changed: the sum of
/// those columns, averaged over them when `average` holds.
pub open spec fn ripple_value<T: Copy + Add<Output = T> + Div<Output = T> + From<u32>>(
    probs: CCMatrix<T>,
    cols: Seq<usize>,
    i: int,
    average: bool,
) -> T {
    if average {
        row_sum_over(probs, cols, i).div_spec(T::from_spec(cols.len() as u32))
    } else {
        row_sum_over(probs, cols, i)
    }
}

/// `r` has one entry per row of `probs`, named after the row's file and
/// valued as `ripple_value` over the columns of the changed files.
pub open spec fn is_ripple<T: Copy + Add<Output = T> + Div<Output = T> + From<u32>>(
    r: Seq<(String, T)>,
    probs: CCMatrix<T>,
    files: Seq<String>,
    changed: Seq<usize>,
    average: bool,
) -> bool {
    &&& r.len() == probs.nrows()
    &&& forall|i: int|
        0 <= i < r.len() ==> (#[trigger] r[i]).0@ == files[probs.row_names@[i] as int]@
    &&& T::obeys_add_spec() && T::obeys_div_spec() && T::obeys_from_spec() ==> forall|i: int|
        0 <= i < r.len() ==> (#[trigger] r[i]).1 == ripple_value(
            probs,
            column_positions(probs.col_names@, changed),
            i,
            average,
        )
}

pub proof fn lemma_column_positions<C>(labels: Seq<C>, names: Seq<C>)
    requires
        labels.len() <= usize::MAX,
    ensures
        column_positions(labels, names).len() <= names.len(),
        forall|k: int|
            0 <= k < column_positions(labels, names).len() ==> #[trigger] column_positions(
                labels,
                names,
            )[k] < labels.len(),
    decreases names.len(),
{
    if names.len() > 0 {
        lemma_column_positions(labels, names.drop_last());
        crate::matrix::lemma_label_index(labels, names.last());
    }
}

/// For each row of `probs`, its file label and the sum (or, with `average`,
/// the mean) of the columns of the changed files; changed files that
/// `probs` does not hold are left out.
pub fn ripple<T: Copy + Add<Output = T> + Div<Output = T> + From<u32>>(
    probs: &CCMatrix<T>,
    files: &Vec<String>,
    changed: &Vec<usize>,
    average: bool,
) -> (r: CRVector<T>)
    requires
        probs.wf(),
        forall|k: int| 0 <= k < probs.nrows() ==> #[trigger] probs.row_names@[k] < files@.len(),
        changed@.len() <= u32::MAX,
        forall|a: T, b: T| #[trigger] a.add_req(b),
        forall|a: T, b: T| #[trigger] a.div_req(b),
    ensures
        is_ripple(r@, *probs, files@, changed@, average),
{
    let cols = probs.slice_columns(changed);
    proof {
        lemma_column_positions(probs.col_names@, changed@);
    }
    let n = probs.nrows_exec();
    let zero = T::from(0u32);
    let count = T::from(cols.len() as u32);
    let mut r: CRVector<T> = Vec::new();
    let mut i: usize = 0;
    while i < n
        invariant
            probs.wf(),
            n == probs.nrows(),
            i <= n,
            forall|k: int| 0 <= k < probs.nrows() ==> #[trigger] probs.row_names@[k] < files@.len(),
            cols@ == column_positions(probs.col_names@, changed@),
            cols@.len() <= changed@.len() <= u32::MAX,
            forall|k: int| 0 <= k < cols@.len() ==> #[trigger] cols@[k] < probs.ncols(),
            forall|a: T, b: T| #[trigger] a.add_req(b),
            forall|a: T, b: T| #[trigger] a.div_req(b),
            T::obeys_from_spec() ==> zero == T::from_spec(0u32),
            T::obeys_from_spec() ==> count == T::from_spec(cols@.len() as u32),
            r@.len() == i,
            forall|k: int|
                0 <= k < i ==> (#[trigger] r@[k]).0@ == files@[probs.row_names@[k] as int]@,
            T::obeys_add_spec() && T::obeys_div_spec() && T::obeys_from_spec() ==> forall|k: int|
                0 <= k < i ==> (#[trigger] r@[k]).1 == ripple_value(*probs, cols@, k, average),
        decreases n - i,
    {
        let mut s = zero;
        let mut q: usize = 0;
        while q < cols.len()
            invariant
                probs.wf(),
                i < n,
                n == probs.nrows(),
                q <= cols@.len(),
                forall|k: int| 0 <= k < cols@.len() ==> #[trigger] cols@[k] < probs.ncols(),
                forall|a: T, b: T| #[trigger] a.add_req(b),
                T::obeys_from_spec() ==> zero == T::from_spec(0u32),
                T::obeys_add_spec() && T::obeys_from_spec() ==> s == fold_sum(
                    T::from_spec(0u32),
                    cols@.take(q as int).map_values(|c: usize| probs.at(i as int, c as int)),
                ),
            decreases cols@.len() - q,
        {
            s = s + probs.get(i, cols[q]);
            proof {
                assert(cols@.take(q as int + 1).map_values(|c: usize| probs.at(i as int, c as int)).drop_last()
                    =~= cols@.take(q as int).map_values(|c: usize| probs.at(i as int, c as int)));
            }
            q = q + 1;
        }
        proof {
            assert(cols@.take(q as int) =~= cols@);
        }
        let v = if average {
            s / count
        } else {
            s
        };
        let name = files[probs.row_names[i]].clone();
        r.push((name, v));
        i = i + 1;
    }
    r
}

/// Whether some bin in the window exists, and the first and the last one.
pub fn window_bounds(bins: &Vec<i64>, since: i64, until: i64) -> (r: Option<(usize, usize)>)
    ensures
        match r {
            None => forall|j: int| 0 <= j < bins@.len() ==> !in_window(#[trigger] bins@[j], since, until),
            Some((s, e)) => {
                &&& s <= e < bins@.len()
                &&& in_window(bins@[s as int], since, until)
                &&& in_window(bins@[e as int], since, until)
                &&& forall|j: int|
                    0 <= j < bins@.len() && in_window(#[trigger] bins@[j], since, until) ==> s <= j <= e
            },
        },
{
    let mut found: Option<(usize, usize)> = None;
    let mut j: usize = 0;
    while j < bins.len()
        invariant
            j <= bins@.len(),
            match found {
                None => forall|k: int| 0 <= k < j ==> !in_window(#[trigger] bins@[k], since, until),
                Some((s, e)) => {
                    &&& s <= e < j
                    &&& in_window(bins@[s as int], since, until)
                    &&& in_window(bins@[e as int], since, until)
                    &&& forall|k: int|
                        0 <= k < j && in_window(#[trigger] bins@[k], since, until) ==> s <= k <= e
                },
            },
        decreases bins@.len() - j,
    {
        if since <= bins[j] && bins[j] <= until {
            found = match found {
                None => Some((j, j)),
                Some((s, _)) => Some((s, j)),
            };
        }
        j = j + 1;
    }
    found
}

/// `r` is what the prediction window of `opt` gives: nothing when `skip`
/// holds or no bin lies in the window; otherwise the files that changed from
/// the first bin of the window up to the last one (left out), and the ripple
/// of the selected algorithm over them.
pub open spec fn is_ripple_of<T: Copy + Add<Output = T> + Div<Output = T> + From<u32>>(
    r: RippleChangeProbabilities<T>,
    cc: CoChanges<T>,
    changes: Changes,
    opt: PredictionOpt,
) -> bool {
    &&& (opt.skip ==> r.changing_files@.len() == 0 && r.ripples@.len() == 0)
    &&& ((forall|j: int|
        0 <= j < changes.freqs.ncols() ==> !in_window(
            #[trigger] changes.freqs.col_names@[j],
            opt.since_changes,
            opt.until_changes,
        )) ==> r.changing_files@.len() == 0 && r.ripples@.len() == 0)
    &&& (!opt.skip && (exists|j: int|
        0 <= j < changes.freqs.ncols() && in_window(
            #[trigger] changes.freqs.col_names@[j],
            opt.since_changes,
            opt.until_changes,
        )) ==> exists|s: int, e: int|
        {
            &&& 0 <= s <= e < changes.freqs.ncols()
            &&& in_window(changes.freqs.col_names@[s], opt.since_changes, opt.until_changes)
            &&& in_window(changes.freqs.col_names@[e], opt.since_changes, opt.until_changes)
            &&& forall|j: int|
                0 <= j < changes.freqs.ncols() && in_window(
                    #[trigger] changes.freqs.col_names@[j],
                    opt.since_changes,
                    opt.until_changes,
                ) ==> s <= j <= e
            &&& views(r.changing_files@) == changing_rows(
                changes,
                s,
                e,
                changes.freqs.nrows() as int,
            ).map_values(|i: usize| changes.files@[i as int]@)
            &&& (opt.algorithm == ModelTypes::Nop ==> r.ripples@.len() == 0)
            &&& (opt.algorithm != ModelTypes::Nop ==> is_ripple(
                r.ripples@,
                cc.probs,
                changes.files@,
                changing_rows(changes, s, e, changes.freqs.nrows() as int),
                opt.algorithm == ModelTypes::Naive,
            ))
        })
}

impl<T: Copy + Add<Output = T> + Div<Output = T> + From<u32>> RippleChangeProbabilities<T> {
    pub fn new() -> (r: Self)
        ensures
            r.changing_files@.len() == 0,
            r.ripples@.len() == 0,
    {
        RippleChangeProbabilities { changing_files: Vec::new(), ripples: Vec::new() }
    }

    /// The files that changed between the first bin of the window and the
    /// last one (that last bin left out), and the ripple that the selected
    /// algorithm predicts from them; nothing when `skip` holds or no bin
    /// lies in the window.
    pub fn from(cc: &CoChanges<T>, changes: &Changes, opt: &PredictionOpt) -> (r: Self)
        requires
            changes.wf(),
            cc.probs.wf(),
            forall|k: int|
                0 <= k < cc.probs.nrows() ==> #[trigger] cc.probs.row_names@[k] < changes.files@.len(),
            forall|a: T, b: T| #[trigger] a.add_req(b),
            forall|a: T, b: T| #[trigger] a.div_req(b),
        ensures
            is_ripple_of(r, *cc, *changes, *opt),
    {
        if opt.skip {
            return Self::new();
        }
        let bounds = window_bounds(&changes.freqs.col_names, opt.since_changes, opt.until_changes);
        let (start, end) = match bounds {
            None => {
                return Self::new();
            },
            Some(b) => b,
        };
        let n = changes.n_files();
        let mut changing: Vec<usize> = Vec::new();
        let mut changing_files: Vec<String> = Vec::new();
        let mut i: usize = 0;
        while i < n
            invariant
                changes.wf(),
                n == changes.freqs.nrows(),
                i <= n,
                start <= end < changes.freqs.ncols(),
                changing@ == changing_rows(*changes, start as int, end as int, i as int),
                views(changing_files@) == changing@.map_values(|k: usize| changes.files@[k as int]@),
                changing@.len() <= i,
                forall|k: int| 0 <= k < changing@.len() ==> #[trigger] changing@[k] < i,
            decreases n - i,
        {
            let mut hit = false;
            let mut j: usize = start;
            while j < end
                invariant
                    changes.wf(),
                    i < n,
                    n == changes.freqs.nrows(),
                    start <= j <= end < changes.freqs.ncols(),
                    hit ==> exists|q: int| start <= q < end && #[trigger] changes.freqs.at(i as int, q) > 0,
                    !hit ==> forall|q: int| start <= q < j ==> #[trigger] changes.freqs.at(i as int, q) == 0,
                decreases end - j,
            {
                if changes.freqs.get(i, j) > 0 {
                    hit = true;
                    j = end;
                } else {
                    j = j + 1;
                }
            }
            let ghost before = changing@;
            let ghost before_files = views(changing_files@);
            if hit {
                changing.push(i);
                changing_files.push(changes.files[i].clone());
                proof {
                    assert(views(changing_files@) =~= before_files.push(changes.files@[i as int]@));
                    assert(changing@.map_values(|k: usize| changes.files@[k as int]@) =~= before.map_values(
                        |k: usize| changes.files@[k as int]@,
                    ).push(changes.files@[i as int]@));
                }
            }
            proof {
                if !hit {
                    assert(!(exists|q: int| start <= q < end && #[trigger] changes.freqs.at(i as int, q) > 0));
                }
            }
            i = i + 1;
        }
        let model = opt.algorithm.get_model();
        let ripples = model.predict(&cc.probs, &changes.files, &changing);
        RippleChangeProbabilities { changing_files, ripples }
    }
}

} // verus!
