use crate::bettergit::{is_instant, BetterDiff};
use crate::labels::{
    find_label, lemma_label_lt_irreflexive, sorted_unique_ints, sorted_unique_labels,
    strictly_sorted_ints, strictly_sorted_labels, views,
};
use crate::matrix::NamedMatrix;
use core::ops::Div;
use vstd::prelude::*;
use vstd::std_specs::convert::FromSpec;
use vstd::std_specs::ops::DivSpec;

verus! {

broadcast use vstd::std_specs::hash::group_hash_axioms;

/// Diff records keyed by their bin instant (seconds since the Unix epoch,
/// UTC), one record per bin.
pub type GroupedBetterDiffs = Vec<(i64, BetterDiff)>;

/// No two records share a bin: the records form a map keyed by bin.
pub open spec fn distinct_bins(d: Seq<(i64, BetterDiff)>) -> bool {
    forall|i: int, j: int| 0 <= i < d.len() && 0 <= j < d.len() && i != j ==> d[i].0 != d[j].0
}

/// Every new-path label of the records, record after record.
pub open spec fn all_new_files(d: Seq<(i64, BetterDiff)>) -> Seq<Seq<char>>
    decreases d.len(),
{
    if d.len() == 0 {
        Seq::empty()
    } else {
        all_new_files(d.drop_last()) + views(d.last().1.new_files@)
    }
}

/// Number of times `f` occurs in `s`.
pub open spec fn count_in(s: Seq<Seq<char>>, f: Seq<char>) -> nat
    decreases s.len(),
{
    if s.len() == 0 {
        0
    } else {
        count_in(s.drop_last(), f) + if s.last() == f {
            1nat
        } else {
            0nat
        }
    }
}

/// Number of times file `f` was touched in the records of bin `b`.
pub open spec fn occurrences(d: Seq<(i64, BetterDiff)>, f: Seq<char>, b: i64) -> nat
    decreases d.len(),
{
    if d.len() == 0 {
        0
    } else {
        occurrences(d.drop_last(), f, b) + if d.last().0 == b {
            count_in(views(d.last().1.new_files@), f)
        } else {
            0nat
        }
    }
}

/// Sum of a sequence of counts.
pub open spec fn total(s: Seq<u32>) -> int
    decreases s.len(),
{
    if s.len() == 0 {
        0
    } else {
        total(s.drop_last()) + s.last()
    }
}

pub proof fn lemma_total_update(s: Seq<u32>, i: int, v: u32)
    requires
        0 <= i < s.len(),
    ensures
        total(s.update(i, v)) == total(s) - s[i] + v,
    decreases s.len(),
{
    if i < s.len() - 1 {
        lemma_total_update(s.drop_last(), i, v);
        assert(s.update(i, v).drop_last() =~= s.drop_last().update(i, v));
    } else {
        assert(s.update(i, v).drop_last() =~= s.drop_last());
    }
}

pub proof fn lemma_all_new_files_take(d: Seq<(i64, BetterDiff)>, k: int)
    requires
        0 <= k < d.len(),
    ensures
        all_new_files(d.take(k + 1)) == all_new_files(d.take(k)) + views(d[k].1.new_files@),
{
    assert(d.take(k + 1).drop_last() =~= d.take(k));
}

pub proof fn lemma_all_new_files_prefix(d: Seq<(i64, BetterDiff)>, k: int)
    requires
        0 <= k <= d.len(),
    ensures
        all_new_files(d.take(k)).len() <= all_new_files(d).len(),
    decreases d.len() - k,
{
    if k < d.len() {
        lemma_all_new_files_take(d, k);
        lemma_all_new_files_prefix(d, k + 1);
    } else {
        assert(d.take(k) =~= d);
    }
}

pub proof fn lemma_occurrences_take(d: Seq<(i64, BetterDiff)>, k: int, f: Seq<char>, b: i64)
    requires
        0 <= k < d.len(),
    ensures
        occurrences(d.take(k + 1), f, b) == occurrences(d.take(k), f, b) + if d[k].0 == b {
            count_in(views(d[k].1.new_files@), f)
        } else {
            0nat
        },
{
    assert(d.take(k + 1).drop_last() =~= d.take(k));
}

/// `usize` holds the product of any two `u32` (a 64-bit target).
pub open spec fn wide_index() -> bool {
    (u32::MAX as int) * (u32::MAX as int) <= usize::MAX
}

pub proof fn lemma_wide_product(a: int, b: int)
    requires
        wide_index(),
        0 <= a <= u32::MAX,
        0 <= b <= u32::MAX,
    ensures
        a * b <= usize::MAX,
{
    assert(a * b <= (u32::MAX as int) * (u32::MAX as int)) by (nonlinear_arith)
        requires
            0 <= a <= u32::MAX,
            0 <= b <= u32::MAX,
    ;
}

/// Identity labels `0..n`: row `i` of the changes matrix is file `i` of the pool.
pub open spec fn is_identity(ids: Seq<usize>) -> bool {
    forall|i: int| 0 <= i < ids.len() ==> ids[i] == i
}

/// `c` is the changes matrix of the records `d`: its files are the distinct
/// new-path labels and its bins the distinct keys, both ascending, and each
/// cell counts how often the file was touched in the bin.
pub open spec fn is_changes_of(c: Changes, d: Seq<(i64, BetterDiff)>) -> bool {
    &&& c.wf()
    &&& forall|x: Seq<char>| views(c.files@).contains(x) <==> all_new_files(d).contains(x)
    &&& forall|b: i64|
        c.freqs.col_names@.contains(b) <==> exists|k: int| 0 <= k < d.len() && #[trigger] d[k].0 == b
    &&& forall|i: int, j: int|
        0 <= i < c.freqs.nrows() && 0 <= j < c.freqs.ncols() ==> #[trigger] c.freqs.at(i, j)
            == occurrences(d, c.files@[i]@, c.freqs.col_names@[j])
    &&& c.freqs.row_dimname matches Some(s) && s@ == "files"@
    &&& c.freqs.col_dimname matches Some(s) && s@ == "dates"@
}

/// The file-by-bin change matrix. `files` is the pool that interns the file
/// labels: row `i` of `freqs` is labelled with `i` and stands for `files[i]`.
pub struct Changes {
    pub files: Vec<String>,
    pub freqs: NamedMatrix<usize, i64, u32>,
    pub c_freq: Vec<u32>,
}

impl Changes {
    pub open spec fn wf(&self) -> bool {
        &&& self.freqs.wf()
        &&& is_identity(self.freqs.row_names@)
        &&& self.files@.len() == self.freqs.nrows()
        &&& self.c_freq@.len() == self.freqs.nrows()
        &&& self.freqs.nrows() <= u32::MAX
        &&& self.freqs.ncols() <= u32::MAX
        &&& wide_index()
        &&& forall|j: int| 0 <= j < self.freqs.ncols() ==> is_instant(#[trigger] self.freqs.col_names@[j])
        &&& strictly_sorted_labels(views(self.files@))
        &&& strictly_sorted_ints(self.freqs.col_names@)
        &&& forall|i: int|
            0 <= i < self.c_freq@.len() ==> self.c_freq@[i] == total(#[trigger] self.freqs.row(i))
    }

    /// Builds the changes matrix: the distinct new-path labels in ascending
    /// order are the rows, the distinct bins in ascending order the columns,
    /// and each cell counts how often the file was touched in the bin.
    pub fn from_diffs(diffs: &GroupedBetterDiffs) -> (c: Changes)
        requires
            distinct_bins(diffs@),
            all_new_files(diffs@).len() <= u32::MAX,
            diffs@.len() <= u32::MAX,
            wide_index(),
            forall|k: int| 0 <= k < diffs@.len() ==> is_instant(#[trigger] diffs@[k].0),
        ensures
            is_changes_of(c, diffs@),
    {
        let ghost d = diffs@;
        // the file axis and the bin axis
        let mut rows: Vec<String> = Vec::new();
        let mut cols: Vec<i64> = Vec::new();
        let mut k: usize = 0;
        while k < diffs.len()
            invariant
                d == diffs@,
                k <= d.len(),
                views(rows@) == all_new_files(d.take(k as int)),
                cols@ == d.take(k as int).map_values(|e: (i64, BetterDiff)| e.0),
            decreases d.len() - k,
        {
            let files = &diffs[k].1.new_files;
            let mut t: usize = 0;
            while t < files.len()
                invariant
                    d == diffs@,
                    k < d.len(),
                    files@ == d[k as int].1.new_files@,
                    t <= files@.len(),
                    views(rows@) == all_new_files(d.take(k as int)) + views(files@.take(t as int)),
                decreases files@.len() - t,
            {
                let ghost before = views(rows@);
                rows.push(files[t].clone());
                proof {
                    assert(views(rows@) =~= before.push(files@[t as int]@));
                    assert(views(files@.take(t as int + 1)) =~= views(files@.take(t as int)).push(
                        files@[t as int]@,
                    ));
                    assert(views(rows@) =~= all_new_files(d.take(k as int)) + views(
                        files@.take(t as int + 1),
                    ));
                }
                t = t + 1;
            }
            cols.push(diffs[k].0);
            proof {
                assert(files@.take(t as int) =~= files@);
                lemma_all_new_files_take(d, k as int);
                assert(d.take(k as int + 1).map_values(|e: (i64, BetterDiff)| e.0) =~= d.take(
                    k as int,
                ).map_values(|e: (i64, BetterDiff)| e.0).push(d[k as int].0));
            }
            k = k + 1;
        }
        proof {
            assert(d.take(k as int) =~= d);
        }
        let files = sorted_unique_labels(rows);
        let bins = sorted_unique_ints(cols);
        let n = files.len();
        let mut ids: Vec<usize> = Vec::new();
        while ids.len() < n
            invariant
                ids@.len() <= n,
                is_identity(ids@),
            decreases n - ids@.len(),
        {
            ids.push(ids.len());
        }
        proof {
            assert forall|i: int| 0 <= i < files@.len() implies all_new_files(d).contains(
                files@[i]@,
            ) by {
                assert(views(files@)[i] == files@[i]@);
            }
            lemma_distinct_count(files@, all_new_files(d));
            lemma_distinct_int_count(bins@, cols@);
            lemma_wide_product(files@.len() as int, bins@.len() as int);
            assert forall|b: i64| bins@.contains(b) <==> exists|k: int|
                0 <= k < d.len() && #[trigger] d[k].0 == b by {
                if bins@.contains(b) {
                    let k = choose|k: int| 0 <= k < cols@.len() && cols@[k] == b;
                    assert(d[k].0 == b);
                }
                if exists|k: int| 0 <= k < d.len() && #[trigger] d[k].0 == b {
                    let k = choose|k: int| 0 <= k < d.len() && #[trigger] d[k].0 == b;
                    assert(cols@[k] == b);
                }
            }
        }
        let mut freqs: NamedMatrix<usize, i64, u32> = NamedMatrix::new(
            ids,
            bins,
            Some("files"),
            Some("dates"),
            0u32,
        );
        let mut c_freq: Vec<u32> = Vec::new();
        while c_freq.len() < n
            invariant
                c_freq@.len() <= n,
                forall|i: int| 0 <= i < c_freq@.len() ==> c_freq@[i] == 0,
            decreases n - c_freq@.len(),
        {
            c_freq.push(0u32);
        }
        proof {
            assert forall|i: int| 0 <= i < n implies total(#[trigger] freqs.row(i)) == 0 by {
                lemma_total_zero(freqs.row(i));
            }
            assert forall|i: int, j: int|
                0 <= i < freqs.nrows() && 0 <= j < freqs.ncols() implies #[trigger] freqs.at(i, j)
                == occurrences(d.take(0), files@[i]@, freqs.col_names@[j]) by {
                assert(d.take(0).len() == 0);
            }
        }
        // the counts
        let ghost m = freqs.ncols();
        let mut k: usize = 0;
        while k < diffs.len()
            invariant
                d == diffs@,
                k <= d.len(),
                all_new_files(d).len() <= u32::MAX,
                freqs.wf(),
                freqs.nrows() == n,
                freqs.ncols() == m,
                files@.len() == n,
                c_freq@.len() == n,
                is_identity(freqs.row_names@),
                strictly_sorted_labels(views(files@)),
                strictly_sorted_ints(freqs.col_names@),
                forall|x: Seq<char>| views(files@).contains(x) <==> all_new_files(d).contains(x),
                forall|b: i64|
                    freqs.col_names@.contains(b) <==> exists|k: int|
                        0 <= k < d.len() && #[trigger] d[k].0 == b,
                forall|i: int| 0 <= i < n ==> c_freq@[i] == total(#[trigger] freqs.row(i)),
                forall|i: int| 0 <= i < n ==> c_freq@[i] <= all_new_files(d.take(k as int)).len(),
                forall|i: int, j: int|
                    0 <= i < n && 0 <= j < m ==> #[trigger] freqs.at(i, j) == occurrences(
                        d.take(k as int),
                        files@[i]@,
                        freqs.col_names@[j],
                    ),
                freqs.row_dimname matches Some(s) && s@ == "files"@,
                freqs.col_dimname matches Some(s) && s@ == "dates"@,
            decreases d.len() - k,
        {
            let bin = diffs[k].0;
            proof {
                assert(exists|k2: int| 0 <= k2 < d.len() && #[trigger] d[k2].0 == bin) by {
                    assert(d[k as int].0 == bin);
                }
            }
            let col = match freqs.index_of_col(&bin) {
                Some(c) => c,
                None => {
                    proof {
                        assert(false);
                    }
                    0
                },
            };
            let files_k = &diffs[k].1.new_files;
            proof {
                lemma_all_new_files_take(d, k as int);
                lemma_all_new_files_prefix(d, k as int + 1);
            }
            let mut t: usize = 0;
            while t < files_k.len()
                invariant
                    d == diffs@,
                    k < d.len(),
                    files_k@ == d[k as int].1.new_files@,
                    t <= files_k@.len(),
                    all_new_files(d.take(k as int)).len() + files_k@.len() <= u32::MAX,
                    all_new_files(d.take(k as int + 1)) == all_new_files(d.take(k as int)) + views(
                        files_k@,
                    ),
                    col < m,
                    freqs.col_names@[col as int] == bin,
                    bin == d[k as int].0,
                    freqs.wf(),
                    freqs.nrows() == n,
                    freqs.ncols() == m,
                    files@.len() == n,
                    c_freq@.len() == n,
                    is_identity(freqs.row_names@),
                    strictly_sorted_labels(views(files@)),
                    strictly_sorted_ints(freqs.col_names@),
                    forall|x: Seq<char>| views(files@).contains(x) <==> all_new_files(d).contains(x),
                    forall|b: i64|
                        freqs.col_names@.contains(b) <==> exists|k: int|
                            0 <= k < d.len() && #[trigger] d[k].0 == b,
                    forall|i: int| 0 <= i < n ==> c_freq@[i] == total(#[trigger] freqs.row(i)),
                    forall|i: int|
                        0 <= i < n ==> c_freq@[i] <= all_new_files(d.take(k as int)).len() + t,
                    forall|i: int, j: int|
                        0 <= i < n && 0 <= j < m ==> #[trigger] freqs.at(i, j) == occurrences(
                            d.take(k as int),
                            files@[i]@,
                            freqs.col_names@[j],
                        ) + if freqs.col_names@[j] == bin {
                            count_in(views(files_k@.take(t as int)), files@[i]@)
                        } else {
                            0nat
                        },
                    freqs.row_dimname matches Some(s) && s@ == "files"@,
                    freqs.col_dimname matches Some(s) && s@ == "dates"@,
                decreases files_k@.len() - t,
            {
                proof {
                    let x = files_k@[t as int]@;
                    assert(views(files_k@)[t as int] == x);
                    assert((all_new_files(d.take(k as int)) + views(files_k@))[all_new_files(
                        d.take(k as int),
                    ).len() + t] == x);
                    lemma_all_new_files_in(d, k as int + 1);
                    assert(all_new_files(d).contains(x));
                }
                let row = match find_label(&files, files_k[t].as_str()) {
                    Some(r) => r,
                    None => {
                        proof {
                            assert(false);
                        }
                        0
                    },
                };
                let ghost old_f = freqs;
                let ghost f_row = files@[row as int]@;
                let v = freqs.get(row, col);
                proof {
                    lemma_total_le(freqs.row(row as int), col as int);
                }
                freqs.set(row, col, v + 1);
                let cf = c_freq[row];
                c_freq.set(row, cf + 1);
                proof {
                    assert(views(files_k@.take(t as int + 1)) =~= views(files_k@.take(t as int)).push(
                        files_k@[t as int]@,
                    ));
                    assert forall|i: int| 0 <= i < n implies c_freq@[i] == total(
                        #[trigger] freqs.row(i),
                    ) by {
                        if i == row {
                            assert(freqs.row(i) =~= old_f.row(i).update(col as int, (v + 1) as u32));
                            lemma_total_update(old_f.row(i), col as int, (v + 1) as u32);
                        } else {
                            assert(freqs.row(i) =~= old_f.row(i));
                        }
                    }
                    assert forall|i: int, j: int| 0 <= i < n && 0 <= j < m implies #[trigger] freqs.at(
                        i,
                        j,
                    ) == occurrences(d.take(k as int), files@[i]@, freqs.col_names@[j]) + if freqs.col_names@[j]
                        == bin {
                        count_in(views(files_k@.take(t as int + 1)), files@[i]@)
                    } else {
                        0nat
                    } by {
                        let s = views(files_k@.take(t as int + 1));
                        assert(s.drop_last() =~= views(files_k@.take(t as int)));
                        if i != row {
                            assert(views(files@)[i] == files@[i]@);
                            assert(views(files@)[row as int] == files@[row as int]@);
                            lemma_label_lt_irreflexive(files@[i]@);
                        }
                        if j != col {
                            lemma_label_lt_irreflexive(files@[i]@);
                        }
                    }
                }
                t = t + 1;
            }
            proof {
                assert(files_k@.take(t as int) =~= files_k@);
                assert forall|i: int, j: int| 0 <= i < n && 0 <= j < m implies #[trigger] freqs.at(
                    i,
                    j,
                ) == occurrences(d.take(k as int + 1), files@[i]@, freqs.col_names@[j]) by {
                    lemma_occurrences_take(d, k as int, files@[i]@, freqs.col_names@[j]);
                }
            }
            k = k + 1;
        }
        proof {
            assert(d.take(k as int) =~= d);
            assert forall|j: int| 0 <= j < freqs.ncols() implies is_instant(
                #[trigger] freqs.col_names@[j],
            ) by {
                assert(freqs.col_names@.contains(freqs.col_names@[j]));
            }
        }
        Changes { files, freqs, c_freq }
    }

    /// Number of files.
    pub fn n_files(&self) -> (n: usize)
        requires
            self.wf(),
        ensures
            n == self.freqs.nrows(),
    {
        self.freqs.nrows_exec()
    }

    /// Number of bins.
    pub fn n_vers(&self) -> (n: usize)
        requires
            self.wf(),
        ensures
            n == self.freqs.ncols(),
    {
        self.freqs.ncols_exec()
    }

    /// The prior of each file: its change count divided by the number of
    /// files (rows), not of bins.
    pub fn c_prob<T: Copy + From<u32> + Div<Output = T>>(&self) -> (r: Vec<T>)
        requires
            self.wf(),
            self.freqs.nrows() <= u32::MAX,
            forall|a: T, b: T| a.div_req(b),
        ensures
            r@.len() == self.c_freq@.len(),
            forall|i: int|
                0 <= i < r@.len() ==> T::obeys_from_spec() && T::obeys_div_spec() ==> #[trigger] r@[i]
                    == T::from_spec(self.c_freq@[i]).div_spec(T::from_spec(self.freqs.nrows() as u32)),
    {
        let n = self.c_freq.len();
        let mut r: Vec<T> = Vec::new();
        let mut i: usize = 0;
        while i < n
            invariant
                self.wf(),
                n == self.c_freq@.len(),
                n == self.freqs.nrows(),
                n <= u32::MAX,
                i <= n,
                r@.len() == i,
                forall|a: T, b: T| a.div_req(b),
                forall|j: int|
                    0 <= j < i ==> T::obeys_from_spec() && T::obeys_div_spec() ==> #[trigger] r@[j]
                        == T::from_spec(self.c_freq@[j]).div_spec(T::from_spec(n as u32)),
            decreases n - i,
        {
            let p = T::from(self.c_freq[i]) / T::from(n as u32);
            r.push(p);
            i = i + 1;
        }
        r
    }
}

pub proof fn lemma_total_zero(s: Seq<u32>)
    requires
        forall|j: int| 0 <= j < s.len() ==> s[j] == 0,
    ensures
        total(s) == 0,
    decreases s.len(),
{
    if s.len() > 0 {
        lemma_total_zero(s.drop_last());
    }
}

pub proof fn lemma_total_le(s: Seq<u32>, j: int)
    requires
        0 <= j < s.len(),
    ensures
        s[j] <= total(s),
    decreases s.len(),
{
    if j < s.len() - 1 {
        lemma_total_le(s.drop_last(), j);
        lemma_total_nonneg(s.drop_last());
    } else {
        lemma_total_nonneg(s.drop_last());
    }
}

pub proof fn lemma_total_nonneg(s: Seq<u32>)
    ensures
        total(s) >= 0,
    decreases s.len(),
{
    if s.len() > 0 {
        lemma_total_nonneg(s.drop_last());
    }
}

/// Each label of the first records is among the labels of all records.
pub proof fn lemma_all_new_files_in(d: Seq<(i64, BetterDiff)>, k: int)
    requires
        0 <= k <= d.len(),
    ensures
        forall|x: Seq<char>| all_new_files(d.take(k)).contains(x) ==> all_new_files(d).contains(x),
    decreases d.len() - k,
{
    if k < d.len() {
        lemma_all_new_files_take(d, k);
        lemma_all_new_files_in(d, k + 1);
        assert forall|x: Seq<char>| all_new_files(d.take(k)).contains(x) implies all_new_files(
            d.take(k + 1),
        ).contains(x) by {
            let a = all_new_files(d.take(k));
            let i = choose|i: int| 0 <= i < a.len() && a[i] == x;
            assert((a + views(d[k].1.new_files@))[i] == x);
        }
    } else {
        assert(d.take(k) =~= d);
    }
}

/// Distinct integers drawn from `s` are no more than `s` has entries.
pub proof fn lemma_distinct_int_count(v: Seq<i64>, s: Seq<i64>)
    requires
        strictly_sorted_ints(v),
        forall|i: int| 0 <= i < v.len() ==> s.contains(#[trigger] v[i]),
    ensures
        v.len() <= s.len(),
{
    assert(v.no_duplicates());
    assert(v.to_set().subset_of(s.to_set())) by {
        assert forall|x: i64| v.to_set().contains(x) implies s.to_set().contains(x) by {
            let i = choose|i: int| 0 <= i < v.len() && v[i] == x;
            assert(s.contains(v[i]));
        }
    }
    v.unique_seq_to_set();
    s.lemma_cardinality_of_set();
    vstd::set_lib::lemma_len_subset(v.to_set(), s.to_set());
}

/// Distinct labels drawn from `s` are no more than `s` has entries.
pub proof fn lemma_distinct_count(files: Seq<String>, s: Seq<Seq<char>>)
    requires
        strictly_sorted_labels(views(files)),
        forall|i: int| 0 <= i < files.len() ==> s.contains(#[trigger] files[i]@),
    ensures
        files.len() <= s.len(),
{
    let v = views(files);
    assert(v.no_duplicates()) by {
        assert forall|i: int, j: int| 0 <= i < v.len() && 0 <= j < v.len() && i != j implies v[i]
            != v[j] by {
            lemma_label_lt_irreflexive(v[i]);
        }
    }
    assert(v.to_set().subset_of(s.to_set())) by {
        assert forall|x: Seq<char>| v.to_set().contains(x) implies s.to_set().contains(x) by {
            let i = choose|i: int| 0 <= i < v.len() && v[i] == x;
            assert(s.contains(files[i]@));
        }
    }
    v.unique_seq_to_set();
    s.lemma_cardinality_of_set();
    vstd::set_lib::lemma_len_subset(v.to_set(), s.to_set());
}

} // verus!
