use std::collections::HashMap;
use std::hash::Hash;
use vstd::prelude::*;
use vstd::std_specs::hash::obeys_key_model;

verus! {

broadcast use vstd::std_specs::hash::group_hash_axioms;

/// Label-to-position map built by enumerating `labels`: a label that occurs
/// more than once ends up with its last position.
pub open spec fn label_index<K>(labels: Seq<K>) -> Map<K, usize>
    decreases labels.len(),
{
    if labels.len() == 0 {
        Map::empty()
    } else {
        label_index(labels.drop_last()).insert(labels.last(), (labels.len() - 1) as usize)
    }
}

/// `i` is the last position of `x` in `labels`.
pub open spec fn is_last_position<K>(labels: Seq<K>, x: K, i: int) -> bool {
    &&& 0 <= i < labels.len()
    &&& labels[i] == x
    &&& forall|k: int| i < k < labels.len() ==> labels[k] != x
}

/// What an index lookup answers: the last position of the label, or `None`.
pub open spec fn lookup_result<K>(labels: Seq<K>, x: K, r: Option<usize>) -> bool {
    match r {
        Some(i) => is_last_position(labels, x, i as int),
        None => !labels.contains(x),
    }
}

pub proof fn lemma_label_index<K>(labels: Seq<K>, x: K)
    requires
        labels.len() <= usize::MAX,
    ensures
        label_index(labels).contains_key(x) <==> labels.contains(x),
        label_index(labels).contains_key(x) ==> is_last_position(
            labels,
            x,
            label_index(labels)[x] as int,
        ),
    decreases labels.len(),
{
    if labels.len() > 0 {
        let init = labels.drop_last();
        lemma_label_index(init, x);
        if labels.last() != x {
            assert(label_index(labels).contains_key(x) == label_index(init).contains_key(x));
            if label_index(init).contains_key(x) {
                let p = label_index(init)[x] as int;
                assert(label_index(labels)[x] == label_index(init)[x]);
                assert forall|k: int| p < k < labels.len() implies labels[k] != x by {
                    if k < init.len() {
                        assert(labels[k] == init[k]);
                    }
                }
            }
            if labels.contains(x) {
                let k = choose|k: int| 0 <= k < labels.len() && labels[k] == x;
                assert(init[k] == x);
            }
            if init.contains(x) {
                let k = choose|k: int| 0 <= k < init.len() && init[k] == x;
                assert(labels[k] == x);
            }
        } else {
            assert(labels[labels.len() - 1] == x);
            assert(label_index(labels)[x] == labels.len() - 1);
        }
    }
}

pub proof fn lemma_cell_in_bounds(i: int, j: int, n: int, m: int)
    requires
        0 <= i < n,
        0 <= j < m,
    ensures
        0 <= i * m + j < n * m,
        i * m + j + 1 <= n * m,
{
    assert(0 <= i * m + j < n * m) by (nonlinear_arith)
        requires
            0 <= i < n,
            0 <= j < m,
    ;
}

/// A dense matrix whose rows and columns carry labels, with a label-to-index
/// map on each axis. Cells are stored row after row.
pub struct NamedMatrix<R, C, T> {
    pub cells: Vec<T>,
    pub row_names: Vec<R>,
    pub col_names: Vec<C>,
    pub row_index: HashMap<R, usize>,
    pub col_index: HashMap<C, usize>,
    pub row_dimname: Option<String>,
    pub col_dimname: Option<String>,
}

impl<R: Copy + Eq + Hash, C: Copy + Eq + Hash, T: Copy> NamedMatrix<R, C, T> {
    pub open spec fn nrows(&self) -> nat {
        self.row_names@.len()
    }

    pub open spec fn ncols(&self) -> nat {
        self.col_names@.len()
    }

    /// The cell in row `i`, column `j`.
    pub open spec fn at(&self, i: int, j: int) -> T {
        self.cells@[i * self.ncols() + j]
    }

    /// Row `i` as a sequence.
    pub open spec fn row(&self, i: int) -> Seq<T> {
        Seq::new(self.ncols(), |j: int| self.at(i, j))
    }

    /// Column `j` as a sequence.
    pub open spec fn column(&self, j: int) -> Seq<T> {
        Seq::new(self.nrows(), |i: int| self.at(i, j))
    }

    pub open spec fn wf(&self) -> bool {
        &&& obeys_key_model::<R>()
        &&& obeys_key_model::<C>()
        &&& self.cells@.len() == self.nrows() * self.ncols()
        &&& self.cells@.len() <= usize::MAX
        &&& self.nrows() <= usize::MAX
        &&& self.ncols() <= usize::MAX
        &&& self.row_index@ == label_index(self.row_names@)
        &&& self.col_index@ == label_index(self.col_names@)
    }

    fn build_index<K: Copy + Eq + Hash>(labels: &Vec<K>) -> (index: HashMap<K, usize>)
        requires
            obeys_key_model::<K>(),
        ensures
            index@ == label_index(labels@),
    {
        let mut index: HashMap<K, usize> = HashMap::new();
        let mut i: usize = 0;
        while i < labels.len()
            invariant
                i <= labels.len(),
                obeys_key_model::<K>(),
                index@ == label_index(labels@.take(i as int)),
            decreases labels.len() - i,
        {
            index.insert(labels[i], i);
            proof {
                assert(labels@.take(i as int + 1).drop_last() =~= labels@.take(i as int));
            }
            i = i + 1;
        }
        proof {
            assert(labels@.take(i as int) =~= labels@);
        }
        index
    }

    /// A matrix with the given labels and every cell set to `zero`.
    pub fn new(
        row_names: Vec<R>,
        col_names: Vec<C>,
        row_dimname: Option<&str>,
        col_dimname: Option<&str>,
        zero: T,
    ) -> (m: Self)
        requires
            obeys_key_model::<R>(),
            obeys_key_model::<C>(),
            row_names@.len() * col_names@.len() <= usize::MAX,
        ensures
            m.wf(),
            m.row_names@ == row_names@,
            m.col_names@ == col_names@,
            forall|i: int, j: int| 0 <= i < m.nrows() && 0 <= j < m.ncols() ==> m.at(i, j) == zero,
            row_dimname is None ==> m.row_dimname is None,
            col_dimname is None ==> m.col_dimname is None,
            row_dimname matches Some(s) ==> m.row_dimname matches Some(t) && t@ == s@,
            col_dimname matches Some(s) ==> m.col_dimname matches Some(t) && t@ == s@,
    {
        let n = row_names.len();
        let size: usize = n * col_names.len();
        let mut cells: Vec<T> = Vec::new();
        while cells.len() < size
            invariant
                cells@.len() <= size,
                forall|k: int| 0 <= k < cells@.len() ==> cells@[k] == zero,
            decreases size - cells@.len(),
        {
            cells.push(zero);
        }
        let row_index = Self::build_index(&row_names);
        let col_index = Self::build_index(&col_names);
        let row_dimname = match row_dimname {
            Some(s) => Some(s.to_owned()),
            None => None,
        };
        let col_dimname = match col_dimname {
            Some(s) => Some(s.to_owned()),
            None => None,
        };
        let m = NamedMatrix { cells, row_names, col_names, row_index, col_index, row_dimname, col_dimname };
        proof {
            assert forall|i: int, j: int| 0 <= i < m.nrows() && 0 <= j < m.ncols() implies m.at(i, j)
                == zero by {
                lemma_cell_in_bounds(i, j, m.nrows() as int, m.ncols() as int);
            }
        }
        m
    }

    pub fn nrows_exec(&self) -> (n: usize)
        ensures
            n == self.nrows(),
    {
        self.row_names.len()
    }

    pub fn ncols_exec(&self) -> (n: usize)
        ensures
            n == self.ncols(),
    {
        self.col_names.len()
    }

    /// The cell in row `i`, column `j`.
    pub fn get(&self, i: usize, j: usize) -> (v: T)
        requires
            self.wf(),
            i < self.nrows(),
            j < self.ncols(),
        ensures
            v == self.at(i as int, j as int),
    {
        proof {
            lemma_cell_in_bounds(i as int, j as int, self.nrows() as int, self.ncols() as int);
        }
        self.cells[i * self.col_names.len() + j]
    }

    /// Sets the cell in row `i`, column `j` to `v` and leaves every other cell.
    pub fn set(&mut self, i: usize, j: usize, v: T)
        requires
            old(self).wf(),
            i < old(self).nrows(),
            j < old(self).ncols(),
        ensures
            final(self).wf(),
            final(self).row_names@ == old(self).row_names@,
            final(self).col_names@ == old(self).col_names@,
            final(self).row_dimname == old(self).row_dimname,
            final(self).col_dimname == old(self).col_dimname,
            final(self).at(i as int, j as int) == v,
            forall|a: int, b: int|
                0 <= a < final(self).nrows() && 0 <= b < final(self).ncols() && (a != i || b != j)
                    ==> final(self).at(a, b) == old(self).at(a, b),
    {
        let m = self.col_names.len();
        proof {
            lemma_cell_in_bounds(i as int, j as int, self.nrows() as int, m as int);
        }
        let k = i * m + j;
        self.cells.set(k, v);
        proof {
            assert forall|a: int, b: int|
                0 <= a < self.nrows() && 0 <= b < self.ncols() && (a != i || b != j) implies self.at(
                a,
                b,
            ) == old(self).at(a, b) by {
                lemma_cell_in_bounds(a, b, self.nrows() as int, m as int);
                if a < i {
                    assert(a * m + b < i * m) by (nonlinear_arith)
                        requires
                            a < i,
                            0 <= b < m,
                    ;
                } else if a > i {
                    assert(i * m + j < a * m) by (nonlinear_arith)
                        requires
                            i < a,
                            0 <= j < m,
                    ;
                }
            }
        }
    }

    /// Position of a row label; `None` when the label is absent.
    pub fn index_of_row(&self, row: &R) -> (r: Option<usize>)
        requires
            self.wf(),
        ensures
            lookup_result(self.row_names@, *row, r),
    {
        proof {
            lemma_label_index(self.row_names@, *row);
        }
        match self.row_index.get(row) {
            Some(i) => Some(*i),
            None => None,
        }
    }

    /// Position of a column label; `None` when the label is absent.
    pub fn index_of_col(&self, col: &C) -> (r: Option<usize>)
        requires
            self.wf(),
        ensures
            lookup_result(self.col_names@, *col, r),
    {
        proof {
            lemma_label_index(self.col_names@, *col);
        }
        match self.col_index.get(col) {
            Some(i) => Some(*i),
            None => None,
        }
    }

    /// Positions of the given column labels, in their order, skipping the
    /// labels that the matrix does not have.
    pub fn slice_columns(&self, names: &Vec<C>) -> (r: Vec<usize>)
        requires
            self.wf(),
        ensures
            r@ == column_positions(self.col_names@, names@),
    {
        let mut r: Vec<usize> = Vec::new();
        let mut k: usize = 0;
        while k < names.len()
            invariant
                self.wf(),
                k <= names.len(),
                r@ == column_positions(self.col_names@, names@.take(k as int)),
            decreases names.len() - k,
        {
            let found = self.index_of_col(&names[k]);
            proof {
                assert(names@.take(k as int + 1).drop_last() =~= names@.take(k as int));
                lemma_label_index(self.col_names@, names@[k as int]);
            }
            if let Some(i) = found {
                r.push(i);
            }
            k = k + 1;
        }
        proof {
            assert(names@.take(k as int) =~= names@);
        }
        r
    }
}

/// The positions in `labels` of those of `names` that it holds, in the order
/// of `names`.
pub open spec fn column_positions<C>(labels: Seq<C>, names: Seq<C>) -> Seq<usize>
    decreases names.len(),
{
    if names.len() == 0 {
        Seq::empty()
    } else {
        let init = column_positions(labels, names.drop_last());
        if label_index(labels).contains_key(names.last()) {
            init.push(label_index(labels)[names.last()])
        } else {
            init
        }
    }
}

} // verus!
