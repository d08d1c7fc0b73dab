use crate::cochanges::CCMatrix;
use crate::matrix::NamedMatrix;
use crate::predict::CRVector;
use vstd::prelude::*;
use vstd::std_specs::hash::obeys_key_model;

verus! {

broadcast use vstd::std_specs::hash::group_hash_axioms;

/// The algorithm that computes nothing: empty matrices and an empty ripple.
pub struct NopModel;

impl NopModel {
    /// A matrix with no rows and no columns.
    pub fn empty<T: Copy>(zero: T) -> (r: CCMatrix<T>)
        ensures
            r.wf(),
            r.nrows() == 0,
            r.ncols() == 0,
            r.row_dimname is None,
            r.col_dimname is None,
    {
        assert(obeys_key_model::<usize>());
        let rows: Vec<usize> = Vec::new();
        let cols: Vec<usize> = Vec::new();
        assert(rows@.len() * cols@.len() == 0);
        NamedMatrix::new(rows, cols, None, None, zero)
    }

    pub fn predict<T>() -> (r: CRVector<T>)
        ensures
            r@.len() == 0,
    {
        Vec::new()
    }
}

} // verus!
