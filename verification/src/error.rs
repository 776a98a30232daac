//! Errors that can arise when building or using cellular sheaves.

use vstd::prelude::*;

verus! {

/// Errors that can arise when building or using cellular sheaves.
#[derive(Debug)]
pub enum SheafError {
    /// A restriction map's dimensions do not match its stalks.
    DimensionMismatch {
        edge: (usize, usize),
        expected_rows: usize,
        expected_cols: usize,
        got_rows: usize,
        got_cols: usize,
    },
    /// A node index is out of range.
    InvalidNode(usize),
    /// An edge references an unknown node.
    InvalidEdge(usize, usize),
    /// A belief vector's length does not match its stalk dimension.
    BeliefDimensionMismatch { agent: String, expected: usize, got: usize },
    /// The sheaf has no nodes.
    EmptySheaf,
    /// A linear-algebra step met a singular matrix.
    SingularMatrix,
}

} // verus!
