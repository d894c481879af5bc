use vstd::prelude::*;

verus! {

/// Why a multiplication or a dot product could not be completed.
#[derive(Clone, Copy, Debug, PartialEq, Eq, Structural)]
pub enum MatrixError {
    /// The operands' shapes do not fit together: `a.col != b.row` for a
    /// product, or unequal lengths for a dot product.
    DimensionMismatch,
    /// A cell's result never arrived, arrived twice, or named a cell outside
    /// the output.
    ChannelFailure,
}

} // verus!
