//! The dimension guard of the keyed transform's matrix products.
use vstd::prelude::*;
use crate::error::LatticeError;

verus! {

/// The shape of the product of a `lhs_rows` × `lhs_cols` matrix by a
/// `rhs_rows` × `rhs_cols` matrix. The product is defined only where the inner
/// dimensions agree; otherwise it is a dimension mismatch, never a truncated or
/// padded product.
pub fn product_shape(lhs_rows: usize, lhs_cols: usize, rhs_rows: usize, rhs_cols: usize) -> (r: Result<
    (usize, usize),
    LatticeError,
>)
    ensures
        r == (if lhs_cols == rhs_rows {
            Ok::<(usize, usize), LatticeError>((lhs_rows, rhs_cols))
        } else {
            Err(LatticeError::DimensionMismatch)
        }),
{
    if lhs_cols == rhs_rows {
        Ok((lhs_rows, rhs_cols))
    } else {
        Err(LatticeError::DimensionMismatch)
    }
}

} // verus!
