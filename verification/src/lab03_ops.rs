//! The second version of the checked computations: the checked operations
//! report which operation failed, and `compute_op` runs both in turn.

use vstd::prelude::*;

pub use crate::lab03::{
    addition, char_to_number, char_to_number_hex, multiplication, next_prime, print_char_text,
    to_lowercase, to_uppercase, ErrorChar,
};

verus! {

/// Which checked operation failed.
#[derive(Clone, Copy, Debug, PartialEq, Eq, Structural)]
pub enum ErrorOp {
    Addit,
    Mutipl,
}

/// The sum, or `Addit` when it is not below `u32::MAX`.
pub fn addition_r(x: u32, y: u32) -> (r: Result<u32, ErrorOp>)
    ensures
        x + y < u32::MAX ==> r == Ok::<u32, ErrorOp>((x + y) as u32),
        x + y >= u32::MAX ==> r == Err::<u32, ErrorOp>(ErrorOp::Addit),
{
    if (x as u64 + y as u64) < u32::MAX as u64 {
        Ok(x + y)
    } else {
        Err(ErrorOp::Addit)
    }
}

/// The product, or `Mutipl` when it is not below `u32::MAX`.
pub fn multiplication_r(x: u32, y: u32) -> (r: Result<u32, ErrorOp>)
    ensures
        x * y < u32::MAX ==> r == Ok::<u32, ErrorOp>((x * y) as u32),
        x * y >= u32::MAX ==> r == Err::<u32, ErrorOp>(ErrorOp::Mutipl),
{
    proof {
        assert(0 <= x * y <= u32::MAX * u32::MAX) by (nonlinear_arith);
    }
    if (x as u64 * y as u64) < u32::MAX as u64 {
        Ok(x * y)
    } else {
        Err(ErrorOp::Mutipl)
    }
}

/// Both the sum and the product; the sum is checked first, so when both
/// overflow the error is `Addit`.
pub fn compute_op(a: u32, b: u32) -> (r: Result<(u32, u32), ErrorOp>)
    ensures
        a + b >= u32::MAX ==> r == Err::<(u32, u32), ErrorOp>(ErrorOp::Addit),
        a + b < u32::MAX && a * b >= u32::MAX ==> r == Err::<(u32, u32), ErrorOp>(ErrorOp::Mutipl),
        a + b < u32::MAX && a * b < u32::MAX ==> r == Ok::<(u32, u32), ErrorOp>(((a + b) as u32, (a * b) as u32)),
{
    let add = addition_r(a, b)?;
    let mult = multiplication_r(a, b)?;
    Ok((add, mult))
}

} // verus!
