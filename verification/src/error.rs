//! Errors of evaluation.

use vstd::prelude::*;

verus! {

#[derive(Clone, Debug)]
pub enum EvalError {
    /// An operand points nowhere, so the DAG is broken
    InvalidPtr,
    /// Thrown if a `Literal`, `Invalid`, or `Opaque` node is attempted to be evaluated
    Unevaluatable,
    /// wrong bitwidths of operands
    WrongBitwidth,
    /// Some other kind of brokenness, such as dependency edges not agreeing with operand edges
    OtherStr(&'static str),
    OtherString(String),
}

} // verus!
