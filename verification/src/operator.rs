//! The binary operators of expressions, and those of them that compute numbers.
use vstd::prelude::*;
use crate::error::VortexError;

verus! {

/// A binary operator of an expression.
#[derive(Debug, Clone, Copy, PartialEq, Eq, Structural)]
pub enum Operator {
    Eq,
    NotEq,
    Gt,
    Gte,
    Lt,
    Lte,
    And,
    Or,
    Add,
    Sub,
    Mul,
    Div,
}

/// Binary element-wise operations on two arrays or of two scalars.
#[derive(Debug, Clone, Copy, PartialEq, Eq, Structural)]
pub enum NumericOperator {
    /// Binary element-wise addition of two arrays or of two scalars.
    ///
    /// Errs at runtime if the sum would overflow or underflow.
    Add,
    /// Binary element-wise subtraction of two arrays or of two scalars.
    Sub,
    /// Binary element-wise multiplication of two arrays or of two scalars.
    Mul,
    /// Binary element-wise division of two arrays or of two scalars.
    Div,
}

/// The operator of expressions that a numeric operator is.
pub open spec fn operator_of(op: NumericOperator) -> Operator {
    match op {
        NumericOperator::Add => Operator::Add,
        NumericOperator::Sub => Operator::Sub,
        NumericOperator::Mul => Operator::Mul,
        NumericOperator::Div => Operator::Div,
    }
}

/// The numeric operator that an operator of expressions is, if it is one.
pub open spec fn numeric_of(op: Operator) -> Option<NumericOperator> {
    match op {
        Operator::Add => Some(NumericOperator::Add),
        Operator::Sub => Some(NumericOperator::Sub),
        Operator::Mul => Some(NumericOperator::Mul),
        Operator::Div => Some(NumericOperator::Div),
        _ => None,
    }
}

impl From<NumericOperator> for Operator {
    fn from(op: NumericOperator) -> (result: Operator) {
        match op {
            NumericOperator::Add => Operator::Add,
            NumericOperator::Sub => Operator::Sub,
            NumericOperator::Mul => Operator::Mul,
            NumericOperator::Div => Operator::Div,
        }
    }
}

impl vstd::std_specs::convert::FromSpecImpl<NumericOperator> for Operator {
    open spec fn obeys_from_spec() -> bool {
        true
    }

    open spec fn from_spec(op: NumericOperator) -> Operator {
        operator_of(op)
    }
}

impl TryFrom<Operator> for NumericOperator {
    type Error = VortexError;

    fn try_from(op: Operator) -> (result: Result<NumericOperator, VortexError>) {
        match op {
            Operator::Add => Ok(NumericOperator::Add),
            Operator::Sub => Ok(NumericOperator::Sub),
            Operator::Mul => Ok(NumericOperator::Mul),
            Operator::Div => Ok(NumericOperator::Div),
            other => Err(VortexError::UnsupportedOperator(other)),
        }
    }
}

impl vstd::std_specs::convert::TryFromSpecImpl<Operator> for NumericOperator {
    open spec fn obeys_try_from_spec() -> bool {
        true
    }

    open spec fn try_from_spec(op: Operator) -> Result<NumericOperator, VortexError> {
        match numeric_of(op) {
            Some(numeric) => Ok(numeric),
            None => Err(VortexError::UnsupportedOperator(op)),
        }
    }
}

impl NumericOperator {
    /// The operator's name.
    pub fn name(&self) -> (result: &'static str)
        ensures
            result@ == match *self {
                NumericOperator::Add => "Add"@,
                NumericOperator::Sub => "Sub"@,
                NumericOperator::Mul => "Mul"@,
                NumericOperator::Div => "Div"@,
            },
    {
        match self {
            NumericOperator::Add => "Add",
            NumericOperator::Sub => "Sub",
            NumericOperator::Mul => "Mul",
            NumericOperator::Div => "Div",
        }
    }
}

/// Every numeric operator is an operator of expressions, and is found again from it.
pub proof fn law_numeric_operator_round_trip(op: NumericOperator)
    ensures
        numeric_of(operator_of(op)) == Some(op),
{
}

/// The operators of expressions that compute numbers are those of the same name, and no others.
pub proof fn law_numeric_operators(op: Operator)
    ensures
        operator_of(NumericOperator::Add) == Operator::Add,
        operator_of(NumericOperator::Sub) == Operator::Sub,
        operator_of(NumericOperator::Mul) == Operator::Mul,
        operator_of(NumericOperator::Div) == Operator::Div,
        match numeric_of(op) {
            Some(numeric) => operator_of(numeric) == op,
            None => op != Operator::Add && op != Operator::Sub && op != Operator::Mul && op
                != Operator::Div,
        },
{
}

} // verus!
