//! What can go wrong.
use vstd::prelude::*;
use std::sync::Arc;
use crate::dtype::{DType, SpecDType};
use crate::operator::Operator;
use crate::stats::Stat;

verus! {

/// `arrow_schema::ArrowError`, the error of the arithmetic kernels.
#[verifier::external_type_specification]
#[verifier::external_body]
pub struct ExArrowError(arrow_schema::ArrowError);

/// An error of this library.
#[derive(Debug)]
pub enum VortexError {
    /// The start of a row range does not fit in `usize`.
    RowRangeStartTooLarge,
    /// The end of a row range does not fit in `usize`.
    RowRangeEndTooLarge,
    /// A row range is not one of a reader of `len` rows.
    RowRangeOutOfBounds { start: usize, end: usize, len: usize },
    /// A mask covers more rows than are left.
    MaskTooLong { mask_len: usize, remaining: usize },
    /// A dictionary has no values.
    EmptyDictionary,
    /// A struct's field was asked of a type that is no struct.
    ExpectedStruct,
    /// A struct has no field of the name.
    FieldNotFound(String),
    /// The root of an expression was asked for a type without a scope.
    RootWithoutScope,
    /// A statistic does not exist for values of a type.
    StatNotSupported { stat: Stat, dtype: DType },
    /// An operator computes no number.
    UnsupportedOperator(Operator),
    /// A result does not fit its type, or a divisor is zero.
    NumericOverflow,
    /// An array has another length than it should.
    LengthMismatch { expected: usize, actual: usize },
    /// An arithmetic kernel failed.
    Arrow(Arc<arrow_schema::ArrowError>),
    /// A scalar function of some other library failed.
    Other(String),
}

/// The result of an operation of this library.
pub type VortexResult<T> = Result<T, VortexError>;

/// The mathematical value of a [`VortexError`].
pub enum SpecError {
    RowRangeStartTooLarge,
    RowRangeEndTooLarge,
    RowRangeOutOfBounds { start: usize, end: usize, len: usize },
    MaskTooLong { mask_len: usize, remaining: usize },
    EmptyDictionary,
    ExpectedStruct,
    FieldNotFound(Seq<char>),
    RootWithoutScope,
    StatNotSupported { stat: Stat, dtype: SpecDType },
    UnsupportedOperator(Operator),
    NumericOverflow,
    LengthMismatch { expected: usize, actual: usize },
    Arrow(arrow_schema::ArrowError),
    Other(Seq<char>),
}

impl View for VortexError {
    type V = SpecError;

    open spec fn view(&self) -> SpecError {
        match *self {
            VortexError::RowRangeStartTooLarge => SpecError::RowRangeStartTooLarge,
            VortexError::RowRangeEndTooLarge => SpecError::RowRangeEndTooLarge,
            VortexError::RowRangeOutOfBounds { start, end, len } => SpecError::RowRangeOutOfBounds {
                start,
                end,
                len,
            },
            VortexError::MaskTooLong { mask_len, remaining } => SpecError::MaskTooLong {
                mask_len,
                remaining,
            },
            VortexError::EmptyDictionary => SpecError::EmptyDictionary,
            VortexError::ExpectedStruct => SpecError::ExpectedStruct,
            VortexError::FieldNotFound(name) => SpecError::FieldNotFound(name@),
            VortexError::RootWithoutScope => SpecError::RootWithoutScope,
            VortexError::StatNotSupported { stat, dtype } => SpecError::StatNotSupported {
                stat,
                dtype: dtype@,
            },
            VortexError::UnsupportedOperator(op) => SpecError::UnsupportedOperator(op),
            VortexError::NumericOverflow => SpecError::NumericOverflow,
            VortexError::LengthMismatch { expected, actual } => SpecError::LengthMismatch {
                expected,
                actual,
            },
            VortexError::Arrow(error) => SpecError::Arrow(*error),
            VortexError::Other(message) => SpecError::Other(message@),
        }
    }
}

impl Clone for VortexError {
    fn clone(&self) -> (result: VortexError)
        ensures
            result@ == self@,
    {
        match self {
            VortexError::RowRangeStartTooLarge => VortexError::RowRangeStartTooLarge,
            VortexError::RowRangeEndTooLarge => VortexError::RowRangeEndTooLarge,
            VortexError::RowRangeOutOfBounds { start, end, len } => {
                VortexError::RowRangeOutOfBounds { start: *start, end: *end, len: *len }
            },
            VortexError::MaskTooLong { mask_len, remaining } => VortexError::MaskTooLong {
                mask_len: *mask_len,
                remaining: *remaining,
            },
            VortexError::EmptyDictionary => VortexError::EmptyDictionary,
            VortexError::ExpectedStruct => VortexError::ExpectedStruct,
            VortexError::FieldNotFound(name) => VortexError::FieldNotFound(name.clone()),
            VortexError::RootWithoutScope => VortexError::RootWithoutScope,
            VortexError::StatNotSupported { stat, dtype } => VortexError::StatNotSupported {
                stat: *stat,
                dtype: dtype.clone(),
            },
            VortexError::UnsupportedOperator(op) => VortexError::UnsupportedOperator(*op),
            VortexError::NumericOverflow => VortexError::NumericOverflow,
            VortexError::LengthMismatch { expected, actual } => VortexError::LengthMismatch {
                expected: *expected,
                actual: *actual,
            },
            VortexError::Arrow(error) => VortexError::Arrow(Arc::clone(error)),
            VortexError::Other(message) => VortexError::Other(message.clone()),
        }
    }
}

/// The mathematical value of a type or the error in its place.
pub open spec fn dtype_result(result: VortexResult<DType>) -> Result<SpecDType, SpecError> {
    match result {
        Ok(dtype) => Ok(dtype@),
        Err(error) => Err(error@),
    }
}

/// The value of an error is the error of the same name, with what it says.
pub proof fn law_error_view(error: VortexError)
    ensures
        match (error, error@) {
            (VortexError::RowRangeStartTooLarge, SpecError::RowRangeStartTooLarge) => true,
            (VortexError::RowRangeEndTooLarge, SpecError::RowRangeEndTooLarge) => true,
            (
                VortexError::RowRangeOutOfBounds { start, end, len },
                SpecError::RowRangeOutOfBounds { start: from, end: to, len: count },
            ) => start == from && end == to && len == count,
            (
                VortexError::MaskTooLong { mask_len, remaining },
                SpecError::MaskTooLong { mask_len: asked, remaining: left },
            ) => mask_len == asked && remaining == left,
            (VortexError::EmptyDictionary, SpecError::EmptyDictionary) => true,
            (VortexError::ExpectedStruct, SpecError::ExpectedStruct) => true,
            (VortexError::FieldNotFound(name), SpecError::FieldNotFound(own)) => name@ == own,
            (VortexError::RootWithoutScope, SpecError::RootWithoutScope) => true,
            (
                VortexError::StatNotSupported { stat, dtype },
                SpecError::StatNotSupported { stat: asked, dtype: own },
            ) => stat == asked && dtype@ == own,
            (VortexError::UnsupportedOperator(op), SpecError::UnsupportedOperator(own)) => op == own,
            (VortexError::NumericOverflow, SpecError::NumericOverflow) => true,
            (
                VortexError::LengthMismatch { expected, actual },
                SpecError::LengthMismatch { expected: wanted, actual: found },
            ) => expected == wanted && actual == found,
            (VortexError::Arrow(inner), SpecError::Arrow(own)) => *inner == own,
            (VortexError::Other(message), SpecError::Other(own)) => message@ == own,
            _ => false,
        },
{
}

/// The value of a result is that of the type or of the error.
pub proof fn law_dtype_result(result: VortexResult<DType>)
    ensures
        match (result, dtype_result(result)) {
            (Ok(dtype), Ok(own)) => dtype@ == own,
            (Err(error), Err(own)) => error@ == own,
            _ => false,
        },
{
}

} // verus!
