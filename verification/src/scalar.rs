//! Single values.
use vstd::prelude::*;
use std::sync::Arc;
use crate::dtype::{nullable, DType, Nullability, PType, SpecDType};

verus! {

/// A value of a fixed-width numeric type; a floating-point value is given by its bits.
#[derive(Debug, Clone, Copy, PartialEq, Eq, Structural)]
pub enum PValue {
    U8(u8),
    U16(u16),
    U32(u32),
    U64(u64),
    I8(i8),
    I16(i16),
    I32(i32),
    I64(i64),
    F16(u16),
    F32(u32),
    F64(u64),
}

/// A value apart from its type.
#[derive(Debug)]
pub enum ScalarValue {
    Null,
    Bool(bool),
    Primitive(PValue),
    Decimal(i128),
    Utf8(Arc<String>),
    Binary(Arc<Vec<u8>>),
    List(Arc<Vec<ScalarValue>>),
}

/// A value and its type.
#[derive(Debug)]
pub struct Scalar {
    pub dtype: DType,
    pub value: ScalarValue,
}

/// The type of a numeric value.
pub open spec fn ptype_of(value: PValue) -> PType {
    match value {
        PValue::U8(_) => PType::U8,
        PValue::U16(_) => PType::U16,
        PValue::U32(_) => PType::U32,
        PValue::U64(_) => PType::U64,
        PValue::I8(_) => PType::I8,
        PValue::I16(_) => PType::I16,
        PValue::I32(_) => PType::I32,
        PValue::I64(_) => PType::I64,
        PValue::F16(_) => PType::F16,
        PValue::F32(_) => PType::F32,
        PValue::F64(_) => PType::F64,
    }
}

impl Clone for ScalarValue {
    fn clone(&self) -> (result: ScalarValue)
        ensures
            result == *self,
    {
        match self {
            ScalarValue::Null => ScalarValue::Null,
            ScalarValue::Bool(b) => ScalarValue::Bool(*b),
            ScalarValue::Primitive(p) => ScalarValue::Primitive(*p),
            ScalarValue::Decimal(d) => ScalarValue::Decimal(*d),
            ScalarValue::Utf8(s) => ScalarValue::Utf8(Arc::clone(s)),
            ScalarValue::Binary(b) => ScalarValue::Binary(Arc::clone(b)),
            ScalarValue::List(l) => ScalarValue::List(Arc::clone(l)),
        }
    }
}

impl Clone for Scalar {
    fn clone(&self) -> (result: Scalar)
        ensures
            result == *self,
    {
        Scalar { dtype: self.dtype.clone(), value: self.value.clone() }
    }
}

impl Scalar {
    /// The scalar is a number of its type, or null where its type admits that.
    pub open spec fn valid_primitive(&self) -> bool {
        match self.dtype {
            DType::Primitive(ptype, nullability) => match self.value {
                ScalarValue::Null => nullability == Nullability::Nullable,
                ScalarValue::Primitive(value) => ptype_of(value) == ptype,
                _ => false,
            },
            _ => false,
        }
    }

    /// The null of a type that admits null.
    pub fn null(dtype: DType) -> (result: Scalar)
        requires
            nullable(dtype@),
        ensures
            result.dtype == dtype,
            result.value is Null,
    {
        Scalar { dtype, value: ScalarValue::Null }
    }

    /// A number of the type that its variant names.
    pub fn primitive(value: PValue, nullability: Nullability) -> (result: Scalar)
        ensures
            result.dtype == DType::Primitive(ptype_of(value), nullability),
            result.value == ScalarValue::Primitive(value),
            result.valid_primitive(),
    {
        let ptype = match value {
            PValue::U8(_) => PType::U8,
            PValue::U16(_) => PType::U16,
            PValue::U32(_) => PType::U32,
            PValue::U64(_) => PType::U64,
            PValue::I8(_) => PType::I8,
            PValue::I16(_) => PType::I16,
            PValue::I32(_) => PType::I32,
            PValue::I64(_) => PType::I64,
            PValue::F16(_) => PType::F16,
            PValue::F32(_) => PType::F32,
            PValue::F64(_) => PType::F64,
        };
        Scalar { dtype: DType::Primitive(ptype, nullability), value: ScalarValue::Primitive(value) }
    }
}

} // verus!
