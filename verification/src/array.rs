//! Arrays in memory.
use vstd::prelude::*;
use crate::dtype::{DType, Nullability, PType};
use crate::scalar::Scalar;

verus! {

/// One value repeated.
#[derive(Debug)]
pub struct ConstantArray {
    pub scalar: Scalar,
    pub len: usize,
}

/// Numbers of one type, some of them null; a floating-point number is given by its bits.
#[derive(Debug)]
pub struct PrimitiveArray {
    pub ptype: PType,
    pub nullability: Nullability,
    pub values: Vec<Option<i128>>,
}

/// An array.
#[derive(Debug)]
pub enum Array {
    Constant(ConstantArray),
    Primitive(PrimitiveArray),
}

impl Array {
    /// The number of elements.
    pub open spec fn spec_len(&self) -> nat {
        match *self {
            Array::Constant(a) => a.len as nat,
            Array::Primitive(a) => a.values@.len(),
        }
    }

    /// The type of the elements.
    pub open spec fn spec_dtype(&self) -> DType {
        match *self {
            Array::Constant(a) => a.scalar.dtype,
            Array::Primitive(a) => DType::Primitive(a.ptype, a.nullability),
        }
    }

    /// The number of elements.
    pub fn len(&self) -> (result: usize)
        ensures
            result == self.spec_len(),
    {
        match self {
            Array::Constant(a) => a.len,
            Array::Primitive(a) => a.values.len(),
        }
    }

    /// Whether there are no elements.
    pub fn is_empty(&self) -> (result: bool)
        ensures
            result == (self.spec_len() == 0),
    {
        self.len() == 0
    }

    /// The type of the numbers in an array of numbers.
    pub fn ptype(&self) -> (result: PType)
        requires
            self.spec_dtype() is Primitive,
        ensures
            result == self.spec_dtype()->Primitive_0,
    {
        match self {
            Array::Constant(a) => a.scalar.dtype.ptype(),
            Array::Primitive(a) => a.ptype,
        }
    }

    /// The type of the elements.
    pub fn dtype(&self) -> (result: DType)
        ensures
            result == self.spec_dtype(),
    {
        match self {
            Array::Constant(a) => a.scalar.dtype.clone(),
            Array::Primitive(a) => DType::Primitive(a.ptype, a.nullability),
        }
    }
}

/// A constant has as many elements as it is repeated, of its value's type. Other numbers are as many as their
/// list has, of the type that they say.
pub proof fn law_array(array: Array)
    ensures
        match array {
            Array::Constant(own) => array.spec_len() == own.len && array.spec_dtype()
                == own.scalar.dtype,
            Array::Primitive(own) => array.spec_len() == own.values@.len() && array.spec_dtype()
                == DType::Primitive(own.ptype, own.nullability),
        },
{
}

} // verus!
