//! Arithmetic on single numbers.
use vstd::prelude::*;
use crate::dtype::{DType, Nullability, PType};
use crate::operator::NumericOperator;
use crate::scalar::{ptype_of, PValue, Scalar, ScalarValue};

verus! {

/// The least number of a type; a floating-point number is given by its bits.
pub open spec fn least(ptype: PType) -> int {
    match ptype {
        PType::I8 => -0x80,
        PType::I16 => -0x8000,
        PType::I32 => -0x8000_0000,
        PType::I64 => -0x8000_0000_0000_0000,
        _ => 0,
    }
}

/// The greatest number of a type; a floating-point number is given by its bits.
pub open spec fn greatest(ptype: PType) -> int {
    match ptype {
        PType::U8 => 0xff,
        PType::U16 => 0xffff,
        PType::U32 => 0xffff_ffff,
        PType::U64 => 0xffff_ffff_ffff_ffff,
        PType::I8 => 0x7f,
        PType::I16 => 0x7fff,
        PType::I32 => 0x7fff_ffff,
        PType::I64 => 0x7fff_ffff_ffff_ffff,
        PType::F16 => 0xffff,
        PType::F32 => 0xffff_ffff,
        PType::F64 => 0xffff_ffff_ffff_ffff,
    }
}

/// A number is one of a type.
pub open spec fn in_range(ptype: PType, value: int) -> bool {
    least(ptype) <= value <= greatest(ptype)
}

/// A type is one of floating-point numbers.
pub open spec fn is_float(ptype: PType) -> bool {
    ptype == PType::F16 || ptype == PType::F32 || ptype == PType::F64
}

/// The quotient of two integers, rounded toward zero.
pub open spec fn quotient(a: int, b: int) -> int {
    if a < 0 && b < 0 {
        -a / -b
    } else if a < 0 {
        -(-a / b)
    } else if b < 0 {
        -(a / -b)
    } else {
        a / b
    }
}

/// The result of an operation on two integers of a type, where there is one in the type.
pub open spec fn integer_result(op: NumericOperator, ptype: PType, a: int, b: int) -> Option<int> {
    let result = match op {
        NumericOperator::Add => Some(a + b),
        NumericOperator::Sub => Some(a - b),
        NumericOperator::Mul => Some(a * b),
        NumericOperator::Div => if b == 0 {
            None
        } else {
            Some(quotient(a, b))
        },
    };
    match result {
        Some(value) => if in_range(ptype, value) {
            Some(value)
        } else {
            None
        },
        None => None,
    }
}

/// The numbers of a type are those from its least to its greatest machine value; a floating-point
/// number has as many bits as its type is wide.
pub proof fn law_in_range(value: int)
    ensures
        in_range(PType::U8, value) <==> u8::MIN <= value <= u8::MAX,
        in_range(PType::U16, value) <==> u16::MIN <= value <= u16::MAX,
        in_range(PType::U32, value) <==> u32::MIN <= value <= u32::MAX,
        in_range(PType::U64, value) <==> u64::MIN <= value <= u64::MAX,
        in_range(PType::I8, value) <==> i8::MIN <= value <= i8::MAX,
        in_range(PType::I16, value) <==> i16::MIN <= value <= i16::MAX,
        in_range(PType::I32, value) <==> i32::MIN <= value <= i32::MAX,
        in_range(PType::I64, value) <==> i64::MIN <= value <= i64::MAX,
        in_range(PType::F16, value) <==> u16::MIN <= value <= u16::MAX,
        in_range(PType::F32, value) <==> u32::MIN <= value <= u32::MAX,
        in_range(PType::F64, value) <==> u64::MIN <= value <= u64::MAX,
{
}

proof fn lemma_euclid(x: int, y: int)
    requires
        x >= 0,
        y > 0,
    ensures
        0 <= x - y * (x / y) < y,
        x / y >= 0,
{
    assert(0 <= x - y * (x / y) < y && x / y >= 0) by (nonlinear_arith)
        requires
            x >= 0,
            y > 0,
    ;
}

/// A dividend is the divisor times the quotient, and a remainder that is smaller than the divisor
/// and has the dividend's sign where it is not zero.
pub proof fn law_quotient(a: int, b: int)
    requires
        b != 0,
    ensures
        exists|r: int|
            {
                &&& a == #[trigger] (b * quotient(a, b) + r)
                &&& if b < 0 {
                    b < r < -b
                } else {
                    -b < r < b
                }
                &&& r == 0 || (r < 0 <==> a < 0)
            },
{
    let (x, y) = (if a < 0 { -a } else { a }, if b < 0 { -b } else { b });
    lemma_euclid(x, y);
    let d = x / y;
    let r = a - b * quotient(a, b);
    assert((-y) * d == -(y * d) && y * (-d) == -(y * d) && (-y) * (-d) == y * d) by (nonlinear_arith);
    assert(a == b * quotient(a, b) + r);
}

/// No other number than the quotient leaves such a remainder.
pub proof fn law_only_quotient(a: int, b: int, q: int, r: int)
    requires
        b != 0,
        a == b * q + r,
        if b < 0 {
            b < r < -b
        } else {
            -b < r < b
        },
        r == 0 || (r < 0 <==> a < 0),
    ensures
        q == quotient(a, b),
{
    law_quotient(a, b);
    let p = quotient(a, b);
    let t = choose|t: int|
        {
            &&& a == #[trigger] (b * quotient(a, b) + t)
            &&& if b < 0 {
                b < t < -b
            } else {
                -b < t < b
            }
            &&& t == 0 || (t < 0 <==> a < 0)
        };
    let size = if b < 0 {
        -b
    } else {
        b
    };
    assert(b * (q - p) == b * q - b * p) by (nonlinear_arith);
    assert(-size < b * (q - p) < size);
    assert(q == p) by (nonlinear_arith)
        requires
            -size < b * (q - p) < size,
            size == b || size == -b,
    ;
}

/// A sum, difference or product is the result where the type has it. A quotient is where the divisor
/// is not zero and the type has it. There is no result otherwise.
pub proof fn law_integer_result(ptype: PType, a: int, b: int)
    ensures
        forall|v: int|
            (#[trigger] integer_result(NumericOperator::Add, ptype, a, b) == Some(v)) <==> (v == a
                + b && in_range(ptype, v)),
        forall|v: int|
            (#[trigger] integer_result(NumericOperator::Sub, ptype, a, b) == Some(v)) <==> (v + b
                == a && in_range(ptype, v)),
        forall|v: int|
            (#[trigger] integer_result(NumericOperator::Mul, ptype, a, b) == Some(v)) <==> (v == a
                * b && in_range(ptype, v)),
        forall|v: int|
            (#[trigger] integer_result(NumericOperator::Div, ptype, a, b) == Some(v)) <==> (b != 0
                && in_range(ptype, v) && exists|r: int|
                {
                    &&& a == #[trigger] (b * v + r)
                    &&& if b < 0 {
                        b < r < -b
                    } else {
                        -b < r < b
                    }
                    &&& r == 0 || (r < 0 <==> a < 0)
                }),
{
    assert forall|v: int|
        (#[trigger] integer_result(NumericOperator::Div, ptype, a, b) == Some(v)) <==> (b != 0
            && in_range(ptype, v) && exists|r: int|
            {
                &&& a == #[trigger] (b * v + r)
                &&& if b < 0 {
                    b < r < -b
                } else {
                    -b < r < b
                }
                &&& r == 0 || (r < 0 <==> a < 0)
            }) by {
        if b != 0 {
            law_quotient(a, b);
            if exists|r: int|
                {
                    &&& a == #[trigger] (b * v + r)
                    &&& if b < 0 {
                        b < r < -b
                    } else {
                        -b < r < b
                    }
                    &&& r == 0 || (r < 0 <==> a < 0)
                } {
                let r = choose|r: int|
                    {
                        &&& a == #[trigger] (b * v + r)
                        &&& if b < 0 {
                            b < r < -b
                        } else {
                            -b < r < b
                        }
                        &&& r == 0 || (r < 0 <==> a < 0)
                    };
                law_only_quotient(a, b, v, r);
            }
        }
    }
}

/// The number that a value is; a floating-point number is given by its bits.
pub open spec fn number(value: PValue) -> int {
    match value {
        PValue::U8(v) => v as int,
        PValue::U16(v) => v as int,
        PValue::U32(v) => v as int,
        PValue::U64(v) => v as int,
        PValue::I8(v) => v as int,
        PValue::I16(v) => v as int,
        PValue::I32(v) => v as int,
        PValue::I64(v) => v as int,
        PValue::F16(v) => v as int,
        PValue::F32(v) => v as int,
        PValue::F64(v) => v as int,
    }
}

/// The number that a scalar holds, if it is not null.
pub open spec fn scalar_number(scalar: Scalar) -> Option<int> {
    match scalar.value {
        ScalarValue::Primitive(value) => Some(number(value)),
        _ => None,
    }
}

/// Every value is the number that it holds, and no two values of one type are the same number.
pub proof fn law_number(value: PValue, other: PValue)
    ensures
        match value {
            PValue::U8(v) => number(value) == v && ptype_of(value) == PType::U8,
            PValue::U16(v) => number(value) == v && ptype_of(value) == PType::U16,
            PValue::U32(v) => number(value) == v && ptype_of(value) == PType::U32,
            PValue::U64(v) => number(value) == v && ptype_of(value) == PType::U64,
            PValue::I8(v) => number(value) == v && ptype_of(value) == PType::I8,
            PValue::I16(v) => number(value) == v && ptype_of(value) == PType::I16,
            PValue::I32(v) => number(value) == v && ptype_of(value) == PType::I32,
            PValue::I64(v) => number(value) == v && ptype_of(value) == PType::I64,
            PValue::F16(bits) => number(value) == bits && ptype_of(value) == PType::F16,
            PValue::F32(bits) => number(value) == bits && ptype_of(value) == PType::F32,
            PValue::F64(bits) => number(value) == bits && ptype_of(value) == PType::F64,
        },
        ptype_of(value) == ptype_of(other) && number(value) == number(other) ==> value == other,
{
}

/// A scalar holds the number of its value, and none where it is null.
pub proof fn law_scalar_number(scalar: Scalar)
    ensures
        scalar.value matches ScalarValue::Primitive(value) ==> scalar_number(scalar) == Some(
            number(value),
        ),
        scalar.value is Null ==> scalar_number(scalar) is None,
{
}

impl PValue {
    /// The number that the value is; a floating-point number is given by its bits.
    pub fn to_number(&self) -> (result: i128)
        ensures
            result == number(*self),
            in_range(ptype_of(*self), result as int),
    {
        match *self {
            PValue::U8(v) => v as i128,
            PValue::U16(v) => v as i128,
            PValue::U32(v) => v as i128,
            PValue::U64(v) => v as i128,
            PValue::I8(v) => v as i128,
            PValue::I16(v) => v as i128,
            PValue::I32(v) => v as i128,
            PValue::I64(v) => v as i128,
            PValue::F16(v) => v as i128,
            PValue::F32(v) => v as i128,
            PValue::F64(v) => v as i128,
        }
    }

    /// The value of a type that a number of it is.
    pub fn from_number(ptype: PType, value: i128) -> (result: PValue)
        requires
            in_range(ptype, value as int),
        ensures
            number(result) == value,
            ptype_of(result) == ptype,
    {
        match ptype {
            PType::U8 => PValue::U8(value as u8),
            PType::U16 => PValue::U16(value as u16),
            PType::U32 => PValue::U32(value as u32),
            PType::U64 => PValue::U64(value as u64),
            PType::I8 => PValue::I8(value as i8),
            PType::I16 => PValue::I16(value as i16),
            PType::I32 => PValue::I32(value as i32),
            PType::I64 => PValue::I64(value as i64),
            PType::F16 => PValue::F16(value as u16),
            PType::F32 => PValue::F32(value as u32),
            PType::F64 => PValue::F64(value as u64),
        }
    }
}

/// The least and the greatest number of a type.
fn bounds(ptype: PType) -> (result: (i128, i128))
    ensures
        result.0 == least(ptype),
        result.1 == greatest(ptype),
{
    match ptype {
        PType::U8 => (0, 0xff),
        PType::U16 => (0, 0xffff),
        PType::U32 => (0, 0xffff_ffff),
        PType::U64 => (0, 0xffff_ffff_ffff_ffff),
        PType::I8 => (-0x80, 0x7f),
        PType::I16 => (-0x8000, 0x7fff),
        PType::I32 => (-0x8000_0000, 0x7fff_ffff),
        PType::I64 => (-0x8000_0000_0000_0000, 0x7fff_ffff_ffff_ffff),
        PType::F16 => (0, 0xffff),
        PType::F32 => (0, 0xffff_ffff),
        PType::F64 => (0, 0xffff_ffff_ffff_ffff),
    }
}

/// The size of a number.
fn magnitude(value: i128) -> (result: u128)
    requires
        -0x8000_0000_0000_0000 <= value <= 0xffff_ffff_ffff_ffff,
    ensures
        result == if value < 0 {
            -value
        } else {
            value as int
        },
        result <= 0xffff_ffff_ffff_ffff,
        value < 0 ==> result <= 0x8000_0000_0000_0000,
{
    if value < 0 {
        (-value) as u128
    } else {
        value as u128
    }
}

/// The result of an operation on two integers of a type, where there is one in the type.
pub fn checked_integer(op: NumericOperator, ptype: PType, a: i128, b: i128) -> (result: Option<i128>)
    requires
        in_range(ptype, a as int),
        in_range(ptype, b as int),
    ensures
        match result {
            Some(value) => integer_result(op, ptype, a as int, b as int) == Some(value as int),
            None => integer_result(op, ptype, a as int, b as int) is None,
        },
        result matches Some(value) ==> in_range(ptype, value as int) && match op {
            NumericOperator::Add => value == a + b,
            NumericOperator::Sub => value == a - b,
            NumericOperator::Mul => value == a * b,
            NumericOperator::Div => b != 0 && exists|r: int|
                {
                    &&& a == #[trigger] (b * value + r)
                    &&& if b < 0 {
                        b < r < -b
                    } else {
                        -b < r < b
                    }
                    &&& r == 0 || (r < 0 <==> a < 0)
                },
        },
        result is None ==> match op {
            NumericOperator::Add => !in_range(ptype, a + b),
            NumericOperator::Sub => !in_range(ptype, a - b),
            NumericOperator::Mul => !in_range(ptype, a * b),
            NumericOperator::Div => forall|value: int, r: int|
                b != 0 && a == #[trigger] (b * value + r) && (if b < 0 {
                    b < r < -b
                } else {
                    -b < r < b
                }) && (r == 0 || (r < 0 <==> a < 0)) ==> !in_range(ptype, value),
        },
{
    proof {
        law_integer_result(ptype, a as int, b as int);
    }
    let (low, high) = bounds(ptype);
    let value: i128 = match op {
        NumericOperator::Add => a + b,
        NumericOperator::Sub => a - b,
        NumericOperator::Mul => {
            let (x, y) = (magnitude(a), magnitude(b));
            proof {
                assert(0 <= x * y <= 0xffff_ffff_ffff_ffff * 0xffff_ffff_ffff_ffff)
                    by (nonlinear_arith)
                    requires
                        0 <= x <= 0xffff_ffff_ffff_ffff,
                        0 <= y <= 0xffff_ffff_ffff_ffff,
                ;
                let (s, t) = (x as int, y as int);
                assert((-s) * t == -(s * t) && s * (-t) == -(s * t) && (-s) * (-t) == s * t)
                    by (nonlinear_arith);
            }
            let size: u128 = x * y;
            if size > 0xffff_ffff_ffff_ffff {
                return None;
            }
            if (a < 0) == (b < 0) {
                size as i128
            } else {
                -(size as i128)
            }
        },
        NumericOperator::Div => {
            if b == 0 {
                return None;
            }
            let (x, y) = (magnitude(a), magnitude(b));
            proof {
                assert(0 <= x / y <= x) by (nonlinear_arith)
                    requires
                        x >= 0,
                        y > 0,
                ;
            }
            let size: u128 = x / y;
            if (a < 0) == (b < 0) {
                size as i128
            } else {
                -(size as i128)
            }
        },
    };
    if low <= value && value <= high {
        Some(value)
    } else {
        None
    }
}

/// Whether null is among the values of either type.
pub open spec fn either_nullable(a: DType, b: DType) -> Nullability {
    if crate::dtype::nullable(a@) || crate::dtype::nullable(b@) {
        Nullability::Nullable
    } else {
        Nullability::NonNullable
    }
}

impl Scalar {
    /// The result of an operation on two integers of one type: null where either is, and nothing
    /// where the result is not of the type or the divisor is zero.
    pub fn checked_binary_numeric(&self, other: &Scalar, op: NumericOperator) -> (result: Option<
        Scalar,
    >)
        requires
            self.valid_primitive(),
            other.valid_primitive(),
            self.dtype->Primitive_0 == other.dtype->Primitive_0,
            !is_float(self.dtype->Primitive_0),
        ensures
            match (scalar_number(*self), scalar_number(*other)) {
                (Some(a), Some(b)) => match integer_result(op, self.dtype->Primitive_0, a, b) {
                    Some(value) => result matches Some(scalar) && scalar_number(scalar) == Some(
                        value,
                    ),
                    None => result is None,
                },
                _ => result matches Some(scalar) && scalar_number(scalar) is None,
            },
            result matches Some(scalar) ==> {
                &&& scalar.valid_primitive()
                &&& scalar.dtype == DType::Primitive(
                    self.dtype->Primitive_0,
                    either_nullable(self.dtype, other.dtype),
                )
            },
    {
        let ptype = self.dtype.ptype();
        let nullability = if self.dtype.is_nullable() || other.dtype.is_nullable() {
            Nullability::Nullable
        } else {
            Nullability::NonNullable
        };
        match (&self.value, &other.value) {
            (ScalarValue::Primitive(a), ScalarValue::Primitive(b)) => {
                match checked_integer(op, ptype, a.to_number(), b.to_number()) {
                    Some(value) => Some(
                        Scalar::primitive(PValue::from_number(ptype, value), nullability),
                    ),
                    None => None,
                }
            },
            _ => Some(Scalar::null(DType::Primitive(ptype, nullability))),
        }
    }
}

/// The floating-point types are those of sixteen, thirty-two and sixty-four bits.
pub proof fn law_is_float(ptype: PType)
    ensures
        match ptype {
            PType::F16 | PType::F32 | PType::F64 => is_float(ptype),
            _ => !is_float(ptype),
        },
{
}

/// Null is among the results exactly where it is among the values of either type.
pub proof fn law_either_nullable(a: DType, b: DType)
    ensures
        either_nullable(a, b) == Nullability::Nullable <==> crate::dtype::nullable(a@)
            || crate::dtype::nullable(b@),
{
}

} // verus!
