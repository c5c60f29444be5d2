//! Arithmetic on arrays, element by element.
use vstd::prelude::*;
use std::sync::Arc;
use crate::arithmetic::{either_nullable, in_range, integer_result, is_float, law_integer_result, number, scalar_number};
use crate::array::{Array, ConstantArray, PrimitiveArray};
use crate::arrow::{
    all_in_range, array_datum, arrow_add, arrow_array_of, arrow_div, arrow_items, arrow_mul,
    arrow_ptype, arrow_sub, arrow_values, combined, datum_is_scalar, datum_items, datum_ptype,
    fails, float_difference, float_product, float_quotient, float_sum, numbers, outcome, paired,
    same_float, scalar_datum, ArrowArray, ArrowDatum,
};
use crate::dtype::{DType, Nullability, PType};
use crate::error::{VortexError, VortexResult};
use crate::operator::{numeric_of, NumericOperator, Operator};
use crate::scalar::{ptype_of, PValue, Scalar, ScalarValue};

verus! {

/// The bits of the result of an operation on two floating-point numbers.
pub open spec fn float_result(op: NumericOperator, ptype: PType, a: int, b: int) -> int {
    match op {
        NumericOperator::Add => float_sum(ptype, a, b),
        NumericOperator::Sub => float_difference(ptype, a, b),
        NumericOperator::Mul => float_product(ptype, a, b),
        NumericOperator::Div => float_quotient(ptype, a, b),
    }
}

/// The elements that an array holds: the only value of a constant, and all those of another.
pub open spec fn held(array: Array) -> Seq<Option<int>> {
    match array {
        Array::Constant(a) => seq![scalar_number(a.scalar)],
        Array::Primitive(a) => numbers(a.values@),
    }
}

/// The type of an array's numbers.
pub open spec fn ptype_in(array: Array) -> PType {
    array.spec_dtype()->Primitive_0
}

/// An array holds numbers of its type, and null only where its type admits it.
pub open spec fn valid_array(array: Array) -> bool {
    match array {
        Array::Constant(a) => a.scalar.valid_primitive(),
        Array::Primitive(a) => {
            &&& all_in_range(a.ptype, numbers(a.values@))
            &&& a.nullability == Nullability::NonNullable ==> forall|i: int|
                0 <= i < a.values@.len() ==> (#[trigger] a.values@[i]) is Some
        },
    }
}

/// The elements of two arrays that an operation combines.
pub open spec fn pairs_of(lhs: Array, rhs: Array) -> Option<Seq<(Option<int>, Option<int>)>> {
    paired(held(lhs), lhs is Constant, held(rhs), rhs is Constant)
}

/// The elements of an array are the results of an operation on pairs of elements.
pub open spec fn results_in(
    op: NumericOperator,
    ptype: PType,
    pairs: Seq<(Option<int>, Option<int>)>,
    array: Array,
) -> bool {
    combined(
        op,
        ptype,
        |a: int, b: int| float_result(op, ptype, a, b),
        Some(pairs),
        Some(held(array)),
    )
}

/// The result of an operation on two arrays.
///
/// Two constants give a constant, and fail where their result is not of their type. Otherwise the
/// elements are combined one by one, the value of a constant with each element of the other array;
/// that fails where the arrays are of different lengths or a result is not of the type. What comes
/// out has the length of the left side; a single element is repeated to it.
pub open spec fn numeric_outcome(
    lhs: Array,
    rhs: Array,
    op: NumericOperator,
    result: VortexResult<Array>,
) -> bool {
    let ptype = ptype_in(lhs);
    let len = lhs.spec_len();
    let constants = lhs is Constant && rhs is Constant;
    match pairs_of(lhs, rhs) {
        None => result matches Err(VortexError::Arrow(_)),
        Some(pairs) => if fails(op, ptype, pairs) {
            if constants {
                result matches Err(VortexError::NumericOverflow)
            } else {
                result matches Err(VortexError::Arrow(_))
            }
        } else if constants || (pairs.len() == 1 && len != 1) {
            result matches Ok(array) && {
                &&& array matches Array::Constant(a) && a.len == len
                &&& results_in(op, ptype, pairs, array)
                &&& valid_array(array)
                &&& array.spec_dtype() == DType::Primitive(
                    ptype,
                    either_nullable(lhs.spec_dtype(), rhs.spec_dtype()),
                )
            }
        } else if pairs.len() == len {
            result matches Ok(array) && {
                &&& array is Primitive
                &&& results_in(op, ptype, pairs, array)
                &&& valid_array(array)
                &&& array.spec_dtype() == DType::Primitive(
                    ptype,
                    either_nullable(lhs.spec_dtype(), rhs.spec_dtype()),
                )
            }
        } else {
            result matches Err(VortexError::LengthMismatch { expected, actual }) && expected == len
                && actual == pairs.len()
        },
    }
}

/// An array as the kernels take it: a constant as a single value.
fn datum(array: &Array) -> (result: ArrowDatum)
    requires
        valid_array(*array),
    ensures
        datum_items(result) == held(*array),
        datum_ptype(result) == ptype_in(*array),
        datum_is_scalar(result) == (*array is Constant),
{
    match array {
        Array::Constant(a) => {
            let ptype = a.scalar.dtype.ptype();
            let value: Option<i128> = match &a.scalar.value {
                ScalarValue::Primitive(value) => Some(value.to_number()),
                _ => None,
            };
            let mut values: Vec<Option<i128>> = Vec::new();
            values.push(value);
            assert(numbers(values@) =~= held(*array));
            scalar_datum(arrow_array_of(ptype, &values))
        },
        Array::Primitive(a) => array_datum(arrow_array_of(a.ptype, &a.values)),
    }
}

/// The kernel of an operation.
fn kernel(op: NumericOperator, lhs: &ArrowDatum, rhs: &ArrowDatum) -> (result: Result<
    ArrowArray,
    arrow_schema::ArrowError,
>)
    requires
        datum_ptype(*lhs) == datum_ptype(*rhs),
    ensures
        combined(
            op,
            datum_ptype(*lhs),
            |a: int, b: int| float_result(op, datum_ptype(*lhs), a, b),
            paired(
                datum_items(*lhs),
                datum_is_scalar(*lhs),
                datum_items(*rhs),
                datum_is_scalar(*rhs),
            ),
            outcome(result),
        ),
        result matches Ok(array) ==> arrow_ptype(array) == datum_ptype(*lhs),
{
    match op {
        NumericOperator::Add => arrow_add(lhs, rhs),
        NumericOperator::Sub => arrow_sub(lhs, rhs),
        NumericOperator::Mul => arrow_mul(lhs, rhs),
        NumericOperator::Div => arrow_div(lhs, rhs),
    }
}

/// Whether null is among the values of either array's type.
fn result_nullability(lhs: &Array, rhs: &Array) -> (result: Nullability)
    ensures
        result == either_nullable(lhs.spec_dtype(), rhs.spec_dtype()),
{
    if lhs.dtype().is_nullable() || rhs.dtype().is_nullable() {
        Nullability::Nullable
    } else {
        Nullability::NonNullable
    }
}

/// The scalar of a number that may be null.
fn scalar_of(ptype: PType, nullability: Nullability, value: Option<i128>) -> (result: Scalar)
    requires
        value matches Some(v) ==> in_range(ptype, v as int),
        value is None ==> nullability == Nullability::Nullable,
    ensures
        result.valid_primitive(),
        result.dtype == DType::Primitive(ptype, nullability),
        scalar_number(result) == match value {
            Some(v) => Some(v as int),
            None => None,
        },
{
    match value {
        Some(v) => Scalar::primitive(PValue::from_number(ptype, v), nullability),
        None => Scalar::null(DType::Primitive(ptype, nullability)),
    }
}

/// Where neither array can hold null, no pair of their elements does.
proof fn lemma_no_nulls(lhs: Array, rhs: Array, i: int)
    requires
        valid_array(lhs),
        valid_array(rhs),
        pairs_of(lhs, rhs) is Some,
        0 <= i < pairs_of(lhs, rhs)->0.len(),
        lhs.spec_dtype() is Primitive,
        rhs.spec_dtype() is Primitive,
        either_nullable(lhs.spec_dtype(), rhs.spec_dtype()) == Nullability::NonNullable,
    ensures
        pairs_of(lhs, rhs)->0[i].0 is Some,
        pairs_of(lhs, rhs)->0[i].1 is Some,
{
    if let Array::Primitive(a) = lhs {
        if i < a.values@.len() {
            assert(a.values@[i] is Some);
        }
    }
    if let Array::Primitive(a) = rhs {
        if i < a.values@.len() {
            assert(a.values@[i] is Some);
        }
    }
}

/// An operation on two constants, or nothing where one of the arrays is none.
fn constant_numeric(lhs: &Array, rhs: &Array, op: Operator) -> (result: VortexResult<Option<Array>>)
    requires
        valid_array(*lhs),
        valid_array(*rhs),
        ptype_in(*lhs) == ptype_in(*rhs),
    ensures
        if lhs is Constant && rhs is Constant {
            match numeric_of(op) {
                Some(numeric) => match result {
                    Ok(Some(array)) => numeric_outcome(*lhs, *rhs, numeric, Ok(array)),
                    Ok(None) => false,
                    Err(error) => numeric_outcome(*lhs, *rhs, numeric, Err(error)),
                },
                None => result matches Err(VortexError::UnsupportedOperator(other)) && other == op,
            }
        } else {
            result matches Ok(None)
        },
{
    let (left, right) = match (lhs, rhs) {
        (Array::Constant(left), Array::Constant(right)) => (left, right),
        _ => {
            return Ok(None);
        },
    };
    let scalar_op = match NumericOperator::try_from(op) {
        Ok(op) => op,
        Err(error) => {
            return Err(error);
        },
    };
    let ptype = left.scalar.dtype.ptype();
    let ghost pairs = pairs_of(*lhs, *rhs)->0;
    assert(pairs =~= seq![(scalar_number(left.scalar), scalar_number(right.scalar))]);
    let scalar = match ptype {
        PType::F16 | PType::F32 | PType::F64 => {
            match kernel(scalar_op, &datum(lhs), &datum(rhs)) {
                Ok(array) => {
                    let values = arrow_values(ptype, &array);
                    proof {
                        assert(numbers(values@).len() == 1);
                        assert(numbers(values@)[0] == arrow_items(array)[0]);
                        assert(pairs[0] == (
                            scalar_number(left.scalar),
                            scalar_number(right.scalar),
                        ));
                    }
                    scalar_of(ptype, result_nullability(lhs, rhs), values[0])
                },
                Err(error) => {
                    return Err(VortexError::Arrow(Arc::new(error)));
                },
            }
        },
        _ => {
            assert(pairs[0] == (scalar_number(left.scalar), scalar_number(right.scalar)));
            match left.scalar.checked_binary_numeric(&right.scalar, scalar_op) {
                Some(scalar) => scalar,
                None => {
                    return Err(VortexError::NumericOverflow);
                },
            }
        },
    };
    let array = Array::Constant(ConstantArray { scalar, len: left.len });
    Ok(Some(array))
}

/// An operation on two arrays by the kernels.
fn arrow_numeric(lhs: &Array, rhs: &Array, operator: Operator) -> (result: VortexResult<Array>)
    requires
        valid_array(*lhs),
        valid_array(*rhs),
        ptype_in(*lhs) == ptype_in(*rhs),
        !(lhs is Constant && rhs is Constant),
    ensures
        match numeric_of(operator) {
            Some(numeric) => numeric_outcome(*lhs, *rhs, numeric, result),
            None => result matches Err(VortexError::UnsupportedOperator(other)) && other
                == operator,
        },
{
    let nullability = result_nullability(lhs, rhs);
    let len = lhs.len();
    let left = datum(lhs);
    let right = datum(rhs);
    let op = match NumericOperator::try_from(operator) {
        Ok(op) => op,
        Err(error) => {
            return Err(error);
        },
    };
    let array = match kernel(op, &left, &right) {
        Ok(array) => array,
        Err(error) => {
            return Err(VortexError::Arrow(Arc::new(error)));
        },
    };
    let ptype = lhs.ptype();
    let values = arrow_values(ptype, &array);
    let ghost pairs = pairs_of(*lhs, *rhs)->0;
    proof {
        assert(numbers(values@).len() == pairs.len());
        assert(!fails(op, ptype, pairs));
        assert forall|i: int|
            0 <= i < values@.len() && nullability == Nullability::NonNullable implies (
        #[trigger] values@[i]) is Some by {
            lemma_no_nulls(*lhs, *rhs, i);
            assert(numbers(values@)[i] is Some);
        }
    }
    if values.len() == len {
        return Ok(Array::Primitive(PrimitiveArray { ptype, nullability, values }));
    }
    if values.len() == 1 {
        proof {
            assert(numbers(values@)[0] == held(Array::Primitive(
                PrimitiveArray { ptype, nullability, values },
            ))[0]);
            assert(values@[0] is None ==> nullability == Nullability::Nullable);
        }
        let scalar = scalar_of(ptype, nullability, values[0]);
        let constant = Array::Constant(ConstantArray { scalar, len });
        assert(held(constant) =~= numbers(values@));
        return Ok(constant);
    }
    Err(VortexError::LengthMismatch { expected: len, actual: values.len() })
}

/// An operation on two arrays: two constants are combined as they are, anything else by the kernels.
pub fn execute_numeric(lhs: &Array, rhs: &Array, op: Operator) -> (result: VortexResult<Array>)
    requires
        valid_array(*lhs),
        valid_array(*rhs),
        ptype_in(*lhs) == ptype_in(*rhs),
    ensures
        match numeric_of(op) {
            Some(numeric) => numeric_outcome(*lhs, *rhs, numeric, result),
            None => result matches Err(VortexError::UnsupportedOperator(other)) && other == op,
        },
{
    match constant_numeric(lhs, rhs, op) {
        Ok(Some(array)) => Ok(array),
        Ok(None) => arrow_numeric(lhs, rhs, op),
        Err(error) => Err(error),
    }
}

/// Point-wise numeric operation between two arrays of the same type and length.
pub fn numeric(lhs: &Array, rhs: &Array, op: NumericOperator) -> (result: VortexResult<Array>)
    requires
        valid_array(*lhs),
        valid_array(*rhs),
        ptype_in(*lhs) == ptype_in(*rhs),
    ensures
        numeric_outcome(*lhs, *rhs, op, result),
{
    execute_numeric(lhs, rhs, Operator::from(op))
}

/// The array of a scalar in each row of another array.
pub open spec fn repeated_over(scalar: Scalar, array: Array) -> Array {
    Array::Constant(ConstantArray { scalar, len: array.spec_len() as usize })
}

/// A scalar is a number of the type of an array's numbers, or null where its own type admits it.
pub open spec fn matches_type(scalar: Scalar, array: Array) -> bool {
    &&& scalar.valid_primitive()
    &&& scalar.dtype->Primitive_0 == ptype_in(array)
}

/// Point-wise add two numeric arrays.
///
/// Errs at runtime if the sum would overflow or underflow.
///
/// The result is null at any index that either input is null.
pub fn add(lhs: &Array, rhs: &Array) -> (result: VortexResult<Array>)
    requires
        valid_array(*lhs),
        valid_array(*rhs),
        ptype_in(*lhs) == ptype_in(*rhs),
    ensures
        numeric_outcome(*lhs, *rhs, NumericOperator::Add, result),
{
    numeric(lhs, rhs, NumericOperator::Add)
}

/// Point-wise add a scalar value to this array on the right-hand-side.
pub fn add_scalar(lhs: &Array, rhs: Scalar) -> (result: VortexResult<Array>)
    requires
        valid_array(*lhs),
        matches_type(rhs, *lhs),
    ensures
        numeric_outcome(*lhs, repeated_over(rhs, *lhs), NumericOperator::Add, result),
{
    let rhs = Array::Constant(ConstantArray { scalar: rhs, len: lhs.len() });
    numeric(lhs, &rhs, NumericOperator::Add)
}

/// Point-wise subtract two numeric arrays.
pub fn sub(lhs: &Array, rhs: &Array) -> (result: VortexResult<Array>)
    requires
        valid_array(*lhs),
        valid_array(*rhs),
        ptype_in(*lhs) == ptype_in(*rhs),
    ensures
        numeric_outcome(*lhs, *rhs, NumericOperator::Sub, result),
{
    numeric(lhs, rhs, NumericOperator::Sub)
}

/// Point-wise subtract a scalar value from this array on the right-hand-side.
pub fn sub_scalar(lhs: &Array, rhs: Scalar) -> (result: VortexResult<Array>)
    requires
        valid_array(*lhs),
        matches_type(rhs, *lhs),
    ensures
        numeric_outcome(*lhs, repeated_over(rhs, *lhs), NumericOperator::Sub, result),
{
    let rhs = Array::Constant(ConstantArray { scalar: rhs, len: lhs.len() });
    numeric(lhs, &rhs, NumericOperator::Sub)
}

/// Point-wise multiply two numeric arrays.
pub fn mul(lhs: &Array, rhs: &Array) -> (result: VortexResult<Array>)
    requires
        valid_array(*lhs),
        valid_array(*rhs),
        ptype_in(*lhs) == ptype_in(*rhs),
    ensures
        numeric_outcome(*lhs, *rhs, NumericOperator::Mul, result),
{
    numeric(lhs, rhs, NumericOperator::Mul)
}

/// Point-wise multiply a scalar value into this array on the right-hand-side.
pub fn mul_scalar(lhs: &Array, rhs: Scalar) -> (result: VortexResult<Array>)
    requires
        valid_array(*lhs),
        matches_type(rhs, *lhs),
    ensures
        numeric_outcome(*lhs, repeated_over(rhs, *lhs), NumericOperator::Mul, result),
{
    let rhs = Array::Constant(ConstantArray { scalar: rhs, len: lhs.len() });
    numeric(lhs, &rhs, NumericOperator::Mul)
}

/// Point-wise divide two numeric arrays.
pub fn div(lhs: &Array, rhs: &Array) -> (result: VortexResult<Array>)
    requires
        valid_array(*lhs),
        valid_array(*rhs),
        ptype_in(*lhs) == ptype_in(*rhs),
    ensures
        numeric_outcome(*lhs, *rhs, NumericOperator::Div, result),
{
    numeric(lhs, rhs, NumericOperator::Div)
}

/// Point-wise divide a scalar value into this array on the right-hand-side.
pub fn div_scalar(lhs: &Array, rhs: Scalar) -> (result: VortexResult<Array>)
    requires
        valid_array(*lhs),
        matches_type(rhs, *lhs),
    ensures
        numeric_outcome(*lhs, repeated_over(rhs, *lhs), NumericOperator::Div, result),
{
    let rhs = Array::Constant(ConstantArray { scalar: rhs, len: lhs.len() });
    numeric(lhs, &rhs, NumericOperator::Div)
}

/// The elements of an array, one for each row.
pub open spec fn elements(array: Array) -> Seq<Option<int>> {
    match array {
        Array::Constant(a) => Seq::new(a.len as nat, |i: int| scalar_number(a.scalar)),
        Array::Primitive(a) => numbers(a.values@),
    }
}

/// An operation on two arrays of one type and length gives an array of that length. It is null at
/// exactly the rows where either array is. Anywhere else it is the result of the operation on the
/// two elements.
pub proof fn law_elementwise(lhs: Array, rhs: Array, op: NumericOperator, result: Array)
    requires
        valid_array(lhs),
        valid_array(rhs),
        ptype_in(lhs) == ptype_in(rhs),
        lhs.spec_len() == rhs.spec_len(),
        numeric_outcome(lhs, rhs, op, Ok(result)),
    ensures
        elements(result).len() == lhs.spec_len(),
        forall|i: int|
            0 <= i < lhs.spec_len() ==> match (elements(lhs)[i], elements(rhs)[i]) {
                (Some(a), Some(b)) => if is_float(ptype_in(lhs)) {
                    (#[trigger] elements(result)[i]) matches Some(v) && same_float(
                        ptype_in(lhs),
                        v,
                        float_result(op, ptype_in(lhs), a, b),
                    )
                } else {
                    integer_result(op, ptype_in(lhs), a, b) is Some && elements(result)[i]
                        == integer_result(op, ptype_in(lhs), a, b)
                },
                _ => elements(result)[i] is None,
            },
{
    let pairs = pairs_of(lhs, rhs)->0;
    assert forall|i: int| 0 <= i < lhs.spec_len() implies match (elements(lhs)[i], elements(rhs)[i]) {
        (Some(a), Some(b)) => if is_float(ptype_in(lhs)) {
            (#[trigger] elements(result)[i]) matches Some(v) && same_float(
                ptype_in(lhs),
                v,
                float_result(op, ptype_in(lhs), a, b),
            )
        } else {
            integer_result(op, ptype_in(lhs), a, b) is Some && elements(result)[i]
                == integer_result(op, ptype_in(lhs), a, b)
        },
        _ => elements(result)[i] is None,
    } by {
        if lhs is Constant && rhs is Constant {
            assert(pairs[0] == (elements(lhs)[i], elements(rhs)[i]));
            assert(held(result)[0] == elements(result)[i]);
        } else {
            assert(pairs[i] == (elements(lhs)[i], elements(rhs)[i]));
            assert(held(result)[i] == elements(result)[i]);
        }
    }
}

/// An operation on two arrays of floating-point numbers of one type and length never fails.
pub proof fn law_floats_never_fail(
    lhs: Array,
    rhs: Array,
    op: NumericOperator,
    result: VortexResult<Array>,
)
    requires
        ptype_in(lhs) == ptype_in(rhs),
        is_float(ptype_in(lhs)),
        lhs.spec_len() == rhs.spec_len(),
        numeric_outcome(lhs, rhs, op, result),
    ensures
        result is Ok,
{
}

/// An array of numbers has an element for each of its values, null where the value is missing. A
/// constant has its number in each of its rows.
pub proof fn law_elements(array: Array)
    ensures
        match array {
            Array::Primitive(own) => {
                &&& elements(array).len() == own.values@.len()
                &&& forall|i: int|
                    0 <= i < own.values@.len() ==> match own.values@[i] {
                        Some(v) => #[trigger] elements(array)[i] == Some(v as int),
                        None => elements(array)[i] is None,
                    }
            },
            Array::Constant(own) => {
                &&& elements(array).len() == own.len
                &&& forall|i: int|
                    0 <= i < own.len ==> match own.scalar.value {
                        ScalarValue::Primitive(value) => #[trigger] elements(array)[i] == Some(
                            number(value),
                        ),
                        _ => elements(array)[i] is None,
                    }
            },
        },
{
}

/// An operation on two arrays of integers of one type and length gives, in each row where neither is
/// null, the sum, difference or product of the two elements, or the number of times that the second
/// goes into the first, and null in every other row. The result can be null where either array can.
pub proof fn law_integers(lhs: Array, rhs: Array, op: NumericOperator, result: Array)
    requires
        valid_array(lhs),
        valid_array(rhs),
        ptype_in(lhs) == ptype_in(rhs),
        ptype_in(lhs) != PType::F16,
        ptype_in(lhs) != PType::F32,
        ptype_in(lhs) != PType::F64,
        lhs.spec_len() == rhs.spec_len(),
        numeric_outcome(lhs, rhs, op, Ok(result)),
    ensures
        elements(result).len() == lhs.spec_len(),
        result.spec_dtype() matches DType::Primitive(ptype, nullability) && {
            &&& ptype == ptype_in(lhs)
            &&& nullability == Nullability::Nullable <==> lhs.spec_dtype()->Primitive_1
                == Nullability::Nullable || rhs.spec_dtype()->Primitive_1 == Nullability::Nullable
        },
        forall|i: int|
            0 <= i < lhs.spec_len() ==> match (elements(lhs)[i], elements(rhs)[i]) {
                (Some(a), Some(b)) => (#[trigger] elements(result)[i]) matches Some(v) && in_range(
                    ptype_in(lhs),
                    v,
                ) && match op {
                    NumericOperator::Add => v == a + b,
                    NumericOperator::Sub => v == a - b,
                    NumericOperator::Mul => v == a * b,
                    NumericOperator::Div => b != 0 && exists|r: int|
                        {
                            &&& a == #[trigger] (b * v + r)
                            &&& if b < 0 {
                                b < r < -b
                            } else {
                                -b < r < b
                            }
                            &&& r == 0 || (r < 0 <==> a < 0)
                        },
                },
                _ => elements(result)[i] is None,
            },
{
    law_elementwise(lhs, rhs, op, result);
    assert forall|i: int| 0 <= i < lhs.spec_len() implies match (elements(lhs)[i], elements(rhs)[i]) {
        (Some(a), Some(b)) => (#[trigger] elements(result)[i]) matches Some(v) && in_range(
            ptype_in(lhs),
            v,
        ) && match op {
            NumericOperator::Add => v == a + b,
            NumericOperator::Sub => v == a - b,
            NumericOperator::Mul => v == a * b,
            NumericOperator::Div => b != 0 && exists|r: int|
                {
                    &&& a == #[trigger] (b * v + r)
                    &&& if b < 0 {
                        b < r < -b
                    } else {
                        -b < r < b
                    }
                    &&& r == 0 || (r < 0 <==> a < 0)
                },
        },
        _ => elements(result)[i] is None,
    } by {
        if let (Some(a), Some(b)) = (elements(lhs)[i], elements(rhs)[i]) {
            law_integer_result(ptype_in(lhs), a, b);
        }
    }
}

/// An operation on two arrays of integers of one type and length fails only where the type has no
/// result for some row: the sum, difference or product is not of the type, or the divisor is zero or
/// leaves no quotient of the type.
pub proof fn law_integers_fail(
    lhs: Array,
    rhs: Array,
    op: NumericOperator,
    result: VortexResult<Array>,
)
    requires
        valid_array(lhs),
        valid_array(rhs),
        lhs.spec_dtype() is Primitive,
        ptype_in(lhs) == ptype_in(rhs),
        lhs.spec_len() == rhs.spec_len(),
        lhs.spec_len() > 0,
        numeric_outcome(lhs, rhs, op, result),
        result is Err,
    ensures
        exists|i: int|
            0 <= i < lhs.spec_len() && ((#[trigger] elements(lhs)[i], elements(rhs)[i]) matches (
                Some(a),
                Some(b),
            ) && match op {
                NumericOperator::Add => !in_range(ptype_in(lhs), a + b),
                NumericOperator::Sub => !in_range(ptype_in(lhs), a - b),
                NumericOperator::Mul => !in_range(ptype_in(lhs), a * b),
                NumericOperator::Div => forall|v: int, r: int|
                    b != 0 && a == #[trigger] (b * v + r) && (if b < 0 {
                        b < r < -b
                    } else {
                        -b < r < b
                    }) && (r == 0 || (r < 0 <==> a < 0)) ==> !in_range(ptype_in(lhs), v),
            }),
{
    let ptype = ptype_in(lhs);
    let pairs = pairs_of(lhs, rhs)->0;
    assert(fails(op, ptype, pairs));
    let k = choose|k: int|
        0 <= k < pairs.len() && ((#[trigger] pairs[k]) matches (Some(a), Some(b))
            && integer_result(op, ptype, a, b) is None);
    assert(pairs[k] == (elements(lhs)[k], elements(rhs)[k]));
    let (a, b) = (elements(lhs)[k]->0, elements(rhs)[k]->0);
    law_integer_result(ptype, a, b);
    if op == NumericOperator::Div {
        assert forall|v: int, r: int|
            b != 0 && a == #[trigger] (b * v + r) && (if b < 0 {
                b < r < -b
            } else {
                -b < r < b
            }) && (r == 0 || (r < 0 <==> a < 0)) implies !in_range(ptype, v) by {
            assert(integer_result(NumericOperator::Div, ptype, a, b) != Some(v));
        }
    }
}

/// An operation on two arrays of floating-point numbers of one type and length gives, in each row
/// where neither is null, what the kernel of that operation gives for the two, and null in every
/// other row.
pub proof fn law_floats(lhs: Array, rhs: Array, op: NumericOperator, result: Array)
    requires
        valid_array(lhs),
        valid_array(rhs),
        ptype_in(lhs) == ptype_in(rhs),
        ptype_in(lhs) == PType::F16 || ptype_in(lhs) == PType::F32 || ptype_in(lhs) == PType::F64,
        lhs.spec_len() == rhs.spec_len(),
        numeric_outcome(lhs, rhs, op, Ok(result)),
    ensures
        elements(result).len() == lhs.spec_len(),
        forall|i: int|
            0 <= i < lhs.spec_len() ==> match (elements(lhs)[i], elements(rhs)[i]) {
                (Some(a), Some(b)) => (#[trigger] elements(result)[i]) matches Some(v)
                    && same_float(
                    ptype_in(lhs),
                    v,
                    match op {
                        NumericOperator::Add => float_sum(ptype_in(lhs), a, b),
                        NumericOperator::Sub => float_difference(ptype_in(lhs), a, b),
                        NumericOperator::Mul => float_product(ptype_in(lhs), a, b),
                        NumericOperator::Div => float_quotient(ptype_in(lhs), a, b),
                    },
                ),
                _ => elements(result)[i] is None,
            },
{
    law_elementwise(lhs, rhs, op, result);
}

/// Arrays of different lengths are not combined.
pub proof fn law_lengths_differ(
    lhs: PrimitiveArray,
    rhs: PrimitiveArray,
    op: NumericOperator,
    result: VortexResult<Array>,
)
    requires
        lhs.values@.len() != rhs.values@.len(),
        numeric_outcome(Array::Primitive(lhs), Array::Primitive(rhs), op, result),
    ensures
        result matches Err(VortexError::Arrow(_)),
{
}

/// A scalar in each row of an array has as many rows as the array, and its number in each.
pub proof fn law_repeated_over(scalar: Scalar, array: Array)
    requires
        array.spec_len() <= usize::MAX,
    ensures
        elements(repeated_over(scalar, array)).len() == array.spec_len(),
        forall|i: int|
            0 <= i < array.spec_len() ==> #[trigger] elements(repeated_over(scalar, array))[i]
                == scalar_number(scalar),
{
}

/// An array's numbers are of the type that it says, and it is valid where they are, and none is missing
/// unless null is among its values.
pub proof fn law_valid_array(array: Array)
    ensures
        match array {
            Array::Primitive(own) => {
                &&& ptype_in(array) == own.ptype
                &&& (forall|i: int|
                    0 <= i < own.values@.len() ==> match #[trigger] own.values@[i] {
                        Some(v) => in_range(own.ptype, v as int),
                        None => own.nullability == Nullability::Nullable,
                    }) ==> valid_array(array)
            },
            Array::Constant(own) => own.scalar.dtype matches DType::Primitive(ptype, nullability)
                ==> {
                &&& ptype_in(array) == ptype
                &&& own.scalar.value is Null && nullability == Nullability::Nullable ==> valid_array(
                    array,
                )
                &&& own.scalar.value matches ScalarValue::Primitive(value) ==> (ptype_of(value)
                    == ptype ==> valid_array(array))
            },
        },
{
    if let Array::Primitive(own) = array {
        if forall|i: int|
            0 <= i < own.values@.len() ==> match #[trigger] own.values@[i] {
                Some(v) => in_range(own.ptype, v as int),
                None => own.nullability == Nullability::Nullable,
            } {
            assert forall|i: int| 0 <= i < numbers(own.values@).len() implies ((
            #[trigger] numbers(own.values@)[i]) matches Some(v) ==> in_range(own.ptype, v)) by {
                assert(own.values@[i] matches Some(v) ==> in_range(own.ptype, v as int));
            }
        }
    }
}

/// Two constants give a constant of as many rows, and the error that says that there is no result. Two
/// arrays give an array of numbers.
pub proof fn law_result_kind(
    lhs: Array,
    rhs: Array,
    op: NumericOperator,
    result: VortexResult<Array>,
)
    requires
        numeric_outcome(lhs, rhs, op, result),
        lhs.spec_len() == rhs.spec_len(),
    ensures
        lhs is Constant && rhs is Constant ==> match result {
            Ok(array) => array matches Array::Constant(own) && own.len == lhs.spec_len(),
            Err(error) => error is NumericOverflow,
        },
        !(lhs is Constant && rhs is Constant) ==> match result {
            Ok(array) => array is Primitive,
            Err(error) => error is Arrow,
        },
{
}

} // verus!
