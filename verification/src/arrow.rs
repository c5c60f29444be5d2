//! The arithmetic kernels of `arrow_arith`, on arrays of numbers.
use vstd::prelude::*;
use std::sync::Arc;
use arrow_array::cast::AsArray;
use arrow_array::types::{
    Float16Type, Float32Type, Float64Type, Int16Type, Int32Type, Int64Type, Int8Type, UInt16Type,
    UInt32Type, UInt64Type, UInt8Type,
};
use arrow_array::ArrowPrimitiveType;
use crate::arithmetic::{in_range, integer_result, is_float};
use crate::dtype::PType;
use crate::operator::NumericOperator;

verus! {

/// An `arrow_array::ArrayRef`: numbers of one type, some of them null.
#[verifier::external_body]
pub struct ArrowArray {
    array: arrow_array::ArrayRef,
}

/// An `arrow_array::Datum`: an array, or a single value that stands for an array of any length.
#[verifier::external_body]
pub struct ArrowDatum {
    datum: Box<dyn arrow_array::Datum>,
}

/// The elements of an `arrow_array::ArrayRef`, in order; a floating-point number is given by its
/// bits.
pub uninterp spec fn arrow_items(array: ArrowArray) -> Seq<Option<int>>;

/// The type of the elements of an `arrow_array::ArrayRef`.
pub uninterp spec fn arrow_ptype(array: ArrowArray) -> PType;

/// The elements of the array that an `arrow_array::Datum` holds.
pub uninterp spec fn datum_items(datum: ArrowDatum) -> Seq<Option<int>>;

/// The type of the elements of the array that an `arrow_array::Datum` holds.
pub uninterp spec fn datum_ptype(datum: ArrowDatum) -> PType;

/// Whether an `arrow_array::Datum` is a single value.
pub uninterp spec fn datum_is_scalar(datum: ArrowDatum) -> bool;

/// The bits of the sum that `arrow_arith::numeric::add` gives for two floating-point numbers.
pub uninterp spec fn float_sum(ptype: PType, a: int, b: int) -> int;

/// The bits of the difference that `arrow_arith::numeric::sub` gives for two floating-point numbers.
pub uninterp spec fn float_difference(ptype: PType, a: int, b: int) -> int;

/// The bits of the product that `arrow_arith::numeric::mul` gives for two floating-point numbers.
pub uninterp spec fn float_product(ptype: PType, a: int, b: int) -> int;

/// The bits of the quotient that `arrow_arith::numeric::div` gives for two floating-point numbers.
pub uninterp spec fn float_quotient(ptype: PType, a: int, b: int) -> int;

/// The numbers of a list of machine words.
pub open spec fn numbers(values: Seq<Option<i128>>) -> Seq<Option<int>> {
    values.map_values(
        |value: Option<i128>|
            match value {
                Some(v) => Some(v as int),
                None => None,
            },
    )
}

/// Every number of a list is one of a type.
pub open spec fn all_in_range(ptype: PType, values: Seq<Option<int>>) -> bool {
    forall|i: int|
        0 <= i < values.len() ==> ((#[trigger] values[i]) matches Some(v) ==> in_range(ptype, v))
}

/// The bits are those of a floating-point number that is not a number.
pub open spec fn is_nan(ptype: PType, bits: int) -> bool {
    match ptype {
        PType::F16 => bits / 0x400 % 0x20 == 0x1f && bits % 0x400 != 0,
        PType::F32 => bits / 0x80_0000 % 0x100 == 0xff && bits % 0x80_0000 != 0,
        PType::F64 => bits / 0x10_0000_0000_0000 % 0x800 == 0x7ff && bits % 0x10_0000_0000_0000 != 0,
        _ => false,
    }
}

/// The bits are those of the same floating-point number: there are many for one that is not a
/// number, and which of them an operation gives is left open.
pub open spec fn same_float(ptype: PType, a: int, b: int) -> bool {
    a == b || (is_nan(ptype, a) && is_nan(ptype, b))
}

/// The elements that an operation combines: those at the same place of two arrays of one length or
/// of two single values, and a single value with every element of an array. Arrays of different
/// lengths cannot be combined.
pub open spec fn paired(
    a: Seq<Option<int>>,
    a_is_scalar: bool,
    b: Seq<Option<int>>,
    b_is_scalar: bool,
) -> Option<Seq<(Option<int>, Option<int>)>> {
    if a_is_scalar == b_is_scalar {
        if a.len() == b.len() {
            Some(Seq::new(a.len(), |i: int| (a[i], b[i])))
        } else {
            None
        }
    } else if a_is_scalar {
        Some(Seq::new(b.len(), |i: int| (a[0], b[i])))
    } else {
        Some(Seq::new(a.len(), |i: int| (a[i], b[0])))
    }
}

/// Some integers among the elements have no result in their type.
pub open spec fn fails(
    op: NumericOperator,
    ptype: PType,
    pairs: Seq<(Option<int>, Option<int>)>,
) -> bool {
    &&& !is_float(ptype)
    &&& exists|i: int|
        0 <= i < pairs.len() && ((#[trigger] pairs[i]) matches (Some(a), Some(b))
            && integer_result(op, ptype, a, b) is None)
}

/// The result of combining elements. It is null where either is null. It fails where integers have
/// no result in their type. Floating-point numbers always have one.
pub open spec fn combined(
    op: NumericOperator,
    ptype: PType,
    float: spec_fn(int, int) -> int,
    pairs: Option<Seq<(Option<int>, Option<int>)>>,
    result: Option<Seq<Option<int>>>,
) -> bool {
    match (pairs, result) {
        (None, result) => result is None,
        (Some(pairs), Some(items)) => {
            &&& items.len() == pairs.len()
            &&& forall|i: int|
                0 <= i < items.len() ==> match (#[trigger] pairs[i]) {
                    (Some(a), Some(b)) => if is_float(ptype) {
                        items[i] matches Some(v) && same_float(ptype, v, float(a, b))
                    } else {
                        integer_result(op, ptype, a, b) matches Some(v) && items[i] == Some(v)
                    },
                    _ => items[i] is None,
                }
        },
        (Some(pairs), None) => fails(op, ptype, pairs),
    }
}

/// The elements of an array that an operation gave, if it gave one.
pub open spec fn outcome(result: Result<ArrowArray, arrow_schema::ArrowError>) -> Option<
    Seq<Option<int>>,
> {
    match result {
        Ok(array) => Some(arrow_items(array)),
        Err(_) => None,
    }
}

/// `FromIterator` of `arrow_array::UInt8Array`: the array of the given elements.
#[verifier::external_body]
fn u8_array(values: &Vec<Option<i128>>) -> (result: ArrowArray)
    requires
        all_in_range(PType::U8, numbers(values@)),
    ensures
        arrow_items(result) == numbers(values@),
        arrow_ptype(result) == PType::U8,
{
    let items = values.iter().map(|v| v.map(|v| v as u8));
    ArrowArray { array: Arc::new(arrow_array::UInt8Array::from_iter(items)) }
}

/// `FromIterator` of `arrow_array::UInt16Array`: the array of the given elements.
#[verifier::external_body]
fn u16_array(values: &Vec<Option<i128>>) -> (result: ArrowArray)
    requires
        all_in_range(PType::U16, numbers(values@)),
    ensures
        arrow_items(result) == numbers(values@),
        arrow_ptype(result) == PType::U16,
{
    let items = values.iter().map(|v| v.map(|v| v as u16));
    ArrowArray { array: Arc::new(arrow_array::UInt16Array::from_iter(items)) }
}

/// `FromIterator` of `arrow_array::UInt32Array`: the array of the given elements.
#[verifier::external_body]
fn u32_array(values: &Vec<Option<i128>>) -> (result: ArrowArray)
    requires
        all_in_range(PType::U32, numbers(values@)),
    ensures
        arrow_items(result) == numbers(values@),
        arrow_ptype(result) == PType::U32,
{
    let items = values.iter().map(|v| v.map(|v| v as u32));
    ArrowArray { array: Arc::new(arrow_array::UInt32Array::from_iter(items)) }
}

/// `FromIterator` of `arrow_array::UInt64Array`: the array of the given elements.
#[verifier::external_body]
fn u64_array(values: &Vec<Option<i128>>) -> (result: ArrowArray)
    requires
        all_in_range(PType::U64, numbers(values@)),
    ensures
        arrow_items(result) == numbers(values@),
        arrow_ptype(result) == PType::U64,
{
    let items = values.iter().map(|v| v.map(|v| v as u64));
    ArrowArray { array: Arc::new(arrow_array::UInt64Array::from_iter(items)) }
}

/// `FromIterator` of `arrow_array::Int8Array`: the array of the given elements.
#[verifier::external_body]
fn i8_array(values: &Vec<Option<i128>>) -> (result: ArrowArray)
    requires
        all_in_range(PType::I8, numbers(values@)),
    ensures
        arrow_items(result) == numbers(values@),
        arrow_ptype(result) == PType::I8,
{
    let items = values.iter().map(|v| v.map(|v| v as i8));
    ArrowArray { array: Arc::new(arrow_array::Int8Array::from_iter(items)) }
}

/// `FromIterator` of `arrow_array::Int16Array`: the array of the given elements.
#[verifier::external_body]
fn i16_array(values: &Vec<Option<i128>>) -> (result: ArrowArray)
    requires
        all_in_range(PType::I16, numbers(values@)),
    ensures
        arrow_items(result) == numbers(values@),
        arrow_ptype(result) == PType::I16,
{
    let items = values.iter().map(|v| v.map(|v| v as i16));
    ArrowArray { array: Arc::new(arrow_array::Int16Array::from_iter(items)) }
}

/// `FromIterator` of `arrow_array::Int32Array`: the array of the given elements.
#[verifier::external_body]
fn i32_array(values: &Vec<Option<i128>>) -> (result: ArrowArray)
    requires
        all_in_range(PType::I32, numbers(values@)),
    ensures
        arrow_items(result) == numbers(values@),
        arrow_ptype(result) == PType::I32,
{
    let items = values.iter().map(|v| v.map(|v| v as i32));
    ArrowArray { array: Arc::new(arrow_array::Int32Array::from_iter(items)) }
}

/// `FromIterator` of `arrow_array::Int64Array`: the array of the given elements.
#[verifier::external_body]
fn i64_array(values: &Vec<Option<i128>>) -> (result: ArrowArray)
    requires
        all_in_range(PType::I64, numbers(values@)),
    ensures
        arrow_items(result) == numbers(values@),
        arrow_ptype(result) == PType::I64,
{
    let items = values.iter().map(|v| v.map(|v| v as i64));
    ArrowArray { array: Arc::new(arrow_array::Int64Array::from_iter(items)) }
}

/// `FromIterator` of `arrow_array::Float16Array`: the array of the numbers with the given bits.
#[verifier::external_body]
fn half_array(values: &Vec<Option<i128>>) -> (result: ArrowArray)
    requires
        all_in_range(PType::F16, numbers(values@)),
    ensures
        arrow_items(result) == numbers(values@),
        arrow_ptype(result) == PType::F16,
{
    let items = values.iter().map(
        |v| v.map(|v| <<Float16Type as ArrowPrimitiveType>::Native>::from_bits(v as u16)),
    );
    ArrowArray { array: Arc::new(arrow_array::Float16Array::from_iter(items)) }
}

/// `FromIterator` of `arrow_array::Float32Array`: the array of the numbers with the given bits.
#[verifier::external_body]
fn single_array(values: &Vec<Option<i128>>) -> (result: ArrowArray)
    requires
        all_in_range(PType::F32, numbers(values@)),
    ensures
        arrow_items(result) == numbers(values@),
        arrow_ptype(result) == PType::F32,
{
    let items = values.iter().map(
        |v| v.map(|v| <<Float32Type as ArrowPrimitiveType>::Native>::from_bits(v as u32)),
    );
    ArrowArray { array: Arc::new(arrow_array::Float32Array::from_iter(items)) }
}

/// `FromIterator` of `arrow_array::Float64Array`: the array of the numbers with the given bits.
#[verifier::external_body]
fn double_array(values: &Vec<Option<i128>>) -> (result: ArrowArray)
    requires
        all_in_range(PType::F64, numbers(values@)),
    ensures
        arrow_items(result) == numbers(values@),
        arrow_ptype(result) == PType::F64,
{
    let items = values.iter().map(
        |v| v.map(|v| <<Float64Type as ArrowPrimitiveType>::Native>::from_bits(v as u64)),
    );
    ArrowArray { array: Arc::new(arrow_array::Float64Array::from_iter(items)) }
}

/// The array of the given elements.
pub(crate) fn arrow_array_of(ptype: PType, values: &Vec<Option<i128>>) -> (result: ArrowArray)
    requires
        all_in_range(ptype, numbers(values@)),
    ensures
        arrow_items(result) == numbers(values@),
        arrow_ptype(result) == ptype,
{
    match ptype {
        PType::U8 => u8_array(values),
        PType::U16 => u16_array(values),
        PType::U32 => u32_array(values),
        PType::U64 => u64_array(values),
        PType::I8 => i8_array(values),
        PType::I16 => i16_array(values),
        PType::I32 => i32_array(values),
        PType::I64 => i64_array(values),
        PType::F16 => half_array(values),
        PType::F32 => single_array(values),
        PType::F64 => double_array(values),
    }
}

/// `arrow_array::Array` as an `arrow_array::Datum`: the array itself.
#[verifier::external_body]
pub(crate) fn array_datum(array: ArrowArray) -> (result: ArrowDatum)
    ensures
        datum_items(result) == arrow_items(array),
        datum_ptype(result) == arrow_ptype(array),
        !datum_is_scalar(result),
{
    ArrowDatum { datum: Box::new(array.array) }
}

/// `arrow_array::Scalar::new`: the only element of the array, as a single value.
#[verifier::external_body]
pub(crate) fn scalar_datum(array: ArrowArray) -> (result: ArrowDatum)
    requires
        arrow_items(array).len() == 1,
    ensures
        datum_items(result) == arrow_items(array),
        datum_ptype(result) == arrow_ptype(array),
        datum_is_scalar(result),
{
    ArrowDatum { datum: Box::new(arrow_array::Scalar::new(array.array)) }
}

/// `arrow_arith::numeric::add`: the sums of the elements, or an error where integers overflow or the
/// lengths differ. Which error it is, is left open.
#[verifier::external_body]
pub(crate) fn arrow_add(lhs: &ArrowDatum, rhs: &ArrowDatum) -> (result: Result<
    ArrowArray,
    arrow_schema::ArrowError,
>)
    requires
        datum_ptype(*lhs) == datum_ptype(*rhs),
    ensures
        combined(
            NumericOperator::Add,
            datum_ptype(*lhs),
            |a: int, b: int| float_sum(datum_ptype(*lhs), a, b),
            paired(
                datum_items(*lhs),
                datum_is_scalar(*lhs),
                datum_items(*rhs),
                datum_is_scalar(*rhs),
            ),
            outcome(result),
        ),
        result matches Ok(array) ==> arrow_ptype(array) == datum_ptype(*lhs),
{
    arrow_arith::numeric::add(&*lhs.datum, &*rhs.datum).map(|array| ArrowArray { array })
}

/// `arrow_arith::numeric::sub`: the differences of the elements, or an error where integers overflow
/// or the lengths differ. Which error it is, is left open.
#[verifier::external_body]
pub(crate) fn arrow_sub(lhs: &ArrowDatum, rhs: &ArrowDatum) -> (result: Result<
    ArrowArray,
    arrow_schema::ArrowError,
>)
    requires
        datum_ptype(*lhs) == datum_ptype(*rhs),
    ensures
        combined(
            NumericOperator::Sub,
            datum_ptype(*lhs),
            |a: int, b: int| float_difference(datum_ptype(*lhs), a, b),
            paired(
                datum_items(*lhs),
                datum_is_scalar(*lhs),
                datum_items(*rhs),
                datum_is_scalar(*rhs),
            ),
            outcome(result),
        ),
        result matches Ok(array) ==> arrow_ptype(array) == datum_ptype(*lhs),
{
    arrow_arith::numeric::sub(&*lhs.datum, &*rhs.datum).map(|array| ArrowArray { array })
}

/// `arrow_arith::numeric::mul`: the products of the elements, or an error where integers overflow or
/// the lengths differ. Which error it is, is left open.
#[verifier::external_body]
pub(crate) fn arrow_mul(lhs: &ArrowDatum, rhs: &ArrowDatum) -> (result: Result<
    ArrowArray,
    arrow_schema::ArrowError,
>)
    requires
        datum_ptype(*lhs) == datum_ptype(*rhs),
    ensures
        combined(
            NumericOperator::Mul,
            datum_ptype(*lhs),
            |a: int, b: int| float_product(datum_ptype(*lhs), a, b),
            paired(
                datum_items(*lhs),
                datum_is_scalar(*lhs),
                datum_items(*rhs),
                datum_is_scalar(*rhs),
            ),
            outcome(result),
        ),
        result matches Ok(array) ==> arrow_ptype(array) == datum_ptype(*lhs),
{
    arrow_arith::numeric::mul(&*lhs.datum, &*rhs.datum).map(|array| ArrowArray { array })
}

/// `arrow_arith::numeric::div`: the quotients of the elements, those of integers rounded toward zero,
/// or an error where integers overflow, an integer is divided by zero or the lengths differ. Which
/// error it is, is left open.
#[verifier::external_body]
pub(crate) fn arrow_div(lhs: &ArrowDatum, rhs: &ArrowDatum) -> (result: Result<
    ArrowArray,
    arrow_schema::ArrowError,
>)
    requires
        datum_ptype(*lhs) == datum_ptype(*rhs),
    ensures
        combined(
            NumericOperator::Div,
            datum_ptype(*lhs),
            |a: int, b: int| float_quotient(datum_ptype(*lhs), a, b),
            paired(
                datum_items(*lhs),
                datum_is_scalar(*lhs),
                datum_items(*rhs),
                datum_is_scalar(*rhs),
            ),
            outcome(result),
        ),
        result matches Ok(array) ==> arrow_ptype(array) == datum_ptype(*lhs),
{
    arrow_arith::numeric::div(&*lhs.datum, &*rhs.datum).map(|array| ArrowArray { array })
}

/// `arrow_array::PrimitiveArray::iter`: the elements of an `arrow_array::UInt8Array`.
#[verifier::external_body]
fn u8_values(array: &ArrowArray) -> (result: Vec<Option<i128>>)
    requires
        arrow_ptype(*array) == PType::U8,
    ensures
        numbers(result@) == arrow_items(*array),
        all_in_range(PType::U8, numbers(result@)),
{
    array.array.as_primitive::<UInt8Type>().iter().map(|v| v.map(i128::from)).collect()
}

/// `arrow_array::PrimitiveArray::iter`: the elements of an `arrow_array::UInt16Array`.
#[verifier::external_body]
fn u16_values(array: &ArrowArray) -> (result: Vec<Option<i128>>)
    requires
        arrow_ptype(*array) == PType::U16,
    ensures
        numbers(result@) == arrow_items(*array),
        all_in_range(PType::U16, numbers(result@)),
{
    array.array.as_primitive::<UInt16Type>().iter().map(|v| v.map(i128::from)).collect()
}

/// `arrow_array::PrimitiveArray::iter`: the elements of an `arrow_array::UInt32Array`.
#[verifier::external_body]
fn u32_values(array: &ArrowArray) -> (result: Vec<Option<i128>>)
    requires
        arrow_ptype(*array) == PType::U32,
    ensures
        numbers(result@) == arrow_items(*array),
        all_in_range(PType::U32, numbers(result@)),
{
    array.array.as_primitive::<UInt32Type>().iter().map(|v| v.map(i128::from)).collect()
}

/// `arrow_array::PrimitiveArray::iter`: the elements of an `arrow_array::UInt64Array`.
#[verifier::external_body]
fn u64_values(array: &ArrowArray) -> (result: Vec<Option<i128>>)
    requires
        arrow_ptype(*array) == PType::U64,
    ensures
        numbers(result@) == arrow_items(*array),
        all_in_range(PType::U64, numbers(result@)),
{
    array.array.as_primitive::<UInt64Type>().iter().map(|v| v.map(i128::from)).collect()
}

/// `arrow_array::PrimitiveArray::iter`: the elements of an `arrow_array::Int8Array`.
#[verifier::external_body]
fn i8_values(array: &ArrowArray) -> (result: Vec<Option<i128>>)
    requires
        arrow_ptype(*array) == PType::I8,
    ensures
        numbers(result@) == arrow_items(*array),
        all_in_range(PType::I8, numbers(result@)),
{
    array.array.as_primitive::<Int8Type>().iter().map(|v| v.map(i128::from)).collect()
}

/// `arrow_array::PrimitiveArray::iter`: the elements of an `arrow_array::Int16Array`.
#[verifier::external_body]
fn i16_values(array: &ArrowArray) -> (result: Vec<Option<i128>>)
    requires
        arrow_ptype(*array) == PType::I16,
    ensures
        numbers(result@) == arrow_items(*array),
        all_in_range(PType::I16, numbers(result@)),
{
    array.array.as_primitive::<Int16Type>().iter().map(|v| v.map(i128::from)).collect()
}

/// `arrow_array::PrimitiveArray::iter`: the elements of an `arrow_array::Int32Array`.
#[verifier::external_body]
fn i32_values(array: &ArrowArray) -> (result: Vec<Option<i128>>)
    requires
        arrow_ptype(*array) == PType::I32,
    ensures
        numbers(result@) == arrow_items(*array),
        all_in_range(PType::I32, numbers(result@)),
{
    array.array.as_primitive::<Int32Type>().iter().map(|v| v.map(i128::from)).collect()
}

/// `arrow_array::PrimitiveArray::iter`: the elements of an `arrow_array::Int64Array`.
#[verifier::external_body]
fn i64_values(array: &ArrowArray) -> (result: Vec<Option<i128>>)
    requires
        arrow_ptype(*array) == PType::I64,
    ensures
        numbers(result@) == arrow_items(*array),
        all_in_range(PType::I64, numbers(result@)),
{
    array.array.as_primitive::<Int64Type>().iter().map(|v| v.map(i128::from)).collect()
}

/// `arrow_array::PrimitiveArray::iter`: the bits of the elements of an `arrow_array::Float16Array`.
#[verifier::external_body]
fn half_values(array: &ArrowArray) -> (result: Vec<Option<i128>>)
    requires
        arrow_ptype(*array) == PType::F16,
    ensures
        numbers(result@) == arrow_items(*array),
        all_in_range(PType::F16, numbers(result@)),
{
    let items = array.array.as_primitive::<Float16Type>().iter();
    items.map(|v| v.map(|v| i128::from(v.to_bits()))).collect()
}

/// `arrow_array::PrimitiveArray::iter`: the bits of the elements of an `arrow_array::Float32Array`.
#[verifier::external_body]
fn single_values(array: &ArrowArray) -> (result: Vec<Option<i128>>)
    requires
        arrow_ptype(*array) == PType::F32,
    ensures
        numbers(result@) == arrow_items(*array),
        all_in_range(PType::F32, numbers(result@)),
{
    let items = array.array.as_primitive::<Float32Type>().iter();
    items.map(|v| v.map(|v| i128::from(v.to_bits()))).collect()
}

/// `arrow_array::PrimitiveArray::iter`: the bits of the elements of an `arrow_array::Float64Array`.
#[verifier::external_body]
fn double_values(array: &ArrowArray) -> (result: Vec<Option<i128>>)
    requires
        arrow_ptype(*array) == PType::F64,
    ensures
        numbers(result@) == arrow_items(*array),
        all_in_range(PType::F64, numbers(result@)),
{
    let items = array.array.as_primitive::<Float64Type>().iter();
    items.map(|v| v.map(|v| i128::from(v.to_bits()))).collect()
}

/// The elements of an array.
pub(crate) fn arrow_values(ptype: PType, array: &ArrowArray) -> (result: Vec<Option<i128>>)
    requires
        arrow_ptype(*array) == ptype,
    ensures
        numbers(result@) == arrow_items(*array),
        all_in_range(ptype, numbers(result@)),
{
    match ptype {
        PType::U8 => u8_values(array),
        PType::U16 => u16_values(array),
        PType::U32 => u32_values(array),
        PType::U64 => u64_values(array),
        PType::I8 => i8_values(array),
        PType::I16 => i16_values(array),
        PType::I32 => i32_values(array),
        PType::I64 => i64_values(array),
        PType::F16 => half_values(array),
        PType::F32 => single_values(array),
        PType::F64 => double_values(array),
    }
}

/// Bits of a floating-point number are not of a number exactly where, without the sign, they are above those
/// of infinity.
pub proof fn law_is_nan(bits: int)
    requires
        bits >= 0,
    ensures
        bits <= u16::MAX ==> (is_nan(PType::F16, bits) <==> bits % 0x8000 > 0x7c00),
        bits <= u32::MAX ==> (is_nan(PType::F32, bits) <==> bits % 0x8000_0000 > 0x7f80_0000),
        bits <= u64::MAX ==> (is_nan(PType::F64, bits) <==> bits % 0x8000_0000_0000_0000
            > 0x7ff0_0000_0000_0000),
{
}

/// Two numbers are the same where their bits are, or where neither is a number.
pub proof fn law_same_float(ptype: PType, a: int, b: int)
    ensures
        a == b ==> same_float(ptype, a, b),
        same_float(ptype, a, b) && !is_nan(ptype, a) ==> a == b,
        same_float(ptype, a, b) && !is_nan(ptype, b) ==> a == b,
{
}

} // verus!
