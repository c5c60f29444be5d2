use vortex_read::array::{Array, ConstantArray, PrimitiveArray};
use vortex_read::dtype::{DType, Nullability, PType};
use vortex_read::error::VortexError;
use vortex_read::numeric::{
    add, add_scalar, div, div_scalar, execute_numeric, mul, mul_scalar, numeric, sub, sub_scalar,
};
use vortex_read::operator::{NumericOperator, Operator};
use vortex_read::scalar::{PValue, Scalar, ScalarValue};

fn numbers(ptype: PType, values: &[i128]) -> Array {
    Array::Primitive(PrimitiveArray {
        ptype,
        nullability: Nullability::NonNullable,
        values: values.iter().map(|v| Some(*v)).collect(),
    })
}

fn optional(ptype: PType, values: &[Option<i128>]) -> Array {
    Array::Primitive(PrimitiveArray {
        ptype,
        nullability: Nullability::Nullable,
        values: values.to_vec(),
    })
}

fn scalar(value: PValue) -> Scalar {
    Scalar::primitive(value, Nullability::NonNullable)
}

fn constant(value: PValue, len: usize) -> Array {
    Array::Constant(ConstantArray { scalar: scalar(value), len })
}

fn null_constant(ptype: PType, len: usize) -> Array {
    let scalar = Scalar::null(DType::Primitive(ptype, Nullability::Nullable));
    Array::Constant(ConstantArray { scalar, len })
}

fn primitive(array: Array) -> (PType, Nullability, Vec<Option<i128>>) {
    match array {
        Array::Primitive(a) => (a.ptype, a.nullability, a.values),
        Array::Constant(_) => panic!("a constant"),
    }
}

fn single(array: Array) -> (Option<i128>, bool, usize) {
    match array {
        Array::Constant(a) => {
            let value = match a.scalar.value {
                ScalarValue::Primitive(value) => Some(value.to_number()),
                _ => None,
            };
            (value, a.scalar.dtype.is_nullable(), a.len)
        }
        Array::Primitive(_) => panic!("no constant"),
    }
}

fn doubles(values: &[f64]) -> Array {
    let bits: Vec<i128> = values.iter().map(|v| v.to_bits() as i128).collect();
    numbers(PType::F64, &bits)
}

fn singles(values: &[f32]) -> Array {
    let bits: Vec<i128> = values.iter().map(|v| v.to_bits() as i128).collect();
    numbers(PType::F32, &bits)
}

#[test]
fn test_scalar_subtract_unsigned() {
    let values = numbers(PType::U16, &[1, 2, 3]);
    let result = sub_scalar(&values, scalar(PValue::U16(1))).unwrap();
    assert_eq!(
        primitive(result),
        (PType::U16, Nullability::NonNullable, vec![Some(0), Some(1), Some(2)])
    );
}

#[test]
fn test_scalar_subtract_signed() {
    let values = numbers(PType::I64, &[1, 2, 3]);
    let result = sub_scalar(&values, scalar(PValue::I64(-1))).unwrap();
    assert_eq!(
        primitive(result),
        (PType::I64, Nullability::NonNullable, vec![Some(2), Some(3), Some(4)])
    );
}

#[test]
fn test_scalar_subtract_nullable() {
    let values = optional(PType::U16, &[Some(1), Some(2), None, Some(3)]);
    let one = Scalar::primitive(PValue::U16(1), Nullability::Nullable);
    let result = sub_scalar(&values, one).unwrap();
    assert_eq!(
        primitive(result),
        (PType::U16, Nullability::Nullable, vec![Some(0), Some(1), None, Some(2)])
    );
}

#[test]
fn test_scalar_subtract_float() {
    let values = doubles(&[1.0, 2.0, 3.0]);
    let to_subtract = -1f64;
    let result = sub_scalar(&values, scalar(PValue::F64(to_subtract.to_bits()))).unwrap();
    assert_eq!(primitive(result), primitive(doubles(&[2.0, 3.0, 4.0])));
}

#[test]
fn test_scalar_subtract_float_underflow_is_ok() {
    let values = singles(&[f32::MIN, 2.0, 3.0]);
    let _results = sub_scalar(&values, scalar(PValue::F32(1.0f32.to_bits()))).unwrap();
    let _results = sub_scalar(&values, scalar(PValue::F32(f32::MAX.to_bits()))).unwrap();
}

#[test]
fn sums_of_every_integer_type() {
    let types = [
        PType::U8,
        PType::U16,
        PType::U32,
        PType::U64,
        PType::I8,
        PType::I16,
        PType::I32,
        PType::I64,
    ];
    for ptype in types {
        let a = optional(ptype, &[Some(1), None, Some(100)]);
        let b = optional(ptype, &[Some(2), Some(3), Some(27)]);
        let result = add(&a, &b).unwrap();
        assert_eq!(
            primitive(result),
            (ptype, Nullability::Nullable, vec![Some(3), None, Some(127)])
        );
    }
}

#[test]
fn sums_of_negative_numbers() {
    for ptype in [PType::I8, PType::I16, PType::I32, PType::I64] {
        let a = numbers(ptype, &[-100, 100]);
        let b = numbers(ptype, &[-28, -100]);
        assert_eq!(
            primitive(add(&a, &b).unwrap()),
            (ptype, Nullability::NonNullable, vec![Some(-128), Some(0)])
        );
    }
}

#[test]
fn products_and_quotients() {
    let a = numbers(PType::I32, &[7, -7, 7, -7]);
    let b = numbers(PType::I32, &[2, 2, -2, -2]);
    assert_eq!(
        primitive(mul(&a, &b).unwrap()).2,
        vec![Some(14), Some(-14), Some(-14), Some(14)]
    );
    assert_eq!(
        primitive(div(&a, &b).unwrap()).2,
        vec![Some(3), Some(-3), Some(-3), Some(3)]
    );
    assert_eq!(
        primitive(mul_scalar(&a, scalar(PValue::I32(3))).unwrap()).2,
        vec![Some(21), Some(-21), Some(21), Some(-21)]
    );
    assert_eq!(
        primitive(div_scalar(&a, scalar(PValue::I32(-7))).unwrap()).2,
        vec![Some(-1), Some(1), Some(-1), Some(1)]
    );
    assert_eq!(
        primitive(add_scalar(&a, scalar(PValue::I32(1))).unwrap()).2,
        vec![Some(8), Some(-6), Some(8), Some(-6)]
    );
    assert_eq!(
        primitive(sub(&a, &b).unwrap()).2,
        vec![Some(5), Some(-9), Some(9), Some(-5)]
    );
}

#[test]
fn overflow_is_an_error() {
    let a = numbers(PType::U8, &[255]);
    assert!(matches!(add_scalar(&a, scalar(PValue::U8(1))), Err(VortexError::Arrow(_))));
    let zero = numbers(PType::U8, &[0]);
    assert!(matches!(sub_scalar(&zero, scalar(PValue::U8(1))), Err(VortexError::Arrow(_))));
    assert!(matches!(div_scalar(&a, scalar(PValue::U8(0))), Err(VortexError::Arrow(_))));
    let least = numbers(PType::I8, &[-128]);
    assert!(matches!(div_scalar(&least, scalar(PValue::I8(-1))), Err(VortexError::Arrow(_))));
    let large = numbers(PType::U64, &[u64::MAX as i128]);
    assert!(matches!(mul(&large, &large), Err(VortexError::Arrow(_))));
}

#[test]
fn overflow_under_a_null_is_no_error() {
    let a = optional(PType::U8, &[Some(255), Some(1)]);
    let b = optional(PType::U8, &[None, Some(1)]);
    assert_eq!(primitive(add(&a, &b).unwrap()).2, vec![None, Some(2)]);
}

#[test]
fn a_null_constant_gives_nulls() {
    let a = numbers(PType::U8, &[255, 1]);
    let result = add(&a, &null_constant(PType::U8, 2)).unwrap();
    assert_eq!(primitive(result), (PType::U8, Nullability::Nullable, vec![None, None]));
    let result = sub(&null_constant(PType::U8, 2), &a).unwrap();
    assert_eq!(primitive(result), (PType::U8, Nullability::Nullable, vec![None, None]));
}

#[test]
fn a_constant_on_the_left() {
    let a = numbers(PType::I16, &[1, 2, 3]);
    let result = sub(&constant(PValue::I16(10), 3), &a).unwrap();
    assert_eq!(primitive(result).2, vec![Some(9), Some(8), Some(7)]);
}

#[test]
fn constants_give_a_constant() {
    let two = constant(PValue::I64(2), 5);
    let three = constant(PValue::I64(3), 5);
    assert_eq!(single(add(&two, &three).unwrap()), (Some(5), false, 5));
    assert_eq!(single(sub(&two, &three).unwrap()), (Some(-1), false, 5));
    assert_eq!(single(mul(&two, &three).unwrap()), (Some(6), false, 5));
    assert_eq!(single(div(&three, &two).unwrap()), (Some(1), false, 5));
    assert_eq!(
        single(div(&constant(PValue::I64(-7), 1), &two).unwrap()),
        (Some(-3), false, 1)
    );
    let null = null_constant(PType::I64, 5);
    assert_eq!(single(add(&two, &null).unwrap()), (None, true, 5));
    assert_eq!(single(div(&null, &constant(PValue::I64(0), 5)).unwrap()), (None, true, 5));
}

#[test]
fn constants_overflow() {
    let most = constant(PValue::U64(u64::MAX), 3);
    let one = constant(PValue::U64(1), 3);
    let zero = constant(PValue::U64(0), 3);
    assert!(matches!(add(&most, &one), Err(VortexError::NumericOverflow)));
    assert!(matches!(sub(&zero, &one), Err(VortexError::NumericOverflow)));
    assert!(matches!(mul(&most, &most), Err(VortexError::NumericOverflow)));
    assert!(matches!(div(&one, &zero), Err(VortexError::NumericOverflow)));
    let least = constant(PValue::I64(i64::MIN), 3);
    let minus_one = constant(PValue::I64(-1), 3);
    assert!(matches!(div(&least, &minus_one), Err(VortexError::NumericOverflow)));
    assert!(matches!(mul(&least, &minus_one), Err(VortexError::NumericOverflow)));
    assert_eq!(single(mul(&most, &one).unwrap()), (Some(u64::MAX as i128), false, 3));
    assert_eq!(
        single(mul(&least, &constant(PValue::I64(1), 3)).unwrap()),
        (Some(i64::MIN as i128), false, 3)
    );
}

#[test]
fn floats_of_every_width() {
    let a = singles(&[1.5, -2.0]);
    let b = singles(&[0.25, 4.0]);
    assert_eq!(primitive(add(&a, &b).unwrap()), primitive(singles(&[1.75, 2.0])));
    assert_eq!(primitive(mul(&a, &b).unwrap()), primitive(singles(&[0.375, -8.0])));
    assert_eq!(primitive(div(&a, &b).unwrap()), primitive(singles(&[6.0, -0.5])));
    let c = doubles(&[1.5, -2.0]);
    let d = doubles(&[0.25, 4.0]);
    assert_eq!(primitive(sub(&c, &d).unwrap()), primitive(doubles(&[1.25, -6.0])));
    // 1.0 and 2.0 in half precision, and their sum.
    let one = numbers(PType::F16, &[0x3c00]);
    let two = numbers(PType::F16, &[0x4000]);
    assert_eq!(primitive(add(&one, &two).unwrap()).2, vec![Some(0x4200)]);
}

#[test]
fn float_constants() {
    let a = constant(PValue::F64(1.5f64.to_bits()), 2);
    let b = constant(PValue::F64(0.5f64.to_bits()), 2);
    let (value, nullable, len) = single(div(&a, &b).unwrap());
    assert_eq!((value, nullable, len), (Some(3.0f64.to_bits() as i128), false, 2));
    let zero = constant(PValue::F64(0.0f64.to_bits()), 2);
    let (value, _, _) = single(div(&a, &zero).unwrap());
    assert_eq!(value, Some(f64::INFINITY.to_bits() as i128));
    let (value, _, _) = single(div(&zero, &zero).unwrap());
    assert!(f64::from_bits(value.unwrap() as u64).is_nan());
}

#[test]
fn arrays_of_different_lengths() {
    let a = numbers(PType::U8, &[1, 2]);
    let b = numbers(PType::U8, &[1, 2, 3]);
    assert!(matches!(add(&a, &b), Err(VortexError::Arrow(_))));
}

#[test]
fn a_constant_of_another_length() {
    let b = numbers(PType::U8, &[1, 2, 3]);
    assert!(matches!(
        add(&constant(PValue::U8(1), 2), &b),
        Err(VortexError::LengthMismatch { expected: 2, actual: 3 })
    ));
    let one = numbers(PType::U8, &[4]);
    assert_eq!(single(add(&constant(PValue::U8(1), 2), &one).unwrap()), (Some(5), false, 2));
    assert_eq!(
        primitive(add(&b, &constant(PValue::U8(1), 9)).unwrap()).2,
        vec![Some(2), Some(3), Some(4)]
    );
}

#[test]
fn operators_that_compute_no_number() {
    let a = numbers(PType::U8, &[1]);
    let c = constant(PValue::U8(1), 1);
    assert!(matches!(
        execute_numeric(&a, &a, Operator::Lt),
        Err(VortexError::UnsupportedOperator(Operator::Lt))
    ));
    assert!(matches!(
        execute_numeric(&c, &c, Operator::And),
        Err(VortexError::UnsupportedOperator(Operator::And))
    ));
    assert!(matches!(
        NumericOperator::try_from(Operator::Eq),
        Err(VortexError::UnsupportedOperator(Operator::Eq))
    ));
}

#[test]
fn operators_round_trip() {
    let all = [
        (NumericOperator::Add, Operator::Add, "Add"),
        (NumericOperator::Sub, Operator::Sub, "Sub"),
        (NumericOperator::Mul, Operator::Mul, "Mul"),
        (NumericOperator::Div, Operator::Div, "Div"),
    ];
    for (numeric, operator, name) in all {
        assert_eq!(Operator::from(numeric), operator);
        assert_eq!(NumericOperator::try_from(operator).unwrap(), numeric);
        assert_eq!(numeric.name(), name);
    }
}

#[test]
fn empty_arrays() {
    let a = numbers(PType::U8, &[]);
    let result = numeric(&a, &a, NumericOperator::Div).unwrap();
    assert!(result.is_empty());
    assert_eq!(result.len(), 0);
}

#[test]
fn checked_scalars() {
    let a = scalar(PValue::U8(200));
    let b = scalar(PValue::U8(55));
    let sum = a.checked_binary_numeric(&b, NumericOperator::Add).unwrap();
    assert!(matches!(sum.value, ScalarValue::Primitive(PValue::U8(255))));
    let c = scalar(PValue::U8(56));
    assert!(a.checked_binary_numeric(&c, NumericOperator::Add).is_none());
}
