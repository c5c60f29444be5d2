use std::sync::Arc;
use vortex_read::array::{Array, ConstantArray, PrimitiveArray};
use vortex_read::display::{DisplayTree, Edge, Label};
use vortex_read::dtype::{DType, DecimalDType, ExtDType, Nullability, PType, StructFields};
use vortex_read::error::VortexError;
use vortex_read::estimate::estimated_decoded_bytes;
use vortex_read::expr::{
    get_item_dtype, Arity, ExecutionArgs, Expression, InputArray, ScalarFn, VTable, VTableExt,
};
use vortex_read::future::{ArrayFuture, ArrayPlan};
use vortex_read::reader::{Reader, ReaderRef};
use vortex_read::readers::chunked::ChunkedReader;
use vortex_read::readers::constant::ConstantReader;
use vortex_read::readers::dict::DictReader;
use vortex_read::readers::flat::FlatReader;
use vortex_read::readers::struct_::StructReader;
use vortex_read::readers::zoned::ZonedReader;
use vortex_read::row::SegmentId;
use vortex_read::scalar::{PValue, Scalar, ScalarValue};
use vortex_read::stats::{statistic, Precision, Stat, Statistic, StatsSet};

const REQUIRED: Nullability = Nullability::NonNullable;
const OPTIONAL: Nullability = Nullability::Nullable;

fn primitive(ptype: PType) -> DType {
    DType::Primitive(ptype, REQUIRED)
}

fn struct_of(fields: Vec<(&str, DType)>, nullability: Nullability) -> DType {
    let (names, dtypes): (Vec<String>, Vec<DType>) =
        fields.into_iter().map(|(name, dtype)| (name.to_string(), dtype)).unzip();
    DType::Struct(Arc::new(StructFields::new(names, dtypes)), nullability)
}

fn extension(storage_dtype: DType) -> DType {
    DType::Extension(Arc::new(ExtDType {
        id: "test.ext".to_string(),
        storage_dtype,
        metadata: Some(vec![1, 2]),
    }))
}

fn decimal(precision: u8, scale: i8) -> DType {
    DType::Decimal(DecimalDType::new(precision, scale), REQUIRED)
}

fn numbers(values: &[i128]) -> Array {
    Array::Primitive(PrimitiveArray {
        ptype: PType::U32,
        nullability: REQUIRED,
        values: values.iter().map(|v| Some(*v)).collect(),
    })
}

#[test]
fn estimates_by_type() {
    assert_eq!(estimated_decoded_bytes(&DType::Null, 7), 0);
    assert_eq!(estimated_decoded_bytes(&DType::Bool(REQUIRED), 7), 7);
    let widths = [
        (PType::U8, 1),
        (PType::I8, 1),
        (PType::U16, 2),
        (PType::I16, 2),
        (PType::F16, 2),
        (PType::U32, 4),
        (PType::I32, 4),
        (PType::F32, 4),
        (PType::U64, 8),
        (PType::I64, 8),
        (PType::F64, 8),
    ];
    for (ptype, width) in widths {
        assert_eq!(estimated_decoded_bytes(&primitive(ptype), 7), 7 * width);
    }
    assert_eq!(estimated_decoded_bytes(&DType::Utf8(REQUIRED), 3), 192);
    assert_eq!(estimated_decoded_bytes(&DType::Binary(OPTIONAL), 3), 192);
}

#[test]
fn estimates_of_decimals() {
    for (precision, width) in [(2, 1), (4, 2), (9, 4), (18, 8), (38, 16), (76, 32)] {
        assert_eq!(estimated_decoded_bytes(&decimal(precision, 0), 3), 3 * width);
    }
    assert_eq!(estimated_decoded_bytes(&decimal(3, 0), 1), 2);
    assert_eq!(estimated_decoded_bytes(&decimal(5, 0), 1), 4);
    assert_eq!(estimated_decoded_bytes(&decimal(10, 0), 1), 8);
    assert_eq!(estimated_decoded_bytes(&decimal(19, 0), 1), 16);
    assert_eq!(estimated_decoded_bytes(&decimal(39, 0), 1), 32);
}

#[test]
fn estimates_of_nested_types() {
    let list = DType::List(Arc::new(primitive(PType::U32)), REQUIRED);
    assert_eq!(estimated_decoded_bytes(&list, 2), 80);
    let fixed = DType::FixedSizeList(Arc::new(primitive(PType::U16)), 5, REQUIRED);
    assert_eq!(estimated_decoded_bytes(&fixed, 3), 30);
    let dtype = struct_of(vec![("a", primitive(PType::U64)), ("b", list)], REQUIRED);
    assert_eq!(estimated_decoded_bytes(&dtype, 2), 96);
    assert_eq!(estimated_decoded_bytes(&extension(dtype), 2), 96);
}

#[test]
fn estimates_are_proportional_to_the_rows() {
    let dtype = struct_of(vec![("a", primitive(PType::U64)), ("b", decimal(20, 2))], REQUIRED);
    let one = estimated_decoded_bytes(&dtype, 1);
    for rows in 0..5 {
        assert_eq!(estimated_decoded_bytes(&dtype, rows), rows * one);
    }
}

#[test]
fn estimates_do_not_overflow() {
    let text = DType::Utf8(REQUIRED);
    assert_eq!(estimated_decoded_bytes(&text, usize::MAX), usize::MAX);
}

#[test]
fn slices_share_the_estimate() {
    let plan = ArrayPlan::Ready(numbers(&[1, 2, 3]));
    let future = ArrayFuture::new(3, 100, plan);
    assert_eq!((future.len(), future.estimated_bytes()), (3, 100));
    let first = future.slice(0..1);
    let rest = future.slice(1..3);
    assert_eq!((first.len(), first.estimated_bytes()), (1, 33));
    assert_eq!((rest.len(), rest.estimated_bytes()), (2, 66));
    assert_eq!(future.slice(0..3).estimated_bytes(), 100);
    assert!(future.slice(2..2).is_empty());
    assert!(matches!(rest.plan(), ArrayPlan::Slice { start: 1, end: 3, .. }));
}

#[test]
fn ready_arrays_take_nothing() {
    let future = ArrayFuture::ready(numbers(&[1, 2]));
    assert_eq!((future.len(), future.estimated_bytes()), (2, 0));
    assert!(!future.is_empty());
    let empty = ArrayFuture::ready(numbers(&[]));
    assert!(empty.is_empty());
    assert_eq!(empty.slice(0..0).estimated_bytes(), 0);
    assert_eq!(future.clone().len(), 2);
}

#[test]
fn nullable_types() {
    assert!(DType::Null.is_nullable());
    assert!(!primitive(PType::U8).is_nullable());
    assert!(primitive(PType::U8).as_nullable().is_nullable());
    let ext = extension(primitive(PType::U8));
    assert!(!ext.is_nullable());
    match ext.as_nullable() {
        DType::Extension(x) => {
            assert_eq!(x.id, "test.ext");
            assert_eq!(x.metadata, Some(vec![1, 2]));
            assert!(matches!(x.storage_dtype, DType::Primitive(PType::U8, OPTIONAL)));
        }
        _ => panic!("another type"),
    }
    assert_eq!(primitive(PType::U8).nullability(), REQUIRED);
    assert_eq!(DType::Utf8(OPTIONAL).nullability(), OPTIONAL);
}

#[test]
fn types_of_fields() {
    let name = "a".to_string();
    let dtype = struct_of(vec![("a", primitive(PType::U8)), ("a", DType::Null)], REQUIRED);
    assert!(matches!(
        get_item_dtype(&dtype, &name),
        Ok(DType::Primitive(PType::U8, REQUIRED))
    ));
    let dtype = struct_of(vec![("a", primitive(PType::U8))], OPTIONAL);
    assert!(matches!(
        get_item_dtype(&dtype, &name),
        Ok(DType::Primitive(PType::U8, OPTIONAL))
    ));
    assert!(matches!(
        get_item_dtype(&dtype, &"b".to_string()),
        Err(VortexError::FieldNotFound(missing)) if missing == "b"
    ));
    assert!(matches!(
        get_item_dtype(&DType::Null, &name),
        Err(VortexError::ExpectedStruct)
    ));
    assert!(dtype.as_struct_fields_opt().is_some());
    assert!(DType::Null.as_struct_fields_opt().is_none());
}

#[test]
fn types_of_expressions() {
    let scope = struct_of(vec![("a", primitive(PType::U8))], REQUIRED);
    let root = Expression::root();
    assert!(matches!(root.return_dtype(&scope), Ok(DType::Struct(_, _))));
    let a = Expression::get_item("a".to_string(), root);
    assert!(matches!(a.return_dtype(&scope), Ok(DType::Primitive(PType::U8, REQUIRED))));
    let b = Expression::get_item("b".to_string(), a);
    assert!(matches!(b.return_dtype(&scope), Err(VortexError::ExpectedStruct)));
    let five = Scalar::primitive(PValue::I8(5), REQUIRED);
    let literal = Expression::literal(five);
    assert!(matches!(
        literal.return_dtype(&scope),
        Ok(DType::Primitive(PType::I8, REQUIRED))
    ));
    assert!(matches!(
        ScalarFn::Root.return_dtype(&Vec::new()),
        Err(VortexError::RootWithoutScope)
    ));
}

#[test]
fn substitution_puts_an_expression_in_place_of_the_root() {
    let a = Expression::get_item("a".to_string(), Expression::root());
    let b = Expression::get_item("b".to_string(), Expression::root());
    let both = b.replace_root(&a);
    assert!(matches!(both.scalar_fn(), ScalarFn::GetItem(name) if name == "b"));
    assert!(matches!(both.children[0].scalar_fn(), ScalarFn::GetItem(name) if name == "a"));
    assert!(matches!(both.children[0].children[0].scalar_fn(), ScalarFn::Root));
}

#[test]
fn types_follow_substitution() {
    let inner = struct_of(
        vec![("b", primitive(PType::U8))],
        Nullability::NonNullable,
    );
    let outer = struct_of(vec![("a", inner)], Nullability::Nullable);
    let a = Expression::get_item("a".to_string(), Expression::root());
    let b = Expression::get_item("b".to_string(), Expression::root());
    let at_once = b.replace_root(&a).return_dtype(&outer).unwrap();
    let in_steps = b.return_dtype(&a.return_dtype(&outer).unwrap()).unwrap();
    assert_eq!(format!("{at_once:?}"), format!("{in_steps:?}"));
    assert!(matches!(at_once, DType::Primitive(PType::U8, Nullability::Nullable)));
}

#[test]
fn types_of_statistics() {
    let u8s = primitive(PType::U8);
    for stat in [Stat::IsConstant, Stat::IsSorted, Stat::IsStrictSorted] {
        assert!(matches!(stat.dtype(&u8s), Some(DType::Bool(REQUIRED))));
    }
    for stat in [Stat::Max, Stat::Min] {
        assert!(matches!(stat.dtype(&u8s), Some(DType::Primitive(PType::U8, REQUIRED))));
        assert!(stat.dtype(&DType::Null).is_none());
    }
    for stat in [Stat::NullCount, Stat::UncompressedSizeInBytes] {
        assert!(matches!(stat.dtype(&DType::Null), Some(DType::Primitive(PType::U64, REQUIRED))));
    }
    assert!(Stat::NaNCount.dtype(&u8s).is_none());
    assert!(matches!(
        Stat::NaNCount.dtype(&primitive(PType::F16)),
        Some(DType::Primitive(PType::U64, REQUIRED))
    ));
}

#[test]
fn types_of_sums() {
    let sums = [
        (PType::U8, PType::U64),
        (PType::I32, PType::I64),
        (PType::F16, PType::F64),
    ];
    for (ptype, sum) in sums {
        match Stat::Sum.dtype(&primitive(ptype)) {
            Some(DType::Primitive(own, nullability)) => {
                assert_eq!((own, nullability), (sum, OPTIONAL));
            }
            _ => panic!("another type"),
        }
    }
    assert!(matches!(
        Stat::Sum.dtype(&DType::Bool(REQUIRED)),
        Some(DType::Primitive(PType::U64, OPTIONAL))
    ));
    for (precision, sum) in [(5, 15), (66, 76), (67, 76), (76, 76)] {
        match Stat::Sum.dtype(&decimal(precision, 2)) {
            Some(DType::Decimal(own, OPTIONAL)) => {
                assert_eq!((own.precision(), own.scale()), (sum, 2));
            }
            _ => panic!("another type"),
        }
    }
    assert!(Stat::Sum.dtype(&DType::Utf8(REQUIRED)).is_none());
    assert!(matches!(
        Stat::Sum.dtype(&extension(primitive(PType::I8))),
        Some(DType::Primitive(PType::I64, OPTIONAL))
    ));
}

#[test]
fn expressions_of_statistics() {
    let e = statistic(Stat::NullCount, Expression::root());
    assert!(matches!(
        e.return_dtype(&DType::Utf8(REQUIRED)),
        Ok(DType::Primitive(PType::U64, OPTIONAL))
    ));
    let sum = statistic(Stat::Sum, Expression::root());
    assert!(matches!(
        sum.return_dtype(&DType::Utf8(REQUIRED)),
        Err(VortexError::StatNotSupported { stat: Stat::Sum, dtype: DType::Utf8(REQUIRED) })
    ));
    assert_eq!(Statistic.id(), "statistic");
    assert_eq!(Statistic.arity(&Stat::Max), Arity::Exact(1));
    assert_eq!(Statistic.child_name(&Stat::Max, 0), "input");
    assert!(matches!(Statistic.simplify(&Stat::Max, &e), Ok(None)));
    match Statistic.bind(Stat::Max) {
        ScalarFn::Bound(function) => assert_eq!(function.id(), "statistic"),
        _ => panic!("another function"),
    }
}

fn input(dtype: DType, values: Vec<(Stat, Precision)>, row_count: usize) -> ExecutionArgs {
    let statistics = StatsSet { values };
    ExecutionArgs { inputs: vec![InputArray { dtype, statistics, elements: None }], row_count }
}

fn constant(array: Array) -> ConstantArray {
    match array {
        Array::Constant(array) => array,
        Array::Primitive(_) => panic!("no constant"),
    }
}

#[test]
fn exact_statistics_are_given() {
    let nine = Scalar::primitive(PValue::U8(9), REQUIRED);
    let values = vec![
        (Stat::Min, Precision::Exact(Scalar::primitive(PValue::U8(1), REQUIRED))),
        (Stat::Max, Precision::Exact(nine)),
    ];
    let args = input(primitive(PType::U8), values, 4);
    let array = constant(Statistic.execute(&Stat::Max, args).unwrap());
    assert_eq!(array.len, 4);
    assert!(matches!(array.scalar.value, ScalarValue::Primitive(PValue::U8(9))));
    assert!(matches!(array.scalar.dtype, DType::Primitive(PType::U8, OPTIONAL)));
    let none = Scalar::primitive(PValue::U64(0), REQUIRED);
    let args = input(primitive(PType::U8), vec![(Stat::NullCount, Precision::Exact(none))], 1);
    let array = constant(Statistic.execute(&Stat::NullCount, args).unwrap());
    assert!(matches!(array.scalar.value, ScalarValue::Primitive(PValue::U64(0))));
    assert!(matches!(array.scalar.dtype, DType::Primitive(PType::U64, OPTIONAL)));
}

#[test]
fn expressions_of_statistics_compute_them() {
    let values = || {
        vec![
            (Stat::Min, Precision::Exact(Scalar::primitive(PValue::U8(1), REQUIRED))),
            (Stat::Max, Precision::Exact(Scalar::primitive(PValue::U8(9), REQUIRED))),
        ]
    };
    for (stat, expected) in [(Stat::Min, 1), (Stat::Max, 9)] {
        let e = statistic(stat, Expression::root());
        let function = match e.scalar_fn() {
            ScalarFn::Bound(function) => function,
            _ => panic!("another function"),
        };
        assert!(function.takes(1));
        assert!(!function.takes(2));
        let array = constant(function.execute(input(primitive(PType::U8), values(), 3)).unwrap());
        assert_eq!(array.len, 3);
        assert!(matches!(
            array.scalar.value,
            ScalarValue::Primitive(PValue::U8(value)) if value == expected
        ));
    }
}

#[test]
fn types_after_the_first_do_not_change_a_statistic() {
    let one = Statistic.return_dtype(&Stat::Max, &vec![primitive(PType::U8)]).unwrap();
    let more = vec![primitive(PType::U8), DType::Null, DType::Utf8(REQUIRED)];
    let same = Statistic.return_dtype(&Stat::Max, &more).unwrap();
    assert!(matches!(one, DType::Primitive(PType::U8, OPTIONAL)));
    assert!(matches!(same, DType::Primitive(PType::U8, OPTIONAL)));
    assert!(matches!(
        Statistic.return_dtype(&Stat::Max, &vec![DType::Null, primitive(PType::U8)]),
        Err(VortexError::StatNotSupported { stat: Stat::Max, dtype: DType::Null })
    ));
}

#[test]
fn bounds_and_unknown_statistics_are_null() {
    let nine = Scalar::primitive(PValue::U8(9), REQUIRED);
    let args = input(primitive(PType::U8), vec![(Stat::Max, Precision::Inexact(nine))], 4);
    let array = constant(Statistic.execute(&Stat::Max, args).unwrap());
    assert!(matches!(array.scalar.value, ScalarValue::Null));
    assert!(matches!(array.scalar.dtype, DType::Primitive(PType::U8, OPTIONAL)));
    let args = input(primitive(PType::U8), Vec::new(), 2);
    let array = constant(Statistic.execute(&Stat::NullCount, args).unwrap());
    assert_eq!(array.len, 2);
    assert!(matches!(array.scalar.value, ScalarValue::Null));
    assert!(matches!(array.scalar.dtype, DType::Primitive(PType::U64, OPTIONAL)));
}

#[test]
fn statistics_that_do_not_exist() {
    let args = input(DType::Null, Vec::new(), 2);
    assert!(matches!(
        Statistic.execute(&Stat::Min, args),
        Err(VortexError::StatNotSupported { stat: Stat::Min, dtype: DType::Null })
    ));
}

fn flat(segment: u32, len: usize) -> ReaderRef {
    ReaderRef::Flat(Arc::new(FlatReader::new(len, primitive(PType::U32), SegmentId(segment))))
}

fn edges(tree: &DisplayTree) -> Vec<String> {
    tree.parts
        .iter()
        .map(|part| match &part.edge {
            Edge::Index(i) => format!("[{i}]"),
            Edge::Field(name) => name.clone(),
            Edge::Validity => "validity".to_string(),
            Edge::Values => "values".to_string(),
            Edge::Codes => "codes".to_string(),
            Edge::Data => "data".to_string(),
            Edge::ZoneMap => "zones".to_string(),
        })
        .collect()
}

#[test]
fn trees_of_structs() {
    let dtype = struct_of(
        vec![("a", primitive(PType::U32)), ("b", primitive(PType::U32))],
        REQUIRED,
    );
    let reader = StructReader::new(3, dtype, Some(flat(0, 3)), vec![flat(1, 3), flat(2, 3)]);
    let tree = reader.display_tree();
    assert!(matches!(tree.label, Label::Struct { rows: 3, .. }));
    assert_eq!(edges(&tree), vec!["a", "b", "validity"]);
    assert!(matches!(
        tree.parts[1].tree.label,
        Label::Flat { rows: 3, segment: SegmentId(2), .. }
    ));
    let odd = StructReader::new(3, DType::Null, None, vec![flat(1, 3), flat(2, 3)]);
    assert_eq!(edges(&odd.display_tree()), vec!["[0]", "[1]"]);
}

#[test]
fn trees_of_other_readers() {
    let chunked = ChunkedReader::new(5, primitive(PType::U32), vec![flat(1, 3), flat(2, 2)]);
    let tree = chunked.display_tree();
    assert!(matches!(tree.label, Label::Chunked { rows: 5, chunks: 2, .. }));
    assert_eq!(edges(&tree), vec!["[0]", "[1]"]);
    let five = Scalar::primitive(PValue::I8(5), REQUIRED);
    let tree = ConstantReader::new(five, 7).display_tree();
    assert!(matches!(
        tree.label,
        Label::Constant { dtype: DType::Primitive(PType::I8, REQUIRED), rows: 7, .. }
    ));
    assert!(tree.parts.is_empty());
    let dict = ReaderRef::Dict(Arc::new(DictReader::new(
        primitive(PType::U32),
        flat(1, 2),
        flat(2, 6),
    )));
    let tree = dict.display_tree();
    assert!(matches!(tree.label, Label::Dict { rows: 6, .. }));
    assert_eq!(edges(&tree), vec!["values", "codes"]);
    let zoned = ZonedReader::new(dict, flat(3, 1), 8, Arc::new(Vec::new()));
    let tree = zoned.display_tree();
    assert!(matches!(tree.label, Label::Zoned { rows: 6, zone_len: 8, .. }));
    assert_eq!(edges(&tree), vec!["data", "zones"]);
}

#[test]
fn arrays() {
    let array = numbers(&[4, 5]);
    assert_eq!((array.len(), array.ptype()), (2, PType::U32));
    assert!(matches!(array.dtype(), DType::Primitive(PType::U32, REQUIRED)));
    let scalar = Scalar::null(DType::Utf8(OPTIONAL));
    let array = Array::Constant(ConstantArray { scalar, len: 0 });
    assert!(array.is_empty());
    assert!(matches!(array.dtype(), DType::Utf8(OPTIONAL)));
}
