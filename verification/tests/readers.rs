use std::sync::Arc;
use vortex_read::dtype::{DType, Nullability, PType, StructFields};
use vortex_read::error::VortexError;
use vortex_read::expr::{Expression, ScalarFn};
use vortex_read::future::{ArrayFuture, ArrayPlan};
use vortex_read::mask::Mask;
use vortex_read::reader::{Reader, ReaderRef, ReaderStream, ReaderStreamRef};
use vortex_read::readers::chunked::ChunkedReader;
use vortex_read::readers::constant::ConstantReader;
use vortex_read::readers::dict::DictReader;
use vortex_read::readers::flat::{FlatReader, MaskedRead};
use vortex_read::readers::scalar_fn::{ScalarFnReader, ScalarFnReaderExt};
use vortex_read::readers::struct_::StructReader;
use vortex_read::readers::zoned::ZonedReader;
use vortex_read::row::SegmentId;
use vortex_read::scalar::{PValue, Scalar, ScalarValue};
use vortex_read::stats::{statistic, Stat, Statistic};

/// What a plan computes, row by row.
#[derive(Debug, Clone, PartialEq)]
enum Value {
    Stored(u32, usize),
    Number(i128),
    Struct(Vec<Value>),
    Field(String, Box<Value>),
    Call(Vec<Value>),
    Decoded(Vec<Value>, Box<Value>),
}

fn number(scalar: &Scalar) -> Value {
    match &scalar.value {
        ScalarValue::Primitive(value) => Value::Number(value.to_number()),
        _ => panic!("no number"),
    }
}

fn evaluate(e: &Expression, row: &Value) -> Value {
    let args: Vec<Value> = e.children.iter().map(|child| evaluate(child, row)).collect();
    match &e.function {
        ScalarFn::Root => row.clone(),
        ScalarFn::Literal(scalar) => number(scalar),
        ScalarFn::GetItem(name) => Value::Field(name.clone(), Box::new(args[0].clone())),
        ScalarFn::Bound(_) => Value::Call(args),
    }
}

fn finish(e: &Option<Expression>, row: Value) -> Value {
    match e {
        Some(e) => evaluate(e, &row),
        None => row,
    }
}

fn rows(future: &ArrayFuture) -> Vec<Value> {
    match future.plan() {
        ArrayPlan::Ready(_) => panic!("no array is ready here"),
        ArrayPlan::Segment { segment, offset, len, expression, .. } => (*offset..offset + len)
            .map(|i| finish(expression, Value::Stored(segment.id.0, i)))
            .collect(),
        ArrayPlan::Constant { scalar, len, expression, .. } => {
            (0..*len).map(|_| finish(expression, number(scalar))).collect()
        }
        ArrayPlan::Slice { parent, start, end } => rows(parent)[*start..*end].to_vec(),
        ArrayPlan::Struct { parts, len, .. } => {
            let lanes: Vec<Vec<Value>> = parts.iter().map(rows).collect();
            (0..*len)
                .map(|i| Value::Struct(lanes.iter().map(|lane| lane[i].clone()).collect()))
                .collect()
        }
        ArrayPlan::ScalarFn { function, inputs, len, .. } => {
            let lanes: Vec<Vec<Value>> = inputs.iter().map(rows).collect();
            (0..*len)
                .map(|i| {
                    let args: Vec<Value> = lanes.iter().map(|lane| lane[i].clone()).collect();
                    match function {
                        ScalarFn::GetItem(name) => {
                            Value::Field(name.clone(), Box::new(args[0].clone()))
                        }
                        _ => Value::Call(args),
                    }
                })
                .collect()
        }
        ArrayPlan::Dict { values, codes, expression, .. } => {
            let dictionary: Vec<Value> = values.iter().flat_map(rows).collect();
            rows(codes)
                .into_iter()
                .map(|code| finish(expression, Value::Decoded(dictionary.clone(), Box::new(code))))
                .collect()
        }
    }
}

fn drain(stream: &mut ReaderStreamRef) -> Vec<Vec<Value>> {
    let mut chunks = Vec::new();
    while let Some(future) = stream.next_chunk().unwrap() {
        assert_eq!(future.len(), rows(&future).len());
        assert!(!future.is_empty());
        chunks.push(rows(&future));
    }
    chunks
}

fn read(reader: &ReaderRef, start: u64, end: u64) -> Vec<Vec<Value>> {
    drain(&mut reader.execute(start..end).unwrap())
}

fn lengths(chunks: &[Vec<Value>]) -> Vec<usize> {
    chunks.iter().map(Vec::len).collect()
}

fn all(chunks: Vec<Vec<Value>>) -> Vec<Value> {
    chunks.into_iter().flatten().collect()
}

fn u32s() -> DType {
    DType::Primitive(PType::U32, Nullability::NonNullable)
}

fn stored(segment: u32, range: std::ops::Range<usize>) -> Vec<Value> {
    range.map(|i| Value::Stored(segment, i)).collect()
}

fn flat(segment: u32, len: usize) -> ReaderRef {
    flat_of(segment, len, u32s())
}

fn flat_of(segment: u32, len: usize, dtype: DType) -> ReaderRef {
    ReaderRef::Flat(Arc::new(FlatReader::new(len, dtype, SegmentId(segment))))
}

fn constant(value: u32, rows: u64) -> ReaderRef {
    let scalar = Scalar::primitive(PValue::U32(value), Nullability::NonNullable);
    ReaderRef::Constant(Arc::new(ConstantReader::new(scalar, rows)))
}

fn chunked(chunks: Vec<ReaderRef>) -> ReaderRef {
    let rows = chunks.iter().map(|c| c.row_count()).sum();
    let dtype = chunks[0].dtype().clone();
    ReaderRef::Chunked(Arc::new(ChunkedReader::new(rows, dtype, chunks)))
}

fn struct_dtype(names: &[&str], dtypes: Vec<DType>) -> DType {
    let names = names.iter().map(|name| name.to_string()).collect();
    DType::Struct(Arc::new(StructFields::new(names, dtypes)), Nullability::NonNullable)
}

fn structs(names: &[&str], validity: Option<ReaderRef>, fields: Vec<ReaderRef>) -> ReaderRef {
    let dtypes = fields.iter().map(|f| f.dtype().clone()).collect();
    let rows = fields[0].row_count();
    let dtype = struct_dtype(names, dtypes);
    ReaderRef::Struct(Arc::new(StructReader::new(rows, dtype, validity, fields)))
}

fn dict(values: ReaderRef, codes: ReaderRef) -> ReaderRef {
    ReaderRef::Dict(Arc::new(DictReader::new(values.dtype().clone(), values, codes)))
}

fn field(name: &str) -> Expression {
    Expression::get_item(name.to_string(), Expression::root())
}

fn max(child: Expression) -> Expression {
    statistic(Stat::Max, child)
}

fn error(reader: &ReaderRef, start: u64, end: u64) -> VortexError {
    match reader.execute(start..end) {
        Ok(_) => panic!("opened"),
        Err(error) => error,
    }
}

fn apply_error(reader: &ReaderRef, e: &Expression) -> VortexError {
    match reader.apply(e) {
        Ok(_) => panic!("applied"),
        Err(error) => error,
    }
}

#[test]
fn a_segment_comes_in_one_chunk() {
    let reader = flat(7, 10);
    assert_eq!(reader.row_count(), 10);
    assert_eq!(read(&reader, 2, 6), vec![stored(7, 2..6)]);
    assert_eq!(read(&reader, 0, 10), vec![stored(7, 0..10)]);
    assert!(read(&reader, 4, 4).is_empty());
}

#[test]
fn ranges_outside_a_segment() {
    let reader = flat(7, 10);
    assert!(matches!(
        error(&reader, 2, 11),
        VortexError::RowRangeOutOfBounds { start: 2, end: 11, len: 10 }
    ));
    assert!(matches!(
        error(&reader, 6, 2),
        VortexError::RowRangeOutOfBounds { start: 6, end: 2, len: 10 }
    ));
    assert!(matches!(
        error(&reader, 11, 11),
        VortexError::RowRangeOutOfBounds { start: 11, end: 11, len: 10 }
    ));
}

#[test]
fn skipping_in_a_segment() {
    let reader = flat(7, 10);
    let mut stream = reader.execute(1..9).unwrap();
    stream.skip(3);
    stream.skip(0);
    assert_eq!(drain(&mut stream), vec![stored(7, 4..9)]);
    let mut stream = reader.execute(1..9).unwrap();
    stream.skip(8);
    assert!(drain(&mut stream).is_empty());
}

#[test]
fn masked_chunks_of_a_segment() {
    let reader = FlatReader::new(10, u32s(), SegmentId(7));
    let mut stream = match reader.execute(2..8).unwrap() {
        ReaderStreamRef::Flat(stream) => stream,
        _ => panic!("another stream"),
    };
    assert_eq!(stream.next_chunk_len(), Some(6));
    assert!(matches!(
        stream.next_masked_chunk(7),
        Err(VortexError::MaskTooLong { mask_len: 7, remaining: 6 })
    ));
    let chunk = stream.next_masked_chunk(2).unwrap();
    assert_eq!(stream.next_chunk_len(), Some(4));
    match chunk.resolve(&Mask::new(vec![false, true])) {
        MaskedRead::Read(future) => assert_eq!(rows(&future), stored(7, 2..4)),
        MaskedRead::Empty(_) => panic!("a row is wanted"),
    }
    assert!(matches!(
        chunk.resolve(&Mask::new(vec![false, false])),
        MaskedRead::Empty(DType::Primitive(PType::U32, Nullability::NonNullable))
    ));
    let _rest = stream.next_masked_chunk(4).unwrap();
    assert_eq!(stream.next_chunk_len(), None);
}

#[test]
fn a_constant_comes_in_one_chunk() {
    let reader = constant(5, 4);
    assert_eq!(read(&reader, 1, 4), vec![vec![Value::Number(5); 3]]);
    assert!(read(&reader, 3, 1).is_empty());
    let mut stream = reader.execute(0..4).unwrap();
    stream.skip(1);
    assert_eq!(lengths(&drain(&mut stream)), vec![3]);
}

#[test]
fn chunks_come_one_after_the_other() {
    let reader = chunked(vec![flat(1, 3), flat(2, 0), flat(3, 4), constant(9, 2)]);
    assert_eq!(reader.row_count(), 9);
    let chunks = read(&reader, 0, 9);
    assert_eq!(lengths(&chunks), vec![3, 4, 2]);
    assert_eq!(read(&reader, 1, 2), vec![stored(1, 1..2)]);
    assert_eq!(read(&reader, 2, 5), vec![stored(1, 2..3), stored(3, 0..2)]);
    assert_eq!(read(&reader, 3, 4), vec![stored(3, 0..1)]);
    assert!(read(&reader, 9, 9).is_empty());
    assert!(read(&reader, 4, 4).is_empty());
}

#[test]
fn skipping_over_chunks() {
    let reader = chunked(vec![flat(1, 3), flat(2, 4), flat(3, 2)]);
    for skipped in 0..=9usize {
        let mut stream = reader.execute(0..9).unwrap();
        stream.skip(skipped);
        assert_eq!(all(drain(&mut stream)), all(read(&reader, skipped as u64, 9)));
    }
}

#[test]
fn skipping_past_the_chunk_that_is_open() {
    let reader = chunked(vec![flat(1, 3), constant(4, 4), flat(3, 2)]);
    let mut stream = reader.execute(0..9).unwrap();
    stream.skip(1);
    stream.skip(4);
    assert_eq!(
        drain(&mut stream),
        vec![vec![Value::Number(4); 2], stored(3, 0..2)]
    );
    let mut stream = reader.execute(0..9).unwrap();
    assert_eq!(rows(&stream.next_chunk().unwrap().unwrap()), stored(1, 0..3));
    stream.skip(5);
    assert_eq!(drain(&mut stream), vec![stored(3, 1..2)]);
}

#[test]
fn parts_of_a_range_make_up_the_range() {
    let inner = chunked(vec![flat(1, 3), flat(2, 4)]);
    let reader = structs(&["a", "b"], None, vec![inner, chunked(vec![flat(3, 5), flat(4, 2)])]);
    for middle in 0..=7 {
        let mut parts = all(read(&reader, 0, middle));
        parts.extend(all(read(&reader, middle, 7)));
        assert_eq!(parts, all(read(&reader, 0, 7)));
    }
}

#[test]
fn structs_are_cut_where_a_part_is() {
    let a = chunked(vec![flat(1, 3), flat(2, 4)]);
    let b = chunked(vec![flat(3, 5), flat(4, 2)]);
    let reader = structs(&["a", "b"], None, vec![a, b]);
    let chunks = read(&reader, 0, 7);
    assert_eq!(lengths(&chunks), vec![3, 2, 2]);
    assert_eq!(
        chunks[1],
        vec![
            Value::Struct(vec![Value::Stored(2, 0), Value::Stored(3, 3)]),
            Value::Struct(vec![Value::Stored(2, 1), Value::Stored(3, 4)]),
        ]
    );
}

#[test]
fn validity_comes_first() {
    let validity = flat_of(9, 2, DType::Bool(Nullability::NonNullable));
    let reader = structs(&["a"], Some(validity), vec![flat(1, 2)]);
    let mut stream = reader.execute(0..2).unwrap();
    let future = stream.next_chunk().unwrap().unwrap();
    assert!(matches!(future.plan(), ArrayPlan::Struct { has_validity: true, .. }));
    assert_eq!(
        rows(&future),
        vec![
            Value::Struct(vec![Value::Stored(9, 0), Value::Stored(1, 0)]),
            Value::Struct(vec![Value::Stored(9, 1), Value::Stored(1, 1)]),
        ]
    );
    // One byte for the validity of a row, four for its field.
    assert_eq!(future.estimated_bytes(), 10);
}

#[test]
fn skipping_in_structs() {
    let a = chunked(vec![flat(1, 3), flat(2, 4)]);
    let b = chunked(vec![flat(3, 5), flat(4, 2)]);
    let reader = structs(&["a", "b"], None, vec![a, b]);
    for first in 0..3usize {
        for second in 0..3usize {
            let mut stream = reader.execute(0..7).unwrap();
            stream.skip(first);
            let head = rows(&stream.next_chunk().unwrap().unwrap());
            stream.skip(second);
            let rest = all(drain(&mut stream));
            let whole = all(read(&reader, 0, 7));
            assert_eq!(head, whole[first..first + head.len()].to_vec());
            assert_eq!(rest, whole[first + head.len() + second..].to_vec());
        }
    }
}

#[test]
fn dictionaries_are_read_whole() {
    let values = chunked(vec![flat(1, 2), flat(2, 1)]);
    let reader = dict(values, flat(3, 4));
    assert_eq!(reader.row_count(), 4);
    let dictionary = vec![Value::Stored(1, 0), Value::Stored(1, 1), Value::Stored(2, 0)];
    let decoded: Vec<Value> = (1..3)
        .map(|i| Value::Decoded(dictionary.clone(), Box::new(Value::Stored(3, i))))
        .collect();
    assert_eq!(read(&reader, 1, 3), vec![decoded.clone()]);
    let mut stream = reader.execute(0..3).unwrap();
    stream.skip(1);
    assert_eq!(drain(&mut stream), vec![decoded]);
}

#[test]
fn dictionaries_without_values() {
    let reader = dict(flat(1, 0), flat(3, 4));
    assert!(matches!(error(&reader, 0, 4), VortexError::EmptyDictionary));
}

#[test]
fn zones_do_not_change_the_rows() {
    let zoned = ZonedReader::new(flat(1, 5), flat(2, 1), 5, Arc::new(vec![Stat::Max]));
    let reader = ReaderRef::Zoned(Arc::new(zoned));
    assert_eq!(reader.row_count(), 5);
    assert_eq!(read(&reader, 1, 3), vec![stored(1, 1..3)]);
    let applied = reader.apply(&max(Expression::root())).unwrap();
    assert!(matches!(applied, ReaderRef::Zoned(_)));
    assert_eq!(
        all(read(&applied, 0, 1)),
        vec![Value::Call(vec![Value::Stored(1, 0)])]
    );
}

#[test]
fn expressions_are_applied_on_top() {
    let inner = struct_dtype(&["b"], vec![u32s()]);
    let outer = struct_dtype(&["a"], vec![inner]);
    let reader = flat_of(1, 1, outer);
    let a = reader.apply(&field("a")).unwrap();
    let b = a.apply(&field("b")).unwrap();
    assert_eq!(
        all(read(&b, 0, 1)),
        vec![Value::Field(
            "b".to_string(),
            Box::new(Value::Field("a".to_string(), Box::new(Value::Stored(1, 0))))
        )]
    );
    assert!(matches!(b.dtype(), DType::Primitive(PType::U32, Nullability::NonNullable)));
}

#[test]
fn expressions_over_constants() {
    let reader = constant(5, 3);
    let applied = reader.apply(&max(Expression::root())).unwrap();
    assert_eq!(all(read(&applied, 0, 1)), vec![Value::Call(vec![Value::Number(5)])]);
    assert!(matches!(applied.dtype(), DType::Primitive(PType::U32, Nullability::Nullable)));
}

#[test]
fn expressions_without_a_type_are_kept_by_constants() {
    let reader = constant(5, 3);
    let applied = reader.apply(&field("a")).unwrap();
    assert!(matches!(applied, ReaderRef::Constant(_)));
    assert!(matches!(applied.dtype(), DType::Primitive(PType::U32, Nullability::NonNullable)));
    let value = Value::Field("a".to_string(), Box::new(Value::Number(5)));
    assert_eq!(all(read(&applied, 0, 2)), vec![value.clone(), value]);
    assert!(matches!(apply_error(&flat(1, 3), &field("a")), VortexError::ExpectedStruct));
    let chunks = chunked(vec![reader]);
    assert!(matches!(apply_error(&chunks, &field("a")), VortexError::ExpectedStruct));
}

#[test]
fn expressions_over_dictionaries() {
    let reader = dict(flat(1, 1), flat(2, 1));
    let applied = reader.apply(&max(Expression::root())).unwrap();
    let decoded = Value::Decoded(vec![Value::Stored(1, 0)], Box::new(Value::Stored(2, 0)));
    assert_eq!(all(read(&applied, 0, 1)), vec![Value::Call(vec![decoded])]);
}

#[test]
fn structs_give_up_their_fields() {
    let reader = structs(&["a", "b"], None, vec![flat(1, 2), flat(2, 2)]);
    let b = reader.apply(&field("b")).unwrap();
    assert!(matches!(b, ReaderRef::Flat(_)));
    assert_eq!(all(read(&b, 0, 2)), stored(2, 0..2));
    assert!(matches!(
        apply_error(&reader, &field("c")),
        VortexError::FieldNotFound(name) if name == "c"
    ));
}

#[test]
fn functions_of_fields_are_computed() {
    let reader = structs(&["a", "b"], None, vec![flat(1, 2), flat(2, 2)]);
    let applied = reader.apply(&max(field("b"))).unwrap();
    assert!(matches!(applied, ReaderRef::ScalarFn(_)));
    assert_eq!(applied.row_count(), 2);
    assert_eq!(
        all(read(&applied, 1, 2)),
        vec![Value::Call(vec![Value::Stored(2, 1)])]
    );
}

#[test]
fn nested_fields_of_structs() {
    let inner = structs(&["x"], None, vec![flat(1, 2)]);
    let outer = structs(&["s"], None, vec![inner]);
    let x = Expression::get_item("x".to_string(), field("s"));
    let reader = outer.apply(&x).unwrap();
    assert_eq!(all(read(&reader, 0, 2)), stored(1, 0..2));
}

#[test]
fn fields_below_chunks_of_structs() {
    let first = structs(&["x"], None, vec![flat(1, 2)]);
    let second = structs(&["x"], None, vec![flat(2, 1)]);
    let outer = structs(&["s"], None, vec![chunked(vec![first, second])]);
    let x = Expression::get_item("x".to_string(), field("s"));
    let reader = outer.apply(&x).unwrap();
    assert!(matches!(reader, ReaderRef::Chunked(_)));
    assert_eq!(read(&reader, 0, 3), vec![stored(1, 0..2), stored(2, 0..1)]);
    assert!(matches!(
        apply_error(&outer, &Expression::get_item("y".to_string(), field("s"))),
        VortexError::FieldNotFound(name) if name == "y"
    ));
}

#[test]
fn fields_below_stored_structs() {
    let stored_struct = flat_of(1, 1, struct_dtype(&["x"], vec![u32s()]));
    let outer = structs(&["s"], None, vec![stored_struct]);
    let x = Expression::get_item("x".to_string(), field("s"));
    let reader = outer.apply(&x).unwrap();
    assert_eq!(
        all(read(&reader, 0, 1)),
        vec![Value::Field("x".to_string(), Box::new(Value::Stored(1, 0)))]
    );
}

#[test]
fn roots_and_literals_over_structs() {
    let reader = structs(&["a"], None, vec![flat(1, 3)]);
    let root = reader.apply(&Expression::root()).unwrap();
    assert_eq!(all(read(&root, 0, 3)), all(read(&reader, 0, 3)));
    let five = Scalar::primitive(PValue::U32(5), Nullability::NonNullable);
    let literal = reader.apply(&Expression::literal(five)).unwrap();
    assert!(matches!(literal, ReaderRef::Constant(_)));
    assert_eq!(all(read(&literal, 0, 3)), vec![Value::Number(5); 3]);
}

#[test]
fn expressions_over_functions() {
    let reader = Statistic.new_reader(Stat::Max, vec![flat(1, 2)], 2).unwrap();
    let same = reader.apply(&Expression::root()).unwrap();
    assert_eq!(all(read(&same, 0, 2)), all(read(&reader, 0, 2)));
    let again = reader.apply(&max(Expression::root())).unwrap();
    assert_eq!(
        all(read(&again, 0, 1)),
        vec![Value::Call(vec![Value::Call(vec![Value::Stored(1, 0)])])]
    );
    let five = Scalar::primitive(PValue::U32(5), Nullability::NonNullable);
    let literal = reader.apply(&Expression::literal(five)).unwrap();
    assert_eq!(all(read(&literal, 0, 2)), vec![Value::Number(5); 2]);
    assert!(matches!(apply_error(&reader, &field("a")), VortexError::ExpectedStruct));
}

#[test]
fn functions_of_chunked_inputs() {
    let reader =
        Statistic.new_reader(Stat::Max, vec![chunked(vec![flat(1, 2), flat(2, 1)])], 3).unwrap();
    assert!(matches!(reader.dtype(), DType::Primitive(PType::U32, Nullability::Nullable)));
    assert_eq!(lengths(&read(&reader, 0, 3)), vec![2, 1]);
    let mut stream = reader.execute(0..3).unwrap();
    assert!(matches!(stream.dtype(), DType::Primitive(PType::U32, Nullability::Nullable)));
    stream.skip(1);
    assert_eq!(
        all(drain(&mut stream)),
        vec![
            Value::Call(vec![Value::Stored(1, 1)]),
            Value::Call(vec![Value::Stored(2, 0)]),
        ]
    );
}

#[test]
fn functions_without_a_type() {
    let null = flat_of(1, 1, DType::Null);
    assert!(matches!(
        Statistic.new_reader(Stat::Max, vec![null], 1),
        Err(VortexError::StatNotSupported { stat: Stat::Max, dtype: DType::Null })
    ));
    let text = flat_of(1, 1, DType::Utf8(Nullability::NonNullable));
    assert!(matches!(
        Statistic.new_reader(Stat::Sum, vec![text], 1),
        Err(VortexError::StatNotSupported { stat: Stat::Sum, .. })
    ));
}

#[test]
fn a_function_of_one_argument_by_name() {
    let reader = match Statistic.new_reader(Stat::Max, vec![flat(1, 2)], 2).unwrap() {
        ReaderRef::ScalarFn(reader) => reader,
        _ => panic!("another reader"),
    };
    match reader.scalar_fn() {
        ScalarFn::Bound(function) => assert_eq!(function.id(), "statistic"),
        _ => panic!("another function"),
    }
    let again =
        ScalarFnReader::try_new(reader.scalar_fn().clone(), vec![flat(1, 2)], 2).unwrap();
    assert_eq!(again.row_count(), 2);
}

#[test]
fn applying_keeps_the_rows_in_place() {
    let a = chunked(vec![flat(1, 3), flat(2, 4)]);
    let b = chunked(vec![flat(3, 5), flat(4, 2)]);
    let reader = structs(&["a", "b"], None, vec![a, b]);
    let e = max(field("b"));
    let applied = reader.apply(&e).unwrap();
    assert_eq!(applied.row_count(), reader.row_count());
    for start in 0..7u64 {
        for end in start..=7u64 {
            let expected: Vec<Value> = all(read(&reader, start, end))
                .into_iter()
                .map(|row| match row {
                    Value::Struct(fields) => Value::Call(vec![fields[1].clone()]),
                    _ => panic!("no struct"),
                })
                .collect();
            assert_eq!(all(read(&applied, start, end)), expected);
        }
    }
}

#[test]
fn errors_of_parts_are_errors_of_the_whole() {
    let reader = structs(&["a", "b"], None, vec![flat(1, 3), dict(flat(2, 0), flat(3, 3))]);
    assert!(matches!(error(&reader, 0, 3), VortexError::EmptyDictionary));
    assert!(matches!(
        error(&reader, 0, 4),
        VortexError::RowRangeOutOfBounds { start: 0, end: 4, len: 3 }
    ));
}

fn next_error(stream: &mut ReaderStreamRef) -> VortexError {
    match stream.next_chunk() {
        Ok(_) => panic!("a chunk or the end"),
        Err(error) => error,
    }
}

/// So many rows that cannot be read: their codes stand for nothing.
fn broken(rows: usize) -> ReaderRef {
    dict(flat(8, 0), flat(9, rows))
}

#[test]
fn a_chunk_that_cannot_be_opened_is_passed_over() {
    let reader = chunked(vec![flat(1, 3), broken(2), flat(2, 4)]);
    let mut stream = reader.execute(1..9).unwrap();
    assert_eq!(rows(&stream.next_chunk().unwrap().unwrap()), stored(1, 1..3));
    assert!(matches!(next_error(&mut stream), VortexError::EmptyDictionary));
    assert_eq!(rows(&stream.next_chunk().unwrap().unwrap()), stored(2, 0..4));
    assert!(stream.next_chunk().unwrap().is_none());
    // A range that ends before the chunk is read to its end.
    assert_eq!(lengths(&read(&reader, 0, 3)), vec![3]);
}

#[test]
fn skipping_over_chunks_that_cannot_be_opened() {
    let reader = chunked(vec![broken(3), constant(7, 3)]);
    let mut whole = reader.execute(0..6).unwrap();
    whole.skip(3);
    assert_eq!(drain(&mut whole), vec![vec![Value::Number(7); 3]]);
    let mut further = reader.execute(0..6).unwrap();
    further.skip(4);
    assert_eq!(drain(&mut further), vec![vec![Value::Number(7); 2]]);
    let mut part = reader.execute(0..6).unwrap();
    part.skip(2);
    assert!(matches!(next_error(&mut part), VortexError::EmptyDictionary));
    assert_eq!(drain(&mut part), vec![vec![Value::Number(7); 3]]);
    let mut none = reader.execute(0..6).unwrap();
    none.skip(0);
    assert!(matches!(next_error(&mut none), VortexError::EmptyDictionary));
}

#[test]
fn skipping_is_reading_a_later_range() {
    let reader = chunked(vec![flat(1, 3), chunked(vec![broken(2), flat(2, 4)]), flat(3, 2)]);
    for n in 0..=11 {
        let mut skipped = reader.execute(0..11).unwrap();
        skipped.skip(n);
        let mut later = reader.execute(n as u64..11).unwrap();
        loop {
            match (skipped.next_chunk(), later.next_chunk()) {
                (Ok(Some(a)), Ok(Some(b))) => assert_eq!(rows(&a), rows(&b)),
                (Ok(None), Ok(None)) => break,
                (Err(a), Err(b)) => assert_eq!(format!("{a:?}"), format!("{b:?}")),
                _ => panic!("different after {n} rows"),
            }
        }
    }
}

#[test]
fn the_stream_of_an_open_chunk_is_kept_after_an_error() {
    let inner = chunked(vec![flat(1, 1), broken(2), flat(2, 1)]);
    let reader = chunked(vec![inner, flat(3, 1)]);
    let mut stream = reader.execute(0..5).unwrap();
    assert_eq!(rows(&stream.next_chunk().unwrap().unwrap()), stored(1, 0..1));
    assert!(matches!(next_error(&mut stream), VortexError::EmptyDictionary));
    assert_eq!(rows(&stream.next_chunk().unwrap().unwrap()), stored(2, 0..1));
    assert_eq!(rows(&stream.next_chunk().unwrap().unwrap()), stored(3, 0..1));
    assert!(stream.next_chunk().unwrap().is_none());
}

#[test]
fn a_field_that_fails_loses_what_was_read_of_those_before_it() {
    let right = chunked(vec![flat(1, 3), broken(2), flat(3, 2)]);
    let left = chunked(vec![flat(2, 4), flat(4, 3)]);
    let reader = structs(&["a", "b"], None, vec![left, right]);
    let mut stream = reader.execute(0..7).unwrap();
    assert_eq!(stream.next_chunk().unwrap().unwrap().len(), 3);
    assert!(matches!(next_error(&mut stream), VortexError::EmptyDictionary));
    let last = rows(&stream.next_chunk().unwrap().unwrap());
    assert_eq!(
        last,
        vec![
            Value::Struct(vec![Value::Stored(4, 0), Value::Stored(3, 0)]),
            Value::Struct(vec![Value::Stored(4, 1), Value::Stored(3, 1)]),
        ]
    );
    assert!(stream.next_chunk().unwrap().is_none());
}

#[test]
fn fields_after_one_that_fails_are_left_where_they_were() {
    let left = chunked(vec![broken(3), flat(3, 1)]);
    let reader = structs(&["a", "b"], None, vec![left, chunked(vec![flat(1, 1), flat(2, 3)])]);
    let mut stream = reader.execute(0..4).unwrap();
    assert!(matches!(next_error(&mut stream), VortexError::EmptyDictionary));
    let next = rows(&stream.next_chunk().unwrap().unwrap());
    assert_eq!(next, vec![Value::Struct(vec![Value::Stored(3, 0), Value::Stored(1, 0)])]);
    assert!(stream.next_chunk().unwrap().is_none());
}

#[test]
fn rows_that_are_skipped_cost_no_other() {
    let left = chunked(vec![broken(3), flat(3, 1)]);
    let reader = structs(&["a", "b"], None, vec![left, chunked(vec![flat(1, 1), flat(2, 3)])]);
    let mut stream = reader.execute(0..4).unwrap();
    stream.skip(3);
    let next = rows(&stream.next_chunk().unwrap().unwrap());
    assert_eq!(next, vec![Value::Struct(vec![Value::Stored(3, 0), Value::Stored(2, 2)])]);
}

#[test]
fn a_field_that_has_ended_ends_the_struct() {
    let short = StructReader::new(
        3,
        struct_dtype(&["a", "b"], vec![u32s(), u32s()]),
        None,
        vec![flat(1, 3), chunked(vec![flat(2, 1), flat(3, 1)])],
    );
    let reader = ReaderRef::Struct(Arc::new(short));
    let chunks = read(&reader, 0, 3);
    assert_eq!(lengths(&chunks), vec![1, 1]);
}

#[test]
fn structs_are_estimated_at_what_their_parts_take() {
    let bytes = DType::Primitive(PType::U8, Nullability::NonNullable);
    let left = flat_of(1, 6, bytes);
    let right = chunked(vec![flat(2, 4), flat(3, 2)]);
    let reader = structs(&["a", "b"], None, vec![left, right]);
    let mut stream = reader.execute(0..6).unwrap();
    assert_eq!(stream.next_chunk().unwrap().unwrap().estimated_bytes(), 4 + 16);
    assert_eq!(stream.next_chunk().unwrap().unwrap().estimated_bytes(), 2 + 8);
}

#[test]
fn fields_of_structs_that_can_be_null_are_computed_from_them() {
    let inner = StructFields::new(vec!["a".to_string()], vec![u32s()]);
    let dtype = DType::Struct(Arc::new(inner), Nullability::Nullable);
    let reader = |validity: Option<ReaderRef>| {
        let fields = vec![constant(5, 2)];
        let dtype = dtype.clone();
        ReaderRef::Struct(Arc::new(StructReader::new(2, dtype, validity, fields)))
    };
    for reader in [reader(Some(flat(1, 2))), reader(None)] {
        let field = reader.apply(&field("a")).unwrap();
        assert!(matches!(field, ReaderRef::ScalarFn(_)));
        assert!(matches!(field.dtype(), DType::Primitive(PType::U32, Nullability::Nullable)));
        assert_eq!(field.row_count(), 2);
        for value in all(read(&field, 0, 2)) {
            assert!(matches!(value, Value::Field(name, of) if name == "a"
                && matches!(*of, Value::Struct(_))));
        }
    }
}

#[test]
fn segments_keep_their_stored_type() {
    let dtype = struct_dtype(&["a"], vec![u32s()]);
    let reader = flat_of(4, 9, dtype).apply(&field("a")).unwrap();
    let mut stream = reader.execute(2..5).unwrap();
    let future = stream.next_chunk().unwrap().unwrap();
    match future.plan() {
        ArrayPlan::Segment { dtype, segment, offset, len, .. } => {
            assert!(matches!(dtype, DType::Primitive(PType::U32, Nullability::NonNullable)));
            assert!(matches!(segment.dtype, DType::Struct(_, Nullability::NonNullable)));
            assert_eq!((segment.id, segment.len, *offset, *len), (SegmentId(4), 9, 2, 3));
        }
        _ => panic!("another plan"),
    }
}

#[test]
fn a_dictionary_that_cannot_be_read_cannot_be_opened() {
    let values = chunked(vec![flat(1, 3), broken(2)]);
    let reader = dict(values, flat(3, 4));
    assert!(matches!(error(&reader, 0, 4), VortexError::EmptyDictionary));
}

#[test]
fn structs_of_another_type() {
    let reader =
        ReaderRef::Struct(Arc::new(StructReader::new(2, u32s(), None, vec![flat(1, 2)])));
    let mut stream = reader.execute(0..2).unwrap();
    assert!(matches!(next_error(&mut stream), VortexError::ExpectedStruct));
    assert!(stream.next_chunk().unwrap().is_none());
    // Where there are no rows, nothing is put together.
    assert!(read(&reader, 1, 1).is_empty());
}

#[test]
fn chunks_are_of_the_type_of_their_stream() {
    let reader = chunked(vec![flat(1, 2), constant(7, 1)]);
    let mut stream = reader.execute(0..3).unwrap();
    assert!(matches!(stream.dtype(), DType::Primitive(PType::U32, Nullability::NonNullable)));
    while let Some(future) = stream.next_chunk().unwrap() {
        let dtype = match future.plan() {
            ArrayPlan::Segment { dtype, .. } | ArrayPlan::Constant { dtype, .. } => dtype,
            _ => panic!("another plan"),
        };
        assert!(matches!(dtype, DType::Primitive(PType::U32, Nullability::NonNullable)));
    }
}
