use std::sync::Arc;
use vortex_buffer::Buffer;
use vortex_read::dtype::{DType, Nullability, PType, StructFields};
use vortex_read::error::VortexError;
use vortex_read::expr::{Expression, ScalarFn};
use vortex_read::future::{ArrayFuture, ArrayPlan};
use vortex_read::mask::Mask;
use vortex_read::reader::{Reader, ReaderRef};
use vortex_read::readers::chunked::ChunkedReader;
use vortex_read::readers::dict::DictReader;
use vortex_read::readers::flat::{FlatReader, MaskedRead};
use vortex_read::readers::struct_::StructReader;
use vortex_read::row::SegmentId;
use vortex_read::scan::{Scan, ScanBuilder2};
use vortex_read::selection::Selection;
use vortex_session::VortexSession;

/// Where the rows of a plan are stored.
fn rows(future: &ArrayFuture) -> Vec<(u32, usize)> {
    match future.plan() {
        ArrayPlan::Segment { segment, offset, len, .. } => {
            (*offset..offset + len).map(|i| (segment.id.0, i)).collect()
        }
        ArrayPlan::Slice { parent, start, end } => rows(parent)[*start..*end].to_vec(),
        _ => panic!("not stored"),
    }
}

fn u32s() -> DType {
    DType::Primitive(PType::U32, Nullability::NonNullable)
}

fn flat(segment: u32, len: usize) -> ReaderRef {
    ReaderRef::Flat(Arc::new(FlatReader::new(len, u32s(), SegmentId(segment))))
}

fn chunked(chunks: Vec<ReaderRef>) -> ReaderRef {
    let rows = chunks.iter().map(|c| c.row_count()).sum();
    ReaderRef::Chunked(Arc::new(ChunkedReader::new(rows, u32s(), chunks)))
}

/// A struct of a value and of a condition, cut at different rows.
fn table() -> ReaderRef {
    let value = chunked(vec![flat(1, 4), flat(2, 4)]);
    let keep = chunked(vec![flat(3, 3), flat(4, 5)]);
    let names = vec!["value".to_string(), "keep".to_string()];
    let fields = StructFields::new(names, vec![u32s(), u32s()]);
    let dtype = DType::Struct(Arc::new(fields), Nullability::NonNullable);
    ReaderRef::Struct(Arc::new(StructReader::new(8, dtype, None, vec![value, keep])))
}

fn field(name: &str) -> Expression {
    Expression::get_item(name.to_string(), Expression::root())
}

fn builder(reader: ReaderRef) -> ScanBuilder2 {
    ScanBuilder2::new(reader, VortexSession::empty())
}

/// What a scan delivers when the filter keeps the rows at even places of its segments.
fn run(mut scan: Scan) -> Vec<(u32, usize)> {
    let mut delivered = Vec::new();
    while let Some(request) = scan.next_request().unwrap() {
        let filter: Option<Vec<Option<bool>>> = request.filter.as_ref().map(|future| {
            rows(future).into_iter().map(|(_, i)| Some(i % 2 == 0)).collect()
        });
        let mask = request.mask(filter.as_ref());
        let values = rows(&request.projection);
        assert_eq!(mask.len(), values.len());
        let kept: Vec<(u32, usize)> =
            values.into_iter().enumerate().filter(|(i, _)| mask.value(*i)).map(|(_, v)| v).collect();
        scan.complete(kept.len());
        delivered.extend(kept);
    }
    delivered
}

fn error(builder: ScanBuilder2) -> VortexError {
    match builder.into_array_stream() {
        Ok(_) => panic!("opened"),
        Err(error) => error,
    }
}

#[test]
fn a_scan_of_everything() {
    let scan = builder(chunked(vec![flat(1, 2), flat(2, 1)])).into_array_stream().unwrap();
    assert!(matches!(scan.dtype(), DType::Primitive(PType::U32, Nullability::NonNullable)));
    assert_eq!(run(scan), vec![(1, 0), (1, 1), (2, 0)]);
}

#[test]
fn a_scan_of_a_range() {
    let scan = builder(chunked(vec![flat(1, 4), flat(2, 4)]))
        .with_row_range(3..6)
        .into_array_stream()
        .unwrap();
    assert_eq!(run(scan), vec![(1, 3), (2, 0), (2, 1)]);
}

#[test]
fn a_scan_of_a_projection() {
    let scan = builder(table()).with_projection(field("value")).into_array_stream().unwrap();
    assert_eq!(run(scan).len(), 8);
}

#[test]
fn a_scan_with_a_filter() {
    let scan = builder(table())
        .with_projection(field("value"))
        .with_filter(field("keep"))
        .into_array_stream()
        .unwrap();
    // The condition holds for its rows 0, 2 of one segment and 0, 2, 4 of the other.
    assert_eq!(run(scan), vec![(1, 0), (1, 2), (1, 3), (2, 1), (2, 3)]);
}

#[test]
fn requests_are_cut_where_projection_or_filter_is() {
    let mut scan = builder(table())
        .with_projection(field("value"))
        .with_some_filter(Some(field("keep")))
        .into_array_stream()
        .unwrap();
    let mut lengths = Vec::new();
    while let Some(request) = scan.next_request().unwrap() {
        assert_eq!(request.projection.len(), request.filter.as_ref().unwrap().len());
        assert_eq!(request.projection.len(), request.selection.len());
        lengths.push(request.projection.len());
        scan.complete(0);
    }
    assert_eq!(lengths, vec![3, 1, 4]);
}

#[test]
fn no_filter_after_all() {
    let scan = builder(table())
        .with_projection(field("value"))
        .with_filter(field("keep"))
        .with_some_filter(None)
        .into_array_stream()
        .unwrap();
    assert_eq!(run(scan).len(), 8);
}

#[test]
fn a_limit_is_never_exceeded() {
    for limit in 0..=9u64 {
        let scan = builder(table())
            .with_projection(field("value"))
            .with_limit(limit)
            .into_array_stream()
            .unwrap();
        assert_eq!(run(scan).len() as u64, limit.min(8));
    }
}

#[test]
fn a_limit_counts_the_rows_that_are_kept() {
    let scan = builder(table())
        .with_projection(field("value"))
        .with_filter(field("keep"))
        .with_limit(4)
        .into_array_stream()
        .unwrap();
    assert_eq!(run(scan), vec![(1, 0), (1, 2), (1, 3), (2, 1)]);
}

#[test]
fn selected_rows_are_relative_to_the_range() {
    let indices = Buffer::from(vec![0u64, 2, 3]);
    let scan = builder(chunked(vec![flat(1, 4), flat(2, 4)]))
        .with_row_range(2..8)
        .with_row_indices(indices)
        .into_array_stream()
        .unwrap();
    assert_eq!(run(scan), vec![(1, 2), (2, 0), (2, 1)]);
}

#[test]
fn chunks_without_a_selected_row_are_passed_over() {
    let selection = Selection::IncludeByIndex(Buffer::from(vec![5u64]));
    let mut scan = builder(chunked(vec![flat(1, 2), flat(2, 2), flat(3, 4)]))
        .with_row_selection(selection)
        .into_array_stream()
        .unwrap();
    let request = scan.next_request().unwrap().unwrap();
    assert_eq!(rows(&request.projection), vec![(3, 0), (3, 1), (3, 2), (3, 3)]);
    assert_eq!(request.selection.true_count(), 1);
    assert!(request.selection.value(1));
    scan.complete(1);
    assert!(scan.next_request().unwrap().is_none());
}

#[test]
fn a_selection_of_nothing() {
    let scan = builder(flat(1, 4))
        .with_row_indices(Buffer::from(Vec::<u64>::new()))
        .into_array_stream()
        .unwrap();
    assert!(run(scan).is_empty());
}

#[test]
fn a_selection_of_all() {
    let scan = builder(flat(1, 4))
        .with_row_indices(Buffer::from(vec![0u64]))
        .with_row_selection(Selection::All)
        .into_array_stream()
        .unwrap();
    assert_eq!(run(scan).len(), 4);
}

#[test]
fn selection_and_filter_are_both_needed() {
    let scan = builder(table())
        .with_projection(field("value"))
        .with_filter(field("keep"))
        .with_row_indices(Buffer::from(vec![0u64, 1, 3, 6]))
        .into_array_stream()
        .unwrap();
    assert_eq!(run(scan), vec![(1, 0), (1, 3)]);
}

#[test]
fn nulls_of_a_filter_are_false() {
    let mut scan = builder(flat(1, 3)).into_array_stream().unwrap();
    let request = scan.next_request().unwrap().unwrap();
    let mask = request.mask(Some(&vec![Some(true), None, Some(false)]));
    assert_eq!((mask.value(0), mask.value(1), mask.value(2)), (true, false, false));
    assert!(!mask.all_false());
    assert!(request.mask(None).all_true());
}

#[test]
fn errors_of_a_scan_in_order() {
    assert!(matches!(
        error(builder(table()).with_projection(field("none")).with_filter(field("other"))),
        VortexError::FieldNotFound(name) if name == "none"
    ));
    assert!(matches!(
        error(builder(table()).with_projection(field("value")).with_filter(field("other"))),
        VortexError::FieldNotFound(name) if name == "other"
    ));
    let empty = DictReader::new(u32s(), flat(1, 0), flat(2, 3));
    let reader = ReaderRef::Dict(Arc::new(empty));
    assert!(matches!(error(builder(reader)), VortexError::EmptyDictionary));
    assert!(matches!(
        error(builder(flat(1, 3)).with_row_range(0..4)),
        VortexError::RowRangeOutOfBounds { start: 0, end: 4, len: 3 }
    ));
}

#[test]
fn masks() {
    let mask = Mask::new(vec![true, false, true]);
    assert_eq!((mask.len(), mask.true_count()), (3, 2));
    assert!(!mask.all_true() && !mask.all_false() && !mask.is_empty());
    let both = mask.and(&Mask::from_values(&vec![Some(true), Some(true), None]));
    assert_eq!((both.value(0), both.value(1), both.value(2)), (true, false, false));
    let none = Mask::new(Vec::new());
    assert!(none.all_true() && none.all_false() && none.is_empty());
    assert!(Mask::new_true(4).all_true());
    assert_eq!(mask.clone().true_count(), 2);
}

#[test]
fn masks_of_selections() {
    let selection = Selection::IncludeByIndex(Buffer::from(vec![9u64, 4, 6, 4]));
    let mask = selection.row_mask(&(4..8));
    let values: Vec<bool> = (0..mask.len()).map(|i| mask.value(i)).collect();
    assert_eq!(values, vec![true, false, true, false]);
    assert_eq!(Selection::All.row_mask(&(4..8)).true_count(), 4);
}

#[test]
fn the_filter_is_an_expression_of_the_reader() {
    let scan = builder(table()).with_filter(field("keep")).into_array_stream();
    assert!(scan.is_ok());
    assert!(matches!(field("keep").scalar_fn(), ScalarFn::GetItem(name) if name == "keep"));
}

fn broken(rows: usize) -> ReaderRef {
    ReaderRef::Dict(Arc::new(DictReader::new(u32s(), flat(8, 0), flat(9, rows))))
}

#[test]
fn a_scan_goes_on_after_an_error() {
    let reader = chunked(vec![flat(1, 3), broken(2), flat(2, 2)]);
    let indices = Buffer::copy_from([0u64, 3, 6]);
    let mut scan = builder(reader).with_row_indices(indices).into_array_stream().unwrap();
    let request = scan.next_request().unwrap().unwrap();
    assert_eq!(rows(&request.projection), vec![(1, 0), (1, 1), (1, 2)]);
    scan.complete(1);
    assert!(matches!(scan.next_request(), Err(VortexError::EmptyDictionary)));
    let request = scan.next_request().unwrap().unwrap();
    assert_eq!(rows(&request.projection), vec![(2, 0), (2, 1)]);
    // The position of the row is counted over the rows that could not be read.
    assert!(!request.selection.value(0) && request.selection.value(1));
    scan.complete(1);
    assert!(scan.next_request().unwrap().is_none());
}

/// A struct of a value and of a condition.
fn table_of(value: ReaderRef, keep: ReaderRef) -> ReaderRef {
    let names = vec!["value".to_string(), "keep".to_string()];
    let fields = StructFields::new(names, vec![u32s(), u32s()]);
    let dtype = DType::Struct(Arc::new(fields), Nullability::NonNullable);
    let rows = value.row_count();
    ReaderRef::Struct(Arc::new(StructReader::new(rows, dtype, None, vec![value, keep])))
}

#[test]
fn a_filter_that_fails_leaves_the_projection_where_it_was() {
    let table = table_of(flat(1, 6), chunked(vec![broken(2), flat(4, 4)]));
    let indices = Buffer::copy_from([0u64, 1]);
    let mut scan = builder(table)
        .with_projection(field("value"))
        .with_filter(field("keep"))
        .with_row_indices(indices)
        .into_array_stream()
        .unwrap();
    assert!(matches!(scan.next_request(), Err(VortexError::EmptyDictionary)));
    let request = scan.next_request().unwrap().unwrap();
    assert_eq!(rows(&request.projection), vec![(1, 0), (1, 1), (1, 2), (1, 3)]);
    assert_eq!(rows(request.filter.as_ref().unwrap()), vec![(4, 0), (4, 1), (4, 2), (4, 3)]);
    // The positions are those of the rows that were not passed over.
    assert!(request.selection.value(0) && request.selection.value(1));
    assert!(!request.selection.value(2) && !request.selection.value(3));
    scan.complete(2);
    assert!(scan.next_request().unwrap().is_none());
}

#[test]
fn a_projection_that_fails_is_passed_over_with_the_filter_read() {
    let keep = chunked(vec![flat(3, 3), flat(4, 3)]);
    let table = table_of(chunked(vec![broken(4), flat(2, 2)]), keep);
    let mut scan = builder(table)
        .with_projection(field("value"))
        .with_filter(field("keep"))
        .with_row_indices(Buffer::copy_from([0u64, 4]))
        .into_array_stream()
        .unwrap();
    assert!(matches!(scan.next_request(), Err(VortexError::EmptyDictionary)));
    let request = scan.next_request().unwrap().unwrap();
    assert_eq!(rows(&request.projection), vec![(2, 0), (2, 1)]);
    assert_eq!(rows(request.filter.as_ref().unwrap()), vec![(4, 0), (4, 1)]);
    assert!(!request.selection.value(0) && request.selection.value(1));
    scan.complete(1);
    assert!(scan.next_request().unwrap().is_none());
}

#[test]
fn rows_that_are_not_selected_give_no_error() {
    let reader = chunked(vec![flat(1, 3), broken(2), flat(2, 2)]);
    let indices = Buffer::copy_from([0u64, 6]);
    let scan = builder(reader).with_row_indices(indices).into_array_stream().unwrap();
    assert_eq!(run(scan), vec![(1, 0), (2, 1)]);
}

#[test]
fn nothing_is_read_where_no_row_is_wanted() {
    let mut scan = builder(flat(1, 2)).into_array_stream().unwrap();
    let request = scan.next_request().unwrap().unwrap();
    let nothing = request.mask(Some(&vec![Some(false), None]));
    assert!(matches!(request.resolve(&nothing, u32s()), MaskedRead::Empty(_)));
    let something = request.mask(Some(&vec![Some(false), Some(true)]));
    match request.resolve(&something, u32s()) {
        MaskedRead::Read(future) => assert_eq!(rows(&future), vec![(1, 0), (1, 1)]),
        MaskedRead::Empty(_) => panic!("nothing read"),
    }
}

#[test]
fn a_limit_ends_a_scan_before_an_error() {
    let scan = builder(chunked(vec![flat(1, 3), broken(2)])).with_limit(3).into_array_stream();
    assert_eq!(run(scan.unwrap()), vec![(1, 0), (1, 1), (1, 2)]);
}
