//! The mathematical model of a reader: what its rows are, and in which pieces it delivers them.
use vstd::prelude::*;
use crate::cells::{
    agrees, all_ok, changed, clean, first_failure, lemma_agrees, lemma_clean, lemma_first_failure,
    lemma_unread, lifted, rows_of, struct_fault, unread, Cell,
};
use crate::chunks::{
    aligned, all_dropped, all_full, all_hold, dropped, flat, full, lemma_aligned_dropped,
    lemma_aligned_flat, lemma_aligned_full, lemma_dropped, lemma_dropped_concat, lemma_flat_concat,
    lemma_flat_one, lemma_full_flat, lemma_mapped, mapped, row_across,
};
use crate::dtype::SpecDType;
use crate::error::SpecError;
use crate::expr::{SpecExpression, SpecScalarFn};
use crate::row::{call_join, decode, finished, struct_join, Row, SpecSegment};
use crate::scalar::Scalar;
use crate::stats::Stat;
use crate::track::{
    call_side, chunks_of, drained, even, lane_chunks, lane_left, lane_solid, lanes_chunks,
    lanes_even, lanes_left, lanes_solid, law_drained, law_skipped, least, lemma_least,
    pending_chunks, pending_even, pending_left, pending_solid, range_chunks, range_even, range_left,
    range_solid, rows_left, skipped, solid, struct_side, LaneTrack, Pending, Track,
};

verus! {

/// A tree of readers.
pub enum Layout {
    /// A stored segment, and an expression over its rows.
    Flat { dtype: SpecDType, segment: SpecSegment, expression: Option<SpecExpression> },
    /// One value repeated, and an expression over it.
    Constant {
        scalar: Scalar,
        dtype: SpecDType,
        row_count: u64,
        expression: Option<SpecExpression>,
    },
    /// Layouts one after the other.
    Chunked { row_count: u64, dtype: SpecDType, chunks: Seq<Layout> },
    /// Structs of the rows of layouts side by side.
    Struct {
        row_count: u64,
        dtype: SpecDType,
        validity: Option<Box<Layout>>,
        fields: Seq<Layout>,
    },
    /// A function of the rows of layouts side by side.
    ScalarFn { function: SpecScalarFn, dtype: SpecDType, row_count: u64, children: Seq<Layout> },
    /// Codes into a dictionary, and an expression over the values they stand for.
    Dict {
        dtype: SpecDType,
        values: Box<Layout>,
        codes: Box<Layout>,
        expression: Option<SpecExpression>,
    },
    /// A layout with statistics of its zones.
    Zoned {
        data: Box<Layout>,
        zone_map: Box<Layout>,
        zone_len: usize,
        present_stats: Seq<Stat>,
    },
}

/// The number of rows that a layout says it has.
pub open spec fn row_count(l: Layout) -> u64
    decreases l,
{
    match l {
        Layout::Flat { segment, .. } => segment.len as u64,
        Layout::Constant { row_count, .. } => row_count,
        Layout::Chunked { row_count, .. } => row_count,
        Layout::Struct { row_count, .. } => row_count,
        Layout::ScalarFn { row_count, .. } => row_count,
        Layout::Dict { codes, .. } => row_count(*codes),
        Layout::Zoned { data, .. } => row_count(*data),
    }
}

/// The type of a layout's rows.
pub open spec fn dtype_of(l: Layout) -> SpecDType
    decreases l,
{
    match l {
        Layout::Flat { dtype, .. } => dtype,
        Layout::Constant { dtype, .. } => dtype,
        Layout::Chunked { dtype, .. } => dtype,
        Layout::Struct { dtype, .. } => dtype,
        Layout::ScalarFn { dtype, .. } => dtype,
        Layout::Dict { dtype, .. } => dtype,
        Layout::Zoned { data, .. } => dtype_of(*data),
    }
}

/// The layouts that a struct's rows are put together from: the one that says which structs are
/// present, where there is one, and the fields.
pub open spec fn parts(validity: Option<Box<Layout>>, fields: Seq<Layout>) -> Seq<Layout> {
    match validity {
        Some(v) => seq![*v] + fields,
        None => fields,
    }
}

/// The rows at position `i` of each of the lists of rows.
pub open spec fn at(lanes: Seq<Seq<Row>>, i: int) -> Seq<Row> {
    Seq::new(lanes.len(), |j: int| lanes[j][i])
}

/// The rows of a layout.
pub open spec fn rows(l: Layout) -> Seq<Row>
    decreases l, 0nat,
{
    match l {
        Layout::Flat { segment, expression, .. } => Seq::new(
            segment.len as nat,
            |i: int| finished(expression, Row::Stored { segment, index: i as nat }),
        ),
        Layout::Constant { scalar, row_count, expression, .. } => Seq::new(
            row_count as nat,
            |i: int| finished(expression, Row::Constant(scalar)),
        ),
        Layout::Chunked { chunks, .. } => flat(all_rows(chunks)),
        Layout::Struct { row_count, dtype, validity, fields } => {
            let lanes = match validity {
                Some(v) => seq![rows(*v)] + all_rows(fields),
                None => all_rows(fields),
            };
            Seq::new(row_count as nat, |i: int| struct_join(dtype, validity is Some)(at(lanes, i)))
        },
        Layout::ScalarFn { function, row_count, children, .. } => {
            let lanes = all_rows(children);
            Seq::new(row_count as nat, |i: int| call_join(function)(at(lanes, i)))
        },
        Layout::Dict { values, codes, expression, .. } => rows(*codes).map_values(
            decode(rows(*values), expression),
        ),
        Layout::Zoned { data, .. } => rows(*data),
    }
}

/// The rows of each of the layouts.
pub open spec fn all_rows(layouts: Seq<Layout>) -> Seq<Seq<Row>>
    decreases layouts, 0nat,
{
    Seq::new(
        layouts.len(),
        |i: int|
            if 0 <= i < layouts.len() {
                rows(layouts[i])
            } else {
                Seq::empty()
            },
    )
}

/// The length of the first piece of a run of `n` equal rows: what is left once pieces as long as an
/// array can be are taken from the end.
pub open spec fn first_run(n: nat) -> nat {
    ((n - 1) % usize::MAX as int + 1) as nat
}

/// A run of `n` equal cells, in pieces no longer than an array can be.
pub open spec fn repeated<T>(cell: T, n: nat) -> Seq<Seq<T>>
    decreases n,
{
    if n == 0 {
        Seq::empty()
    } else {
        let m = first_run(n);
        proof {
            lemma_first_run(n);
        }
        seq![Seq::new(m, |i: int| cell)] + repeated(cell, (n - m) as nat)
    }
}

/// A first piece is not empty, not longer than the run or than an array can be, and it is the part
/// of the run that comes before a whole number of the longest pieces.
pub proof fn lemma_first_run(n: nat)
    requires
        n > 0,
    ensures
        1 <= first_run(n) <= n,
        first_run(n) <= usize::MAX,
        n <= usize::MAX ==> first_run(n) == n,
        forall|k: nat| k < first_run(n) ==> #[trigger] first_run((n - k) as nat) == first_run(n) - k,
{
    let m = usize::MAX as int;
    let q = (n - 1) / m;
    let r = (n - 1) % m;
    assert(n - 1 == q * m + r && 0 <= r < m) by (nonlinear_arith)
        requires
            m > 0,
            q == (n - 1) / m,
            r == (n - 1) % m,
    ;
    assert(q * m >= 0) by (nonlinear_arith)
        requires
            m > 0,
            n > 0,
            q == (n - 1) / m,
    ;
    if n <= m {
        assert((n - 1) % m == n - 1) by (nonlinear_arith)
            requires
                0 <= n - 1 < m,
        ;
    }
    assert forall|k: nat| k < first_run(n) implies #[trigger] first_run((n - k) as nat)
        == first_run(n) - k by {
        let x = n - k - 1;
        assert(x % m == r - k) by (nonlinear_arith)
            requires
                x == q * m + (r - k),
                0 <= r - k < m,
                m > 0,
        ;
    }
}

/// What a stream of the rows of a range of a layout is to read. Of layouts one after the other, none is
/// open, and those that the range overlaps are still to be opened.
pub open spec fn track(l: Layout, start: nat, end: nat) -> Track
    decreases l, 0nat,
{
    match l {
        Layout::Flat { dtype, segment, expression } => Track::Run {
            chunks: if start < end {
                seq![
                    Seq::new(
                        (end - start) as nat,
                        |i: int|
                            finished(
                                expression,
                                Row::Stored { segment, index: (start + i) as nat },
                            ),
                    ),
                ]
            } else {
                Seq::empty()
            },
            dtype,
        },
        Layout::Constant { scalar, dtype, expression, .. } => Track::Run {
            chunks: if start < end {
                repeated(finished(expression, Row::Constant(scalar)), (end - start) as nat)
            } else {
                Seq::empty()
            },
            dtype,
        },
        Layout::Chunked { chunks, .. } => Track::Chain {
            open: None,
            pending: overlapping(chunks, start, end),
        },
        Layout::Struct { dtype, validity, fields, .. } => Track::Side {
            lanes: match validity {
                Some(v) => seq![LaneTrack { ahead: None, track: track(*v, start, end) }] + tracks(
                    fields,
                    start,
                    end,
                ),
                None => tracks(fields, start, end),
            },
            join: struct_side(dtype, validity is Some),
        },
        Layout::ScalarFn { function, dtype, children, .. } => Track::Side {
            lanes: tracks(children, start, end),
            join: call_side(function, dtype),
        },
        Layout::Dict { dtype, values, codes, expression } => Track::Coded {
            codes: Box::new(track(*codes, start, end)),
            change: decode(values_of(*values), expression),
            dtype,
        },
        Layout::Zoned { data, .. } => track(*data, start, end),
    }
}

/// What streams of the rows of a range of each of the layouts are to read.
pub open spec fn tracks(layouts: Seq<Layout>, start: nat, end: nat) -> Seq<LaneTrack>
    decreases layouts, 0nat,
{
    Seq::new(
        layouts.len(),
        |i: int|
            if 0 <= i < layouts.len() {
                LaneTrack { ahead: None, track: track(layouts[i], start, end) }
            } else {
                arbitrary()
            },
    )
}

/// A range of a layout that is still to be opened.
pub open spec fn unopened(l: Layout, start: nat, end: nat) -> Pending
    decreases l, 1nat,
{
    match open_error(l, start as u64, end as u64) {
        Some(error) => Pending::Fails { error, rows: (end - start) as nat },
        None => Pending::Opens(track(l, start, end)),
    }
}

/// The ranges of layouts one after the other that a range overlaps, in order. An empty range overlaps
/// none.
pub open spec fn overlapping(chunks: Seq<Layout>, start: nat, end: nat) -> Seq<Pending>
    decreases chunks, 0nat,
{
    if chunks.len() == 0 || start >= end {
        Seq::empty()
    } else {
        let count = row_count(chunks[0]) as nat;
        let rest = chunks.subrange(1, chunks.len() as int);
        if start >= count {
            overlapping(rest, (start - count) as nat, (end - count) as nat)
        } else if end <= count {
            seq![unopened(chunks[0], start, end)]
        } else {
            seq![unopened(chunks[0], start, count)] + overlapping(rest, 0, (end - count) as nat)
        }
    }
}

/// The rows of a dictionary's values, where they can be read.
pub open spec fn values_of(values: Layout) -> Seq<Row>
    decreases values, 1nat,
{
    match drained(track(values, 0, row_count(values) as nat)) {
        Ok(chunks) => flat(chunks),
        Err(_) => Seq::empty(),
    }
}

/// The pieces in which a layout delivers the rows of a range.
pub open spec fn pieces(l: Layout, start: nat, end: nat) -> Seq<Seq<Cell>>
    decreases l, 0nat,
{
    match l {
        Layout::Flat { segment, expression, .. } => if start < end {
            seq![
                clean(
                    Seq::new(
                        (end - start) as nat,
                        |i: int|
                            finished(
                                expression,
                                Row::Stored { segment, index: (start + i) as nat },
                            ),
                    ),
                ),
            ]
        } else {
            Seq::empty()
        },
        Layout::Constant { scalar, expression, .. } => if start < end {
            repeated(Ok::<Row, SpecError>(finished(expression, Row::Constant(scalar))), (end - start) as nat)
        } else {
            Seq::empty()
        },
        Layout::Chunked { chunks, .. } => overlaps(chunks, start, end),
        Layout::Struct { dtype, validity, fields, .. } => {
            let lanes = match validity {
                Some(v) => seq![pieces(*v, start, end)] + all_pieces(fields, start, end),
                None => all_pieces(fields, start, end),
            };
            aligned(lanes, lifted(struct_join(dtype, validity is Some), struct_fault(dtype)))
        },
        Layout::ScalarFn { function, children, .. } => aligned(
            all_pieces(children, start, end),
            lifted(call_join(function), None),
        ),
        Layout::Dict { values, codes, expression, .. } => mapped(
            pieces(*codes, start, end),
            changed(
                decode(values_of(*values), expression),
            ),
        ),
        Layout::Zoned { data, .. } => pieces(*data, start, end),
    }
}

/// The pieces in which each of the layouts delivers the rows of a range.
pub open spec fn all_pieces(layouts: Seq<Layout>, start: nat, end: nat) -> Seq<Seq<Seq<Cell>>>
    decreases layouts, 0nat,
{
    Seq::new(
        layouts.len(),
        |i: int|
            if 0 <= i < layouts.len() {
                pieces(layouts[i], start, end)
            } else {
                Seq::empty()
            },
    )
}

/// The pieces that a layout delivers of a range once it is asked to open it: none of its rows can be
/// read where it cannot be opened.
pub open spec fn range_pieces(l: Layout, start: nat, end: nat) -> Seq<Seq<Cell>>
    decreases l, 1nat,
{
    match open_error(l, start as u64, end as u64) {
        Some(error) => unread(error, (end - start) as nat),
        None => pieces(l, start, end),
    }
}

/// The pieces in which layouts one after the other deliver the rows of a range: those of each layout
/// that the range overlaps, in order. An empty range overlaps none.
pub open spec fn overlaps(chunks: Seq<Layout>, start: nat, end: nat) -> Seq<Seq<Cell>>
    decreases chunks, 0nat,
{
    if chunks.len() == 0 || start >= end {
        Seq::empty()
    } else {
        let count = row_count(chunks[0]) as nat;
        let rest = chunks.subrange(1, chunks.len() as int);
        if start >= count {
            overlaps(rest, (start - count) as nat, (end - count) as nat)
        } else if end <= count {
            range_pieces(chunks[0], start, end)
        } else {
            range_pieces(chunks[0], start, count) + overlaps(rest, 0, (end - count) as nat)
        }
    }
}

/// The rows of the layouts together.
pub open spec fn total_rows(layouts: Seq<Layout>) -> nat
    decreases layouts.len(),
{
    if layouts.len() == 0 {
        0
    } else {
        row_count(layouts[0]) as nat + total_rows(layouts.subrange(1, layouts.len() as int))
    }
}

/// Every dictionary that is read when a stream is opened has values.
pub open spec fn openable(l: Layout) -> bool
    decreases l,
{
    match l {
        Layout::Struct { validity, fields, .. } => {
            &&& match validity {
                Some(v) => openable(*v),
                None => true,
            }
            &&& forall|i: int| 0 <= i < fields.len() ==> openable(#[trigger] fields[i])
        },
        Layout::ScalarFn { children, .. } => forall|i: int|
            0 <= i < children.len() ==> openable(#[trigger] children[i]),
        Layout::Dict { values, codes, .. } => {
            &&& openable(*values)
            &&& row_count(*values) > 0
            &&& openable(*codes)
        },
        Layout::Zoned { data, .. } => openable(*data),
        _ => true,
    }
}

/// A layout has the rows that it says it has: layouts one after the other have them together,
/// layouts side by side have as many each, and there is at least one of these.
pub open spec fn counted(l: Layout) -> bool
    decreases l,
{
    match l {
        Layout::Flat { .. } => true,
        Layout::Constant { .. } => true,
        Layout::Chunked { row_count: count, chunks, .. } => {
            &&& total_rows(chunks) == count
            &&& forall|i: int| 0 <= i < chunks.len() ==> counted(#[trigger] chunks[i])
        },
        Layout::Struct { row_count: count, validity, fields, .. } => {
            &&& validity is Some || fields.len() > 0
            &&& match validity {
                Some(v) => counted(*v) && row_count(*v) == count,
                None => true,
            }
            &&& forall|i: int|
                0 <= i < fields.len() ==> {
                    &&& counted(#[trigger] fields[i])
                    &&& row_count(fields[i]) == count
                }
        },
        Layout::ScalarFn { row_count: count, children, .. } => {
            &&& children.len() > 0
            &&& forall|i: int|
                0 <= i < children.len() ==> {
                    &&& counted(#[trigger] children[i])
                    &&& row_count(children[i]) == count
                }
        },
        Layout::Dict { values, codes, .. } => counted(*values) && counted(*codes),
        Layout::Zoned { data, .. } => counted(*data),
    }
}

/// A layout has the rows that it says it has, a struct's type is one of as many fields, and the codes
/// of a chunk with rows index a dictionary that has values.
pub open spec fn well_formed(l: Layout) -> bool
    decreases l,
{
    match l {
        Layout::Flat { .. } => true,
        Layout::Constant { .. } => true,
        Layout::Chunked { row_count: count, chunks, .. } => {
            &&& total_rows(chunks) == count
            &&& forall|i: int|
                0 <= i < chunks.len() ==> {
                    &&& well_formed(#[trigger] chunks[i])
                    &&& row_count(chunks[i]) > 0 ==> openable(chunks[i])
                }
        },
        Layout::Struct { row_count: count, dtype, validity, fields } => {
            &&& dtype matches SpecDType::Struct { names, .. } && names.len() == fields.len()
            &&& validity is Some || fields.len() > 0
            &&& match validity {
                Some(v) => well_formed(*v) && row_count(*v) == count,
                None => true,
            }
            &&& forall|i: int|
                0 <= i < fields.len() ==> {
                    &&& well_formed(#[trigger] fields[i])
                    &&& row_count(fields[i]) == count
                }
        },
        Layout::ScalarFn { row_count: count, children, .. } => {
            &&& children.len() > 0
            &&& forall|i: int|
                0 <= i < children.len() ==> {
                    &&& well_formed(#[trigger] children[i])
                    &&& row_count(children[i]) == count
                }
        },
        Layout::Dict { values, codes, .. } => well_formed(*values) && well_formed(*codes),
        Layout::Zoned { data, .. } => well_formed(*data),
    }
}

/// A layout can be read: layouts one after the other have the rows they say.
pub open spec fn readable(l: Layout) -> bool
    decreases l,
{
    match l {
        Layout::Flat { .. } => true,
        Layout::Constant { .. } => true,
        Layout::Chunked { chunks, .. } => forall|i: int|
            0 <= i < chunks.len() ==> counted(#[trigger] chunks[i]),
        Layout::Struct { validity, fields, .. } => {
            &&& match validity {
                Some(v) => readable(*v),
                None => true,
            }
            &&& forall|i: int| 0 <= i < fields.len() ==> readable(#[trigger] fields[i])
        },
        Layout::ScalarFn { children, .. } => forall|i: int|
            0 <= i < children.len() ==> readable(#[trigger] children[i]),
        Layout::Dict { values, codes, .. } => readable(*values) && readable(*codes),
        Layout::Zoned { data, .. } => readable(*data),
    }
}

/// Every layout that has the rows it says can be read.
pub proof fn lemma_readable(l: Layout)
    requires
        counted(l),
    ensures
        readable(l),
    decreases l,
{
    match l {
        Layout::Struct { validity, fields, .. } => {
            match validity {
                Some(v) => lemma_readable(*v),
                None => {},
            }
            assert forall|i: int| 0 <= i < fields.len() implies readable(#[trigger] fields[i]) by {
                lemma_readable(fields[i]);
            }
        },
        Layout::ScalarFn { children, .. } => {
            assert forall|i: int| 0 <= i < children.len() implies readable(
                #[trigger] children[i],
            ) by {
                lemma_readable(children[i]);
            }
        },
        Layout::Dict { values, codes, .. } => {
            lemma_readable(*values);
            lemma_readable(*codes);
        },
        Layout::Zoned { data, .. } => lemma_readable(*data),
        _ => {},
    }
}

/// Every well-formed layout has the rows it says.
pub proof fn lemma_counted(l: Layout)
    requires
        well_formed(l),
    ensures
        counted(l),
    decreases l,
{
    match l {
        Layout::Chunked { chunks, .. } => {
            assert forall|i: int| 0 <= i < chunks.len() implies counted(#[trigger] chunks[i]) by {
                lemma_counted(chunks[i]);
            }
        },
        Layout::Struct { validity, fields, .. } => {
            match validity {
                Some(v) => lemma_counted(*v),
                None => {},
            }
            assert forall|i: int| 0 <= i < fields.len() implies counted(#[trigger] fields[i]) by {
                lemma_counted(fields[i]);
            }
        },
        Layout::ScalarFn { children, .. } => {
            assert forall|i: int| 0 <= i < children.len() implies counted(
                #[trigger] children[i],
            ) by {
                lemma_counted(children[i]);
            }
        },
        Layout::Dict { values, codes, .. } => {
            lemma_counted(*values);
            lemma_counted(*codes);
        },
        Layout::Zoned { data, .. } => lemma_counted(*data),
        _ => {},
    }
}

/// Why a range is not one of a stored segment of `len` rows.
pub open spec fn range_error(len: usize, start: u64, end: u64) -> Option<SpecError> {
    if start > usize::MAX {
        Some(SpecError::RowRangeStartTooLarge)
    } else if end > usize::MAX {
        Some(SpecError::RowRangeEndTooLarge)
    } else if start > len || end > len || start > end {
        Some(SpecError::RowRangeOutOfBounds { start: start as usize, end: end as usize, len })
    } else {
        None
    }
}

/// Why a range of a layout cannot be opened: it is not one of a stored segment, or a dictionary has
/// no values or cannot be read.
pub open spec fn open_error(l: Layout, start: u64, end: u64) -> Option<SpecError>
    decreases l, 0nat,
{
    match l {
        Layout::Flat { segment, .. } => range_error(segment.len, start, end),
        Layout::Constant { .. } => None,
        Layout::Chunked { .. } => None,
        Layout::Struct { validity, fields, .. } => {
            let error = match validity {
                Some(v) => open_error(*v, start, end),
                None => None,
            };
            match error {
                Some(error) => Some(error),
                None => first_error(fields, start, end),
            }
        },
        Layout::ScalarFn { children, .. } => first_error(children, start, end),
        Layout::Dict { values, codes, .. } => {
            let count = row_count(*values);
            match open_error(*values, 0, count) {
                Some(error) => Some(error),
                None => match drained(track(*values, 0, count as nat)) {
                    Err(error) => Some(error),
                    Ok(chunks) => if chunks.len() == 0 {
                        Some(SpecError::EmptyDictionary)
                    } else {
                        open_error(*codes, start, end)
                    },
                },
            }
        },
        Layout::Zoned { data, .. } => open_error(*data, start, end),
    }
}

/// Why a range of the first of the layouts that cannot be opened cannot.
pub open spec fn first_error(layouts: Seq<Layout>, start: u64, end: u64) -> Option<SpecError>
    decreases layouts, 0nat,
{
    if layouts.len() == 0 {
        None
    } else {
        match first_error(layouts.drop_last(), start, end) {
            Some(error) => Some(error),
            None => open_error(layouts.last(), start, end),
        }
    }
}

/// Layouts one after the other are of the type of the whole.
pub open spec fn uniform(l: Layout) -> bool
    decreases l,
{
    match l {
        Layout::Chunked { dtype, chunks, .. } => forall|i: int|
            0 <= i < chunks.len() ==> uniform(#[trigger] chunks[i]) && dtype_of(chunks[i]) == dtype,
        Layout::Zoned { data, .. } => uniform(*data),
        _ => true,
    }
}

/// Whether a range may be asked of a layout: one that ends before it starts may not be asked of
/// layouts one after the other.
pub open spec fn accepts_range(l: Layout, start: u64, end: u64) -> bool
    decreases l,
{
    match l {
        Layout::Flat { .. } => true,
        Layout::Constant { .. } => true,
        Layout::Chunked { .. } => start <= end,
        Layout::Struct { validity, fields, .. } => {
            &&& match validity {
                Some(v) => accepts_range(*v, start, end),
                None => true,
            }
            &&& forall|i: int|
                0 <= i < fields.len() ==> accepts_range(#[trigger] fields[i], start, end)
        },
        Layout::ScalarFn { children, .. } => forall|i: int|
            0 <= i < children.len() ==> accepts_range(#[trigger] children[i], start, end),
        Layout::Dict { codes, .. } => accepts_range(*codes, start, end),
        Layout::Zoned { data, .. } => accepts_range(*data, start, end),
    }
}

/// A range that does not end before it starts may be asked of every layout.
pub proof fn lemma_accepts_range(l: Layout, start: u64, end: u64)
    requires
        start <= end,
    ensures
        accepts_range(l, start, end),
    decreases l,
{
    match l {
        Layout::Struct { validity, fields, .. } => {
            match validity {
                Some(v) => lemma_accepts_range(*v, start, end),
                None => {},
            }
            assert forall|i: int| 0 <= i < fields.len() implies accepts_range(
                #[trigger] fields[i],
                start,
                end,
            ) by {
                lemma_accepts_range(fields[i], start, end);
            }
        },
        Layout::ScalarFn { children, .. } => {
            assert forall|i: int| 0 <= i < children.len() implies accepts_range(
                #[trigger] children[i],
                start,
                end,
            ) by {
                lemma_accepts_range(children[i], start, end);
            }
        },
        Layout::Dict { codes, .. } => lemma_accepts_range(*codes, start, end),
        Layout::Zoned { data, .. } => lemma_accepts_range(*data, start, end),
        _ => {},
    }
}

/// How many layouts stand above one another.
pub open spec fn height(l: Layout) -> nat
    decreases l, 0nat,
{
    match l {
        Layout::Flat { .. } => 0,
        Layout::Constant { .. } => 0,
        Layout::Chunked { chunks, .. } => 1 + tallest(chunks),
        Layout::Struct { validity, fields, .. } => {
            let first = match validity {
                Some(v) => height(*v),
                None => 0,
            };
            if first > tallest(fields) {
                1 + first
            } else {
                1 + tallest(fields)
            }
        },
        Layout::ScalarFn { children, .. } => 1 + tallest(children),
        Layout::Dict { values, codes, .. } => 1 + height(*values) + height(*codes),
        Layout::Zoned { data, .. } => 1 + height(*data),
    }
}

/// The greatest height among the layouts.
pub open spec fn tallest(layouts: Seq<Layout>) -> nat
    decreases layouts, 0nat,
{
    if layouts.len() == 0 {
        0
    } else {
        let rest = tallest(layouts.drop_last());
        let last = height(layouts.last());
        if last > rest {
            last
        } else {
            rest
        }
    }
}

/// None of the layouts is taller than the tallest.
pub proof fn lemma_tallest(layouts: Seq<Layout>, i: int)
    requires
        0 <= i < layouts.len(),
    ensures
        height(layouts[i]) <= tallest(layouts),
    decreases layouts.len(),
{
    if i < layouts.len() - 1 {
        lemma_tallest(layouts.drop_last(), i);
    }
}

/// A run of equal cells is the cells it repeats, in non-empty pieces; dropping some leaves the run of
/// the others.
pub proof fn lemma_repeated<T>(cell: T, n: nat, k: nat)
    requires
        k <= n,
    ensures
        flat(repeated(cell, n)) == Seq::new(n, |i: int| cell),
        full(repeated(cell, n)),
        dropped(repeated(cell, n), k) == repeated(cell, (n - k) as nat),
    decreases n,
{
    let all = repeated(cell, n);
    if n == 0 {
        assert(flat(all) =~= Seq::new(n, |i: int| cell));
    } else {
        lemma_first_run(n);
        let m = first_run(n);
        let head = Seq::new(m, |i: int| cell);
        let rest = repeated(cell, (n - m) as nat);
        let left = if k >= m {
            (k - m) as nat
        } else {
            0
        };
        lemma_repeated(cell, (n - m) as nat, left);
        assert(all.first() == head);
        assert(all.drop_first() =~= rest);
        assert(flat(all) =~= Seq::new(n, |i: int| cell));
        assert forall|i: int| 0 <= i < all.len() implies (#[trigger] all[i]).len() > 0 by {
            if i > 0 {
                assert(all[i] == rest[i - 1]);
            }
        }
        if 0 < k < m {
            assert(first_run((n - k) as nat) == m - k);
            assert(head.skip(k as int) =~= Seq::new((m - k) as nat, |i: int| cell));
            assert((n - k) as nat - (m - k) as nat == n - m);
        }
    }
}

/// The lists of a struct's parts are those of its validity and of its fields.
pub proof fn lemma_parts(validity: Option<Box<Layout>>, fields: Seq<Layout>, start: nat, end: nat)
    ensures
        all_rows(parts(validity, fields)) == match validity {
            Some(v) => seq![rows(*v)] + all_rows(fields),
            None => all_rows(fields),
        },
        all_pieces(parts(validity, fields), start, end) == match validity {
            Some(v) => seq![pieces(*v, start, end)] + all_pieces(fields, start, end),
            None => all_pieces(fields, start, end),
        },
{
    match validity {
        Some(v) => {
            let all = parts(validity, fields);
            assert(all_rows(all) =~= seq![rows(*v)] + all_rows(fields));
            assert(all_pieces(all, start, end) =~= seq![pieces(*v, start, end)] + all_pieces(
                fields,
                start,
                end,
            ));
        },
        None => {},
    }
}

/// No piece is empty.
pub proof fn lemma_pieces_full(l: Layout, start: nat, end: nat)
    ensures
        full(pieces(l, start, end)),
    decreases l, 0nat,
{
    match l {
        Layout::Flat { .. } => {},
        Layout::Constant { scalar, expression, .. } => {
            if start < end {
                lemma_repeated(
                    Ok::<Row, SpecError>(finished(expression, Row::Constant(scalar))),
                    (end - start) as nat,
                    0,
                );
            }
        },
        Layout::Chunked { chunks, .. } => lemma_overlaps_full(chunks, start, end),
        Layout::Struct { dtype, validity, fields, .. } => {
            lemma_parts(validity, fields, start, end);
            lemma_aligned_full(
                all_pieces(parts(validity, fields), start, end),
                lifted(struct_join(dtype, validity is Some), struct_fault(dtype)),
            );
        },
        Layout::ScalarFn { function, children, .. } => lemma_aligned_full(
            all_pieces(children, start, end),
            lifted(call_join(function), None),
        ),
        Layout::Dict { values, codes, expression, .. } => {
            lemma_pieces_full(*codes, start, end);
            let dictionary = values_of(*values);
            lemma_mapped(
                pieces(*codes, start, end),
                changed(decode(dictionary, expression)),
                0,
            );
        },
        Layout::Zoned { data, .. } => lemma_pieces_full(*data, start, end),
    }
}

/// What is read of a range are its pieces, or the error of opening it at each of its rows.
proof fn lemma_range_pieces(l: Layout, start: nat, end: nat)
    ensures
        match open_error(l, start as u64, end as u64) {
            Some(error) => range_pieces(l, start, end) == unread(error, (end - start) as nat),
            None => range_pieces(l, start, end) == pieces(l, start, end),
        },
{
}

/// No piece of a range is empty.
pub proof fn lemma_range_full(l: Layout, start: nat, end: nat)
    requires
        start <= end,
    ensures
        full(range_pieces(l, start, end)),
    decreases l, 1nat,
{
    lemma_range_pieces(l, start, end);
    match open_error(l, start as u64, end as u64) {
        Some(error) => lemma_unread(error, (end - start) as nat, 0),
        None => lemma_pieces_full(l, start, end),
    }
}

/// No piece of layouts one after the other is empty.
pub proof fn lemma_overlaps_full(chunks: Seq<Layout>, start: nat, end: nat)
    ensures
        full(overlaps(chunks, start, end)),
    decreases chunks, 0nat,
{
    if chunks.len() > 0 && start < end {
        let count = row_count(chunks[0]) as nat;
        let rest = chunks.subrange(1, chunks.len() as int);
        if start >= count {
            lemma_overlaps_full(rest, (start - count) as nat, (end - count) as nat);
        } else if end <= count {
            lemma_range_full(chunks[0], start, end);
        } else {
            lemma_range_full(chunks[0], start, count);
            lemma_overlaps_full(rest, 0, (end - count) as nat);
            let a = range_pieces(chunks[0], start, count);
            let b = overlaps(rest, 0, (end - count) as nat);
            assert forall|i: int| 0 <= i < (a + b).len() implies (#[trigger] (a + b)[i]).len()
                > 0 by {
                if i < a.len() {
                    assert((a + b)[i] == a[i]);
                } else {
                    assert((a + b)[i] == b[i - a.len()]);
                }
            }
        }
    }
}

/// A run of equal rows, and of what stands where they do.
proof fn lemma_repeated_clean(row: Row, n: nat)
    ensures
        ({
            let chunks = repeated(row, n);
            repeated(Ok::<Row, SpecError>(row), n) == Seq::new(
                chunks.len(),
                |i: int| clean(chunks[i]),
            )
        }),
    decreases n,
{
    let chunks = repeated(row, n);
    let goal = Seq::new(chunks.len(), |i: int| clean(chunks[i]));
    let cell = Ok::<Row, SpecError>(row);
    if n == 0 {
        assert(repeated(cell, n) =~= goal);
    } else {
        lemma_first_run(n);
        let m = first_run(n);
        let rest = repeated(row, (n - m) as nat);
        lemma_repeated_clean(row, (n - m) as nat);
        assert(clean(Seq::new(m, |i: int| row)) =~= Seq::new(m, |i: int| cell));
        assert(goal =~= seq![clean(Seq::new(m, |i: int| row))] + Seq::new(
            rest.len(),
            |i: int| clean(rest[i]),
        ));
    }
}

/// The pieces of a range are what stands on the track of a stream of it.
pub proof fn law_pieces(l: Layout, start: nat, end: nat)
    ensures
        pieces(l, start, end) == chunks_of(track(l, start, end)),
    decreases l, 0nat,
{
    let t = track(l, start, end);
    match l {
        Layout::Flat { .. } => {
            assert(pieces(l, start, end) =~= chunks_of(t));
        },
        Layout::Constant { scalar, expression, .. } => {
            if start < end {
                lemma_repeated_clean(
                    finished(expression, Row::Constant(scalar)),
                    (end - start) as nat,
                );
            }
            assert(pieces(l, start, end) =~= chunks_of(t));
        },
        Layout::Chunked { chunks, .. } => lemma_overlapping(chunks, start, end),
        Layout::Struct { dtype, validity, fields, .. } => {
            let lanes = t->lanes;
            let goal = match validity {
                Some(v) => seq![pieces(*v, start, end)] + all_pieces(fields, start, end),
                None => all_pieces(fields, start, end),
            };
            let others = tracks(fields, start, end);
            assert forall|i: int| 0 <= i < fields.len() implies lane_chunks(#[trigger] others[i])
                == pieces(fields[i], start, end) by {
                law_pieces(fields[i], start, end);
            }
            assert forall|i: int| 0 <= i < lanes.len() implies lanes_chunks(lanes)[i]
                == goal[i] by {
                match validity {
                    Some(v) => {
                        if i == 0 {
                            law_pieces(*v, start, end);
                            assert(lanes[0] == LaneTrack {
                                ahead: None,
                                track: track(*v, start, end),
                            });
                        } else {
                            assert(lanes[i] == others[i - 1]);
                            assert(goal[i] == all_pieces(fields, start, end)[i - 1]);
                        }
                    },
                    None => {
                        assert(lanes[i] == others[i]);
                    },
                }
            }
            assert(lanes_chunks(lanes) =~= goal);
        },
        Layout::ScalarFn { children, .. } => {
            let lanes = tracks(children, start, end);
            assert forall|i: int| 0 <= i < lanes.len() implies lanes_chunks(lanes)[i]
                == all_pieces(children, start, end)[i] by {
                law_pieces(children[i], start, end);
                assert(lane_chunks(lanes[i]) == chunks_of(lanes[i].track));
            }
            assert(lanes_chunks(lanes) =~= all_pieces(children, start, end));
        },
        Layout::Dict { codes, .. } => law_pieces(*codes, start, end),
        Layout::Zoned { data, .. } => law_pieces(*data, start, end),
    }
}

/// The pieces of a range that is still to be opened are what stands on it.
proof fn lemma_unopened(l: Layout, start: nat, end: nat)
    ensures
        range_pieces(l, start, end) == range_chunks(unopened(l, start, end)),
    decreases l, 1nat,
{
    law_pieces(l, start, end);
    lemma_range_pieces(l, start, end);
}

/// The pieces of layouts one after the other are what stands on the ranges that are to be opened.
proof fn lemma_overlapping(chunks: Seq<Layout>, start: nat, end: nat)
    ensures
        overlaps(chunks, start, end) == pending_chunks(overlapping(chunks, start, end)),
    decreases chunks, 0nat,
{
    if chunks.len() > 0 && start < end {
        let count = row_count(chunks[0]) as nat;
        let rest = chunks.subrange(1, chunks.len() as int);
        if start >= count {
            lemma_overlapping(rest, (start - count) as nat, (end - count) as nat);
        } else {
            let last = if end <= count {
                end
            } else {
                count
            };
            lemma_unopened(chunks[0], start, last);
            let all = overlapping(chunks, start, end);
            let others = all.subrange(1, all.len() as int);
            assert(all[0] == unopened(chunks[0], start, last));
            if end <= count {
                assert(others =~= Seq::<Pending>::empty());
                assert(range_chunks(all[0]) + pending_chunks(others) =~= range_chunks(all[0]));
            } else {
                lemma_overlapping(rest, 0, (end - count) as nat);
                assert(others =~= overlapping(rest, 0, (end - count) as nat));
            }
        }
    }
}

/// A stream of a range has the rows of the range to read, in chunks that are not empty, as many on
/// tracks side by side.
pub proof fn law_track(l: Layout, start: nat, end: nat)
    requires
        counted(l),
        start <= end <= row_count(l),
    ensures
        solid(track(l, start, end)),
        even(track(l, start, end)),
        rows_left(track(l, start, end)) == end - start,
    decreases l, 0nat,
{
    let t = track(l, start, end);
    match l {
        Layout::Flat { .. } => {
            if start < end {
                let chunks = t->chunks;
                lemma_flat_one(chunks[0]);
                assert(chunks =~= seq![chunks[0]]);
            }
        },
        Layout::Constant { scalar, expression, .. } => {
            if start < end {
                lemma_repeated(
                    finished(expression, Row::Constant(scalar)),
                    (end - start) as nat,
                    0,
                );
            }
        },
        Layout::Chunked { chunks, .. } => lemma_track_overlapping(chunks, start, end),
        Layout::Struct { validity, fields, .. } => {
            let lanes = t->lanes;
            let others = tracks(fields, start, end);
            assert forall|i: int| 0 <= i < fields.len() implies {
                &&& solid((#[trigger] others[i]).track)
                &&& even(others[i].track)
                &&& rows_left(others[i].track) == end - start
            } by {
                law_track(fields[i], start, end);
            }
            assert forall|i: int| 0 <= i < lanes.len() implies {
                &&& lane_solid(#[trigger] lanes[i])
                &&& even(lanes[i].track)
                &&& lane_left(lanes[i]) == end - start
            } by {
                match validity {
                    Some(v) => {
                        if i == 0 {
                            law_track(*v, start, end);
                        } else {
                            assert(lanes[i] == others[i - 1]);
                        }
                    },
                    None => {
                        assert(lanes[i] == others[i]);
                    },
                }
            }
            lemma_side(lanes, (end - start) as nat);
        },
        Layout::ScalarFn { children, .. } => {
            let lanes = tracks(children, start, end);
            assert forall|i: int| 0 <= i < lanes.len() implies {
                &&& lane_solid(#[trigger] lanes[i])
                &&& even(lanes[i].track)
                &&& lane_left(lanes[i]) == end - start
            } by {
                law_track(children[i], start, end);
            }
            lemma_side(lanes, (end - start) as nat);
        },
        Layout::Dict { codes, .. } => law_track(*codes, start, end),
        Layout::Zoned { data, .. } => law_track(*data, start, end),
    }
}

/// Tracks side by side that have as many rows each.
proof fn lemma_side(lanes: Seq<LaneTrack>, n: nat)
    requires
        lanes.len() > 0,
        forall|i: int|
            0 <= i < lanes.len() ==> {
                &&& lane_solid(#[trigger] lanes[i])
                &&& even(lanes[i].track)
                &&& lane_left(lanes[i]) == n
            },
    ensures
        lanes_solid(lanes),
        lanes_even(lanes),
        least(lanes_left(lanes)) == n,
{
    lemma_least(lanes_left(lanes));
    let j = choose|j: int|
        0 <= j < lanes_left(lanes).len() && least(lanes_left(lanes)) == #[trigger] lanes_left(
            lanes,
        )[j];
    assert(lanes_left(lanes)[j] == lane_left(lanes[j]));
}

/// A range that is still to be opened has its rows to read.
pub proof fn lemma_unopened_left(l: Layout, start: nat, end: nat)
    requires
        counted(l),
        start < end <= row_count(l),
    ensures
        range_solid(unopened(l, start, end)),
        range_even(unopened(l, start, end)),
        range_left(unopened(l, start, end)) == end - start,
    decreases l, 1nat,
{
    law_track(l, start, end);
    assert(unopened(l, start, end) == match open_error(l, start as u64, end as u64) {
        Some(error) => Pending::Fails { error, rows: (end - start) as nat },
        None => Pending::Opens(track(l, start, end)),
    });
}

/// The ranges of layouts one after the other have the rows of the range to read.
proof fn lemma_track_overlapping(chunks: Seq<Layout>, start: nat, end: nat)
    requires
        forall|i: int| 0 <= i < chunks.len() ==> counted(#[trigger] chunks[i]),
        start <= end <= total_rows(chunks),
    ensures
        pending_solid(overlapping(chunks, start, end)),
        pending_even(overlapping(chunks, start, end)),
        pending_left(overlapping(chunks, start, end)) == end - start,
    decreases chunks, 0nat,
{
    if chunks.len() > 0 && start < end {
        let count = row_count(chunks[0]) as nat;
        let rest = chunks.subrange(1, chunks.len() as int);
        if start >= count {
            lemma_track_overlapping(rest, (start - count) as nat, (end - count) as nat);
        } else {
            let last = if end <= count {
                end
            } else {
                count
            };
            lemma_unopened_left(chunks[0], start, last);
            let all = overlapping(chunks, start, end);
            let others = all.subrange(1, all.len() as int);
            assert(all[0] == unopened(chunks[0], start, last));
            if end <= count {
                assert(others =~= Seq::<Pending>::empty());
                assert(pending_left(others) == 0);
            } else {
                lemma_track_overlapping(rest, 0, (end - count) as nat);
                assert(others =~= overlapping(rest, 0, (end - count) as nat));
                assert forall|i: int| 0 <= i < all.len() implies {
                    &&& range_solid(#[trigger] all[i])
                    &&& range_even(all[i])
                } by {
                    if i > 0 {
                        assert(all[i] == others[i - 1]);
                    }
                }
            }
            assert(pending_left(all) == range_left(all[0]) + pending_left(others));
        }
    }
}

/// Reading a dictionary's values gives what its pieces hold, or the error of the first row of them
/// that cannot be read.
proof fn lemma_values(values: Layout)
    requires
        counted(values),
    ensures
        ({
            let all = pieces(values, 0, row_count(values) as nat);
            match drained(track(values, 0, row_count(values) as nat)) {
                Ok(chunks) => {
                    &&& flat(all) == clean(values_of(values))
                    &&& chunks.len() == all.len()
                },
                Err(error) => first_failure(flat(all)) == Some(error),
            }
        }),
{
    let count = row_count(values) as nat;
    law_pieces(values, 0, count);
    law_track(values, 0, count);
    law_drained(track(values, 0, count));
}

/// A layout has as many rows as it says.
pub proof fn law_row_count(l: Layout)
    requires
        counted(l),
    ensures
        rows(l).len() == row_count(l),
    decreases l, 0nat,
{
    match l {
        Layout::Chunked { chunks, .. } => lemma_total_rows(chunks),
        Layout::Dict { codes, .. } => law_row_count(*codes),
        Layout::Zoned { data, .. } => law_row_count(*data),
        _ => {},
    }
}

/// Layouts one after the other have as many rows as they say together.
proof fn lemma_total_rows(chunks: Seq<Layout>)
    requires
        forall|i: int| 0 <= i < chunks.len() ==> counted(#[trigger] chunks[i]),
    ensures
        flat(all_rows(chunks)).len() == total_rows(chunks),
    decreases chunks, 0nat,
{
    if chunks.len() > 0 {
        let rest = chunks.subrange(1, chunks.len() as int);
        law_row_count(chunks[0]);
        lemma_total_rows(rest);
        assert(all_rows(chunks).drop_first() =~= all_rows(rest));
    }
}

/// A range delivers as many rows as it has, those that cannot be read among them.
pub proof fn law_length(l: Layout, start: nat, end: nat)
    requires
        counted(l),
        start <= end <= row_count(l),
    ensures
        flat(pieces(l, start, end)).len() == end - start,
    decreases l, 1nat,
{
    let all = pieces(l, start, end);
    match l {
        Layout::Flat { .. } => {
            if start < end {
                lemma_flat_one(all[0]);
                assert(all =~= seq![all[0]]);
            }
        },
        Layout::Constant { scalar, expression, .. } => {
            if start < end {
                lemma_repeated(
                    Ok::<Row, SpecError>(finished(expression, Row::Constant(scalar))),
                    (end - start) as nat,
                    0,
                );
            }
        },
        Layout::Chunked { chunks, .. } => lemma_overlaps_length(chunks, start, end),
        Layout::Struct { dtype, validity, fields, .. } => {
            let layouts = parts(validity, fields);
            lemma_parts(validity, fields, start, end);
            lemma_part_layouts(l);
            lemma_lanes_length(l, layouts, start, end);
            lemma_aligned_flat(
                all_pieces(layouts, start, end),
                lifted(struct_join(dtype, validity is Some), struct_fault(dtype)),
                (end - start) as nat,
            );
        },
        Layout::ScalarFn { function, children, .. } => {
            assert forall|i: int| 0 <= i < children.len() implies decreases_to!(
                l => #[trigger] children[i]
            ) by {}
            lemma_lanes_length(l, children, start, end);
            lemma_aligned_flat(
                all_pieces(children, start, end),
                lifted(call_join(function), None),
                (end - start) as nat,
            );
        },
        Layout::Dict { values, codes, expression, .. } => {
            law_length(*codes, start, end);
            let dictionary = values_of(*values);
            lemma_mapped(
                pieces(*codes, start, end),
                changed(decode(dictionary, expression)),
                0,
            );
        },
        Layout::Zoned { data, .. } => law_length(*data, start, end),
    }
}

/// What is read of a range has as many rows as the range.
pub proof fn lemma_range_length(l: Layout, start: nat, end: nat)
    requires
        counted(l),
        start <= end <= row_count(l),
    ensures
        flat(range_pieces(l, start, end)).len() == end - start,
    decreases l, 2nat,
{
    lemma_range_pieces(l, start, end);
    match open_error(l, start as u64, end as u64) {
        Some(error) => lemma_unread(error, (end - start) as nat, 0),
        None => law_length(l, start, end),
    }
}

/// The parts of a struct are layouts of as many rows.
proof fn lemma_part_layouts(l: Layout)
    requires
        counted(l),
        l is Struct,
    ensures
        ({
            let layouts = parts(l->validity, l->fields);
            &&& layouts.len() > 0
            &&& forall|i: int|
                0 <= i < layouts.len() ==> {
                    &&& counted(#[trigger] layouts[i])
                    &&& row_count(layouts[i]) == row_count(l)
                    &&& decreases_to!(l => layouts[i])
                }
        }),
{
    let (validity, fields) = (l->validity, l->fields);
    let layouts = parts(validity, fields);
    assert forall|i: int| 0 <= i < layouts.len() implies {
        &&& counted(#[trigger] layouts[i])
        &&& row_count(layouts[i]) == row_count(l)
        &&& decreases_to!(l => layouts[i])
    } by {
        match validity {
            Some(v) => {
                if i == 0 {
                    assert(layouts[0] == *v);
                } else {
                    assert(layouts[i] == fields[i - 1]);
                }
            },
            None => {
                assert(layouts[i] == fields[i]);
            },
        }
    }
}

/// Layouts side by side deliver as many rows each as the range has.
proof fn lemma_lanes_length(whole: Layout, layouts: Seq<Layout>, start: nat, end: nat)
    requires
        start <= end <= row_count(whole),
        forall|i: int|
            0 <= i < layouts.len() ==> {
                &&& counted(#[trigger] layouts[i])
                &&& row_count(layouts[i]) == row_count(whole)
                &&& decreases_to!(whole => layouts[i])
            },
    ensures
        all_full(all_pieces(layouts, start, end)),
        forall|j: int|
            0 <= j < layouts.len() ==> flat(
                #[trigger] all_pieces(layouts, start, end)[j],
            ).len() == end - start,
    decreases whole, 0nat,
{
    let lanes = all_pieces(layouts, start, end);
    assert forall|j: int| 0 <= j < lanes.len() implies {
        &&& flat(#[trigger] lanes[j]).len() == end - start
        &&& full(lanes[j])
    } by {
        assert(decreases_to!(whole => layouts[j]));
        law_length(layouts[j], start, end);
        lemma_pieces_full(layouts[j], start, end);
    }
}

/// Layouts one after the other deliver as many rows as the range has.
proof fn lemma_overlaps_length(chunks: Seq<Layout>, start: nat, end: nat)
    requires
        forall|i: int| 0 <= i < chunks.len() ==> counted(#[trigger] chunks[i]),
        start <= end <= total_rows(chunks),
    ensures
        flat(overlaps(chunks, start, end)).len() == end - start,
    decreases chunks, 0nat,
{
    if chunks.len() > 0 && start < end {
        let count = row_count(chunks[0]) as nat;
        let rest = chunks.subrange(1, chunks.len() as int);
        if start >= count {
            lemma_overlaps_length(rest, (start - count) as nat, (end - count) as nat);
        } else if end <= count {
            lemma_range_length(chunks[0], start, end);
        } else {
            lemma_range_length(chunks[0], start, count);
            lemma_overlaps_length(rest, 0, (end - count) as nat);
            lemma_flat_concat(
                range_pieces(chunks[0], start, count),
                overlaps(rest, 0, (end - count) as nat),
            );
        }
    }
}

/// The rows of a range that can be read are the layout's rows at their positions.
pub proof fn law_cells(l: Layout, start: u64, end: u64)
    requires
        counted(l),
        start <= end <= row_count(l),
        open_error(l, start, end) is None,
    ensures
        agrees(
            flat(pieces(l, start as nat, end as nat)),
            rows(l).subrange(start as int, end as int),
        ),
    decreases l, 1nat,
{
    let (from, to) = (start as nat, end as nat);
    let all = pieces(l, from, to);
    let goal = rows(l).subrange(start as int, end as int);
    law_row_count(l);
    law_length(l, from, to);
    match l {
        Layout::Flat { .. } => {
            if start < end {
                lemma_flat_one(all[0]);
                assert(all =~= seq![all[0]]);
            }
        },
        Layout::Constant { scalar, expression, .. } => {
            if start < end {
                lemma_repeated(
                    Ok::<Row, SpecError>(finished(expression, Row::Constant(scalar))),
                    (end - start) as nat,
                    0,
                );
            }
        },
        Layout::Chunked { chunks, .. } => lemma_overlaps(chunks, from, to),
        Layout::Struct { dtype, validity, fields, .. } => {
            let layouts = parts(validity, fields);
            lemma_parts(validity, fields, from, to);
            lemma_part_layouts(l);
            assert forall|i: int| 0 <= i < layouts.len() implies open_error(
                #[trigger] layouts[i],
                start,
                end,
            ) is None by {
                match validity {
                    Some(v) => {
                        if i == 0 {
                            assert(layouts[0] == *v);
                        } else {
                            assert(layouts[i] == fields[i - 1]);
                            lemma_first_error(fields, start, end, i - 1);
                        }
                    },
                    None => {
                        assert(layouts[i] == fields[i]);
                        lemma_first_error(fields, start, end, i);
                    },
                }
            }
            let join = lifted(struct_join(dtype, validity is Some), struct_fault(dtype));
            lemma_lanes_length(l, layouts, from, to);
            lemma_aligned_flat(all_pieces(layouts, from, to), join, (to - from) as nat);
            assert forall|i: int| 0 <= i < flat(all).len() implies ((
            #[trigger] flat(all)[i]) matches Ok(row) ==> row == goal[i]) by {
                lemma_side_by_side(l, layouts, start, end, i);
            }
        },
        Layout::ScalarFn { function, children, .. } => {
            assert forall|i: int| 0 <= i < children.len() implies {
                &&& open_error(#[trigger] children[i], start, end) is None
                &&& decreases_to!(l => children[i])
            } by {
                lemma_first_error(children, start, end, i);
            }
            let join = lifted(call_join(function), None);
            lemma_lanes_length(l, children, from, to);
            lemma_aligned_flat(all_pieces(children, from, to), join, (to - from) as nat);
            assert forall|i: int| 0 <= i < flat(all).len() implies ((
            #[trigger] flat(all)[i]) matches Ok(row) ==> row == goal[i]) by {
                lemma_side_by_side(l, children, start, end, i);
            }
        },
        Layout::Dict { values, codes, expression, .. } => {
            law_cells(*codes, start, end);
            law_row_count(*codes);
            let count = row_count(*values);
            let dictionary = flat(pieces(*values, 0, count as nat));
            law_cells(*values, 0, count);
            law_length(*values, 0, count as nat);
            law_row_count(*values);
            lemma_values(*values);
            lemma_clean(values_of(*values));
            assert(rows(*values).subrange(0, rows(*values).len() as int) =~= rows(*values));
            assert forall|i: int| 0 <= i < rows(*values).len() implies values_of(*values)[i]
                == rows(*values)[i] by {
                assert(dictionary[i] is Ok);
            }
            assert(values_of(*values) =~= rows(*values));
            lemma_mapped(pieces(*codes, from, to), changed(decode(rows(*values), expression)), 0);
            assert forall|i: int| 0 <= i < flat(all).len() implies ((
            #[trigger] flat(all)[i]) matches Ok(row) ==> row == goal[i]) by {
                assert(flat(pieces(*codes, from, to))[i] is Ok
                    || flat(pieces(*codes, from, to))[i] is Err);
            }
        },
        Layout::Zoned { data, .. } => law_cells(*data, start, end),
    }
}

/// Layouts that can be opened together can be opened each.
proof fn lemma_first_error(layouts: Seq<Layout>, start: u64, end: u64, i: int)
    requires
        first_error(layouts, start, end) is None,
        0 <= i < layouts.len(),
    ensures
        open_error(layouts[i], start, end) is None,
    decreases layouts.len(),
{
    if i < layouts.len() - 1 {
        lemma_first_error(layouts.drop_last(), start, end, i);
    }
}

/// Every row of a range of a well-formed layout can be read.
pub proof fn law_whole(l: Layout, start: nat, end: nat)
    requires
        well_formed(l),
        start <= end <= row_count(l),
    ensures
        all_ok(flat(pieces(l, start, end))),
    decreases l, 1nat,
{
    let all = pieces(l, start, end);
    match l {
        Layout::Flat { .. } => {
            if start < end {
                lemma_flat_one(all[0]);
                assert(all =~= seq![all[0]]);
            }
        },
        Layout::Constant { scalar, expression, .. } => {
            if start < end {
                lemma_repeated(
                    Ok::<Row, SpecError>(finished(expression, Row::Constant(scalar))),
                    (end - start) as nat,
                    0,
                );
            }
        },
        Layout::Chunked { chunks, .. } => lemma_overlaps_whole(chunks, start, end),
        Layout::Struct { dtype, validity, fields, .. } => {
            let layouts = parts(validity, fields);
            lemma_parts(validity, fields, start, end);
            lemma_counted(l);
            lemma_part_layouts(l);
            lemma_lanes_length(l, layouts, start, end);
            let lanes = all_pieces(layouts, start, end);
            lemma_aligned_flat(lanes, lifted(struct_join(dtype, validity is Some), struct_fault(dtype)), (end - start) as nat);
            assert forall|i: int| 0 <= i < layouts.len() implies well_formed(
                #[trigger] layouts[i],
            ) by {
                match validity {
                    Some(v) => {
                        if i == 0 {
                            assert(layouts[0] == *v);
                        } else {
                            assert(layouts[i] == fields[i - 1]);
                        }
                    },
                    None => {
                        assert(layouts[i] == fields[i]);
                    },
                }
            }
            assert forall|i: int| 0 <= i < end - start implies (#[trigger] flat(all)[i]) is Ok by {
                lemma_whole_across(l, layouts, start, end, i);
            }
        },
        Layout::ScalarFn { function, children, .. } => {
            assert forall|i: int| 0 <= i < children.len() implies {
                &&& counted(#[trigger] children[i])
                &&& decreases_to!(l => children[i])
            } by {
                lemma_counted(children[i]);
            }
            lemma_lanes_length(l, children, start, end);
            let lanes = all_pieces(children, start, end);
            lemma_aligned_flat(lanes, lifted(call_join(function), None), (end - start) as nat);
            assert forall|i: int| 0 <= i < end - start implies (#[trigger] flat(all)[i]) is Ok by {
                lemma_whole_across(l, children, start, end, i);
            }
        },
        Layout::Dict { values, codes, expression, .. } => {
            law_whole(*codes, start, end);
            let dictionary = values_of(*values);
            lemma_mapped(
                pieces(*codes, start, end),
                changed(decode(dictionary, expression)),
                0,
            );
            assert forall|i: int| 0 <= i < flat(all).len() implies (
            #[trigger] flat(all)[i]) is Ok by {
                assert(flat(pieces(*codes, start, end))[i] is Ok);
            }
        },
        Layout::Zoned { data, .. } => law_whole(*data, start, end),
    }
}

/// The rows at a position of well-formed layouts side by side can all be read.
proof fn lemma_whole_across(
    whole: Layout,
    layouts: Seq<Layout>,
    start: nat,
    end: nat,
    i: int,
)
    requires
        start <= end <= row_count(whole),
        0 <= i < end - start,
        forall|j: int|
            0 <= j < layouts.len() ==> {
                &&& well_formed(#[trigger] layouts[j])
                &&& counted(layouts[j])
                &&& row_count(layouts[j]) == row_count(whole)
                &&& decreases_to!(whole => layouts[j])
            },
    ensures
        first_failure(row_across(all_pieces(layouts, start, end), i)) is None,
    decreases whole, 0nat,
{
    let lanes = all_pieces(layouts, start, end);
    let row = row_across(lanes, i);
    assert forall|j: int| 0 <= j < row.len() implies (#[trigger] row[j]) is Ok by {
        assert(decreases_to!(whole => layouts[j]));
        law_whole(layouts[j], start, end);
        law_length(layouts[j], start, end);
        assert(flat(lanes[j])[i] is Ok);
    }
    lemma_first_failure(row);
}

/// Every row of a range of well-formed layouts one after the other can be read.
proof fn lemma_overlaps_whole(chunks: Seq<Layout>, start: nat, end: nat)
    requires
        forall|i: int|
            0 <= i < chunks.len() ==> {
                &&& well_formed(#[trigger] chunks[i])
                &&& row_count(chunks[i]) > 0 ==> openable(chunks[i])
            },
        start <= end <= total_rows(chunks),
    ensures
        all_ok(flat(overlaps(chunks, start, end))),
    decreases chunks, 0nat,
{
    if chunks.len() > 0 && start < end {
        let count = row_count(chunks[0]) as nat;
        let rest = chunks.subrange(1, chunks.len() as int);
        if start >= count {
            lemma_overlaps_whole(rest, (start - count) as nat, (end - count) as nat);
        } else if end <= count {
            law_whole(chunks[0], start, end);
            law_openable(chunks[0], start as u64, end as u64);
            lemma_range_pieces(chunks[0], start, end);
        } else {
            law_whole(chunks[0], start, count);
            law_openable(chunks[0], start as u64, count as u64);
            lemma_range_pieces(chunks[0], start, count);
            lemma_overlaps_whole(rest, 0, (end - count) as nat);
            let a = flat(range_pieces(chunks[0], start, count));
            let b = flat(overlaps(rest, 0, (end - count) as nat));
            lemma_flat_concat(
                range_pieces(chunks[0], start, count),
                overlaps(rest, 0, (end - count) as nat),
            );
            assert forall|i: int| 0 <= i < (a + b).len() implies (#[trigger] (a + b)[i]) is Ok by {
                if i < a.len() {
                    assert(a[i] is Ok);
                } else {
                    assert(b[i - a.len()] is Ok);
                }
            }
        }
    }
}

/// The pieces of a range that can be opened are, in order, the rows of the range.
pub proof fn law_range(l: Layout, start: u64, end: u64)
    requires
        well_formed(l),
        start <= end <= row_count(l),
        open_error(l, start, end) is None,
    ensures
        flat(pieces(l, start as nat, end as nat)) == clean(
            rows(l).subrange(start as int, end as int),
        ),
        full(pieces(l, start as nat, end as nat)),
{
    lemma_counted(l);
    law_whole(l, start as nat, end as nat);
    law_cells(l, start, end);
    lemma_agrees(
        flat(pieces(l, start as nat, end as nat)),
        rows(l).subrange(start as int, end as int),
    );
    lemma_pieces_full(l, start as nat, end as nat);
}

/// The rows at a position of layouts side by side that can all be read are the layouts' rows.
proof fn lemma_side_by_side(
    whole: Layout,
    layouts: Seq<Layout>,
    start: u64,
    end: u64,
    i: int,
)
    requires
        start <= end <= row_count(whole),
        0 <= i < end - start,
        forall|j: int|
            0 <= j < layouts.len() ==> {
                &&& counted(#[trigger] layouts[j])
                &&& row_count(layouts[j]) == row_count(whole)
                &&& open_error(layouts[j], start, end) is None
                &&& decreases_to!(whole => layouts[j])
            },
    ensures
        ({
            let row = row_across(all_pieces(layouts, start as nat, end as nat), i);
            first_failure(row) is None ==> rows_of(row) == at(all_rows(layouts), start + i)
        }),
    decreases whole, 0nat,
{
    let lanes = all_pieces(layouts, start as nat, end as nat);
    let row = row_across(lanes, i);
    if first_failure(row) is None {
        lemma_first_failure(row);
        assert forall|j: int| 0 <= j < row.len() implies rows_of(row)[j] == at(
            all_rows(layouts),
            start + i,
        )[j] by {
            assert(decreases_to!(whole => layouts[j]));
            law_cells(layouts[j], start, end);
            law_row_count(layouts[j]);
            assert(row[j] is Ok);
            assert(flat(lanes[j])[i] == row[j]);
        }
        assert(rows_of(row) =~= at(all_rows(layouts), start + i));
    }
}

/// The rows of a range over layouts one after the other that can be read are the layouts' rows.
proof fn lemma_overlaps(chunks: Seq<Layout>, start: nat, end: nat)
    requires
        forall|i: int| 0 <= i < chunks.len() ==> counted(#[trigger] chunks[i]),
        start <= end <= total_rows(chunks),
    ensures
        agrees(
            flat(overlaps(chunks, start, end)),
            flat(all_rows(chunks)).subrange(start as int, end as int),
        ),
    decreases chunks, 0nat,
{
    let all = flat(overlaps(chunks, start, end));
    let goal = flat(all_rows(chunks)).subrange(start as int, end as int);
    lemma_total_rows(chunks);
    lemma_overlaps_length(chunks, start, end);
    if chunks.len() > 0 && start < end {
        let count = row_count(chunks[0]) as nat;
        let rest = chunks.subrange(1, chunks.len() as int);
        assert(all_rows(chunks).drop_first() =~= all_rows(rest));
        law_row_count(chunks[0]);
        lemma_total_rows(rest);
        if start >= count {
            lemma_overlaps(rest, (start - count) as nat, (end - count) as nat);
            assert(goal =~= flat(all_rows(rest)).subrange(start - count, end - count));
        } else {
            let last = if end <= count {
                end
            } else {
                count
            };
            let own = flat(range_pieces(chunks[0], start, last));
            lemma_range_pieces(chunks[0], start, last);
            lemma_range_length(chunks[0], start, last);
            match open_error(chunks[0], start as u64, last as u64) {
                Some(error) => lemma_unread(error, (last - start) as nat, 0),
                None => law_cells(chunks[0], start as u64, last as u64),
            }
            assert(agrees(own, rows(chunks[0]).subrange(start as int, last as int)));
            if end > count {
                let others = flat(overlaps(rest, 0, (end - count) as nat));
                lemma_overlaps(rest, 0, (end - count) as nat);
                lemma_flat_concat(
                    range_pieces(chunks[0], start, count),
                    overlaps(rest, 0, (end - count) as nat),
                );
                assert(all =~= own + others);
                assert forall|i: int| 0 <= i < all.len() implies ((
                #[trigger] all[i]) matches Ok(row) ==> row == goal[i]) by {
                    if i < own.len() {
                        assert(own[i] == all[i]);
                    } else {
                        assert(others[i - own.len()] == all[i]);
                    }
                }
            } else {
                assert forall|i: int| 0 <= i < all.len() implies ((
                #[trigger] all[i]) matches Ok(row) ==> row == goal[i]) by {
                    assert(own[i] == all[i]);
                }
            }
        }
    }
}

/// A range of a well-formed layout whose dictionaries have values can be opened.
pub proof fn law_openable(l: Layout, start: u64, end: u64)
    requires
        well_formed(l),
        openable(l),
        start <= end <= row_count(l),
    ensures
        open_error(l, start, end) is None,
    decreases l, 0nat,
{
    match l {
        Layout::Struct { validity, fields, .. } => {
            match validity {
                Some(v) => law_openable(*v, start, end),
                None => {},
            }
            lemma_first_openable(fields, row_count(l), start, end);
        },
        Layout::ScalarFn { children, .. } => lemma_first_openable(
            children,
            row_count(l),
            start,
            end,
        ),
        Layout::Dict { values, codes, .. } => {
            let count = row_count(*values);
            law_openable(*values, 0, count);
            law_openable(*codes, start, end);
            law_whole(*values, 0, count as nat);
            lemma_first_failure(flat(pieces(*values, 0, count as nat)));
            lemma_counted(*values);
            law_length(*values, 0, count as nat);
            lemma_values(*values);
            assert(flat(pieces(*values, 0, count as nat)).len() == count);
            assert(pieces(*values, 0, count as nat).len() > 0);
        },
        Layout::Zoned { data, .. } => law_openable(*data, start, end),
        _ => {},
    }
}

proof fn lemma_first_openable(layouts: Seq<Layout>, count: u64, start: u64, end: u64)
    requires
        forall|i: int|
            0 <= i < layouts.len() ==> {
                &&& well_formed(#[trigger] layouts[i])
                &&& openable(layouts[i])
                &&& row_count(layouts[i]) == count
            },
        start <= end <= count,
    ensures
        first_error(layouts, start, end) is None,
    decreases layouts, 0nat,
{
    if layouts.len() > 0 {
        lemma_first_openable(layouts.drop_last(), count, start, end);
        law_openable(layouts.last(), start, end);
    }
}

/// Ranges that meet give the rows of the range they make up.
pub proof fn law_partition(l: Layout, start: u64, middle: u64, end: u64)
    requires
        well_formed(l),
        openable(l),
        start <= middle <= end <= row_count(l),
    ensures
        flat(pieces(l, start as nat, middle as nat)) + flat(pieces(l, middle as nat, end as nat))
            == flat(pieces(l, start as nat, end as nat)),
{
    lemma_counted(l);
    law_row_count(l);
    law_openable(l, start, middle);
    law_openable(l, middle, end);
    law_openable(l, start, end);
    law_range(l, start, middle);
    law_range(l, middle, end);
    law_range(l, start, end);
    assert(flat(pieces(l, start as nat, middle as nat)) + flat(pieces(l, middle as nat, end as nat))
        =~= flat(pieces(l, start as nat, end as nat)));
}

/// Skipping rows of a range leaves what the range without them delivers, piece by piece: the errors
/// of the rows that are skipped are left out with them. A range can be opened without them as with
/// them.
pub proof fn law_skip(l: Layout, start: u64, end: u64, n: u64)
    requires
        counted(l),
        start + n <= end <= row_count(l),
    ensures
        pieces(l, (start + n) as nat, end as nat) == dropped(
            pieces(l, start as nat, end as nat),
            n as nat,
        ),
        open_error(l, (start + n) as u64, end) == open_error(l, start, end),
    decreases l, 1nat,
{
    let (from, to, k) = (start as nat, end as nat, n as nat);
    let later = (start + n) as u64;
    let all = pieces(l, from, to);
    match l {
        Layout::Flat { .. } => {
            if from < to {
                assert(all =~= seq![all[0]]);
                reveal_with_fuel(dropped, 2);
                assert(all.drop_first() =~= Seq::<Seq<Cell>>::empty());
                if 0 < k < to - from {
                    let rest = pieces(l, from + k, to);
                    assert(rest[0] =~= all[0].skip(k as int));
                    assert(rest =~= seq![all[0].skip(k as int)]);
                    assert(dropped(all, k) =~= rest);
                }
            }
        },
        Layout::Constant { scalar, expression, .. } => {
            if from < to {
                lemma_repeated(
                    Ok::<Row, SpecError>(finished(expression, Row::Constant(scalar))),
                    (to - from) as nat,
                    k,
                );
            }
        },
        Layout::Chunked { chunks, .. } => lemma_overlaps_skip(chunks, from, to, k),
        Layout::Struct { dtype, validity, fields, .. } => {
            let layouts = parts(validity, fields);
            lemma_parts(validity, fields, from, to);
            lemma_parts(validity, fields, from + k, to);
            lemma_part_layouts(l);
            lemma_lanes_length(l, layouts, from, to);
            lemma_lanes_skip(l, layouts, start, end, n);
            lemma_aligned_dropped(
                all_pieces(layouts, from, to),
                lifted(struct_join(dtype, validity is Some), struct_fault(dtype)),
                k,
            );
            match validity {
                Some(v) => law_skip(*v, start, end, n),
                None => {},
            }
            lemma_first_error_skip(fields, row_count(l), start, end, n);
        },
        Layout::ScalarFn { function, children, .. } => {
            assert forall|i: int| 0 <= i < children.len() implies decreases_to!(
                l => #[trigger] children[i]
            ) by {}
            lemma_lanes_length(l, children, from, to);
            lemma_lanes_skip(l, children, start, end, n);
            lemma_aligned_dropped(all_pieces(children, from, to), lifted(call_join(function), None), k);
            lemma_first_error_skip(children, row_count(l), start, end, n);
        },
        Layout::Dict { values, codes, expression, .. } => {
            law_skip(*codes, start, end, n);
            let dictionary = values_of(*values);
            lemma_mapped(pieces(*codes, from, to), changed(decode(dictionary, expression)), k);
        },
        Layout::Zoned { data, .. } => law_skip(*data, start, end, n),
    }
}

/// Skipping rows of a stream of a range leaves what a stream of the range without them is to read.
pub proof fn law_skip_reads(l: Layout, start: u64, end: u64, n: u64)
    requires
        counted(l),
        start + n <= end <= row_count(l),
    ensures
        chunks_of(skipped(track(l, start as nat, end as nat), n as nat)) == chunks_of(
            track(l, (start + n) as nat, end as nat),
        ),
{
    law_skip(l, start, end, n);
    law_pieces(l, start as nat, end as nat);
    law_pieces(l, (start + n) as nat, end as nat);
    law_track(l, start as nat, end as nat);
    law_skipped(track(l, start as nat, end as nat), n as nat);
}

/// Skipping rows of a range of layouts side by side skips them in each.
proof fn lemma_lanes_skip(whole: Layout, layouts: Seq<Layout>, start: u64, end: u64, n: u64)
    requires
        start + n <= end <= row_count(whole),
        forall|i: int|
            0 <= i < layouts.len() ==> {
                &&& counted(#[trigger] layouts[i])
                &&& row_count(layouts[i]) == row_count(whole)
                &&& decreases_to!(whole => layouts[i])
            },
    ensures
        all_pieces(layouts, (start + n) as nat, end as nat) == all_dropped(
            all_pieces(layouts, start as nat, end as nat),
            n as nat,
        ),
        all_hold(all_pieces(layouts, start as nat, end as nat), n as nat),
    decreases whole, 0nat,
{
    let lanes = all_pieces(layouts, start as nat, end as nat);
    let rest = all_pieces(layouts, (start + n) as nat, end as nat);
    assert forall|j: int| 0 <= j < layouts.len() implies {
        &&& rest[j] == all_dropped(lanes, n as nat)[j]
        &&& flat(#[trigger] lanes[j]).len() >= n
    } by {
        assert(decreases_to!(whole => layouts[j]));
        law_skip(layouts[j], start, end, n);
        law_length(layouts[j], start as nat, end as nat);
    }
    assert(rest =~= all_dropped(lanes, n as nat));
}

proof fn lemma_first_error_skip(layouts: Seq<Layout>, count: u64, start: u64, end: u64, n: u64)
    requires
        forall|i: int|
            0 <= i < layouts.len() ==> {
                &&& counted(#[trigger] layouts[i])
                &&& row_count(layouts[i]) == count
            },
        start + n <= end <= count,
    ensures
        first_error(layouts, (start + n) as u64, end) == first_error(layouts, start, end),
    decreases layouts, 0nat,
{
    if layouts.len() > 0 {
        lemma_first_error_skip(layouts.drop_last(), count, start, end, n);
        law_skip(layouts.last(), start, end, n);
    }
}

/// Skipping rows of what is read of a range leaves what is read without them.
pub proof fn lemma_range_skip(l: Layout, start: u64, end: u64, n: u64)
    requires
        counted(l),
        start + n <= end <= row_count(l),
    ensures
        range_pieces(l, (start + n) as nat, end as nat) == dropped(
            range_pieces(l, start as nat, end as nat),
            n as nat,
        ),
    decreases l, 2nat,
{
    law_skip(l, start, end, n);
    lemma_range_pieces(l, start as nat, end as nat);
    lemma_range_pieces(l, (start + n) as nat, end as nat);
    match open_error(l, start, end) {
        Some(error) => lemma_unread(error, (end - start) as nat, n as nat),
        None => {},
    }
}

/// Nothing is left of a list all of whose rows are dropped.
proof fn lemma_all_gone(chunks: Seq<Seq<Cell>>)
    requires
        full(chunks),
    ensures
        dropped(chunks, flat(chunks).len()) == Seq::<Seq<Cell>>::empty(),
{
    let rest = dropped(chunks, flat(chunks).len());
    lemma_dropped(chunks, flat(chunks).len());
    lemma_full_flat(rest);
    assert(rest =~= Seq::empty());
}

/// Skipping rows of layouts one after the other.
proof fn lemma_overlaps_skip(chunks: Seq<Layout>, start: nat, end: nat, n: nat)
    requires
        forall|i: int| 0 <= i < chunks.len() ==> counted(#[trigger] chunks[i]),
        start + n <= end <= total_rows(chunks),
    ensures
        overlaps(chunks, start + n, end) == dropped(overlaps(chunks, start, end), n),
    decreases chunks, 0nat,
{
    if chunks.len() > 0 && start < end && n > 0 {
        let count = row_count(chunks[0]) as nat;
        let rest = chunks.subrange(1, chunks.len() as int);
        if start >= count {
            lemma_overlaps_skip(rest, (start - count) as nat, (end - count) as nat, n);
        } else {
            let last = if end <= count {
                end
            } else {
                count
            };
            let own = range_pieces(chunks[0], start, last);
            lemma_range_length(chunks[0], start, last);
            lemma_range_full(chunks[0], start, last);
            if end <= count {
                if start + n < end {
                    lemma_range_skip(chunks[0], start as u64, end as u64, n as u64);
                } else {
                    lemma_all_gone(own);
                }
            } else {
                let others = overlaps(rest, 0, (end - count) as nat);
                lemma_dropped_concat(own, others, n);
                if start + n < count {
                    lemma_range_skip(chunks[0], start as u64, count as u64, n as u64);
                } else {
                    lemma_overlaps_skip(
                        rest,
                        0,
                        (end - count) as nat,
                        (start + n - count) as nat,
                    );
                }
            }
        }
    }
}

} // verus!
