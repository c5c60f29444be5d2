//! Readers, and the streams that they open over ranges of their rows.
//!
//! A reader has a known number of rows and delivers any range of them as a stream of arrays, each of
//! a known length. Expressions are pushed into a reader, which gives a reader of their results.
use vstd::prelude::*;
use std::collections::VecDeque;
use std::ops::Range;
use std::sync::Arc;
use crate::apply::{accepts_expression, applied, rank};
use crate::chunks::flat;
use crate::display::{describe, display, DisplayTree};
use crate::dtype::{DType, SpecDType};
use crate::error::{SpecError, VortexResult};
use crate::expr::{size, valid_expression, Expression};
use crate::future::{all_rows, expression_option, ArrayFuture};
use crate::layout::{
    accepts_range, counted, dtype_of, height, lemma_repeated, lemma_unopened_left, open_error,
    readable, repeated, row_count, track, uniform, unopened, Layout,
};
use crate::readers::chunked::{ChunkedReader, ChunkedReaderStream, PendingChunk};
use crate::readers::constant::{ConstantReader, ConstantReaderStream};
use crate::readers::dict::{DictReader, DictReaderStream};
use crate::readers::flat::{FlatReader, FlatReaderStream};
use crate::readers::lane::Lane;
use crate::readers::scalar_fn::{ScalarFnArrayStream, ScalarFnReader};
use crate::readers::struct_::{StructReader, StructReaderStream};
use crate::readers::zoned::ZonedReader;
use crate::row::{decode, finished, Row};
use crate::track::{
    call_side, lane_solid, lanes_solid, next_len, pending_solid, range_solid, rows_left, skipped,
    solid, step, struct_side, Chunk, LaneTrack, Outcome, Pending, Track,
};

verus! {

/// A reader of any kind, shared.
pub enum ReaderRef {
    Flat(Arc<FlatReader>),
    Constant(Arc<ConstantReader>),
    Chunked(Arc<ChunkedReader>),
    Struct(Arc<StructReader>),
    ScalarFn(Arc<ScalarFnReader>),
    Dict(Arc<DictReader>),
    Zoned(Arc<ZonedReader>),
}

/// A stream of any kind.
pub enum ReaderStreamRef {
    Flat(FlatReaderStream),
    Constant(ConstantReaderStream),
    Chunked(ChunkedReaderStream),
    Struct(StructReaderStream),
    ScalarFn(ScalarFnArrayStream),
    Dict(DictReaderStream),
}

/// The layout that a reader reads.
pub open(crate) spec fn layout_of(reader: ReaderRef) -> Layout
    decreases reader,
{
    match reader {
        ReaderRef::Flat(r) => flat_layout(*r),
        ReaderRef::Constant(r) => constant_layout(*r),
        ReaderRef::Chunked(r) => chunked_layout(*r),
        ReaderRef::Struct(r) => struct_layout(*r),
        ReaderRef::ScalarFn(r) => scalar_fn_layout(*r),
        ReaderRef::Dict(r) => dict_layout(*r),
        ReaderRef::Zoned(r) => zoned_layout(*r),
    }
}

/// The layouts that readers read.
pub open(crate) spec fn layouts_of(readers: Seq<ReaderRef>) -> Seq<Layout>
    decreases readers,
{
    Seq::new(
        readers.len(),
        |i: int|
            if 0 <= i < readers.len() {
                layout_of(readers[i])
            } else {
                arbitrary()
            },
    )
}

/// The layout of a reader of a stored segment.
pub open(crate) spec fn flat_layout(r: FlatReader) -> Layout {
    Layout::Flat {
        dtype: r.dtype@,
        segment: r.segment@,
        expression: expression_option(r.expression),
    }
}

/// The layout of a reader of one value.
pub open(crate) spec fn constant_layout(r: ConstantReader) -> Layout {
    Layout::Constant {
        scalar: r.scalar,
        dtype: r.dtype@,
        row_count: r.row_count,
        expression: expression_option(r.expression),
    }
}

/// The layout of a reader of chunks.
pub open(crate) spec fn chunked_layout(r: ChunkedReader) -> Layout
    decreases r,
{
    Layout::Chunked { row_count: r.row_count, dtype: r.dtype@, chunks: layouts_of(r.chunks@) }
}

/// The layout of a reader of structs.
pub open(crate) spec fn struct_layout(r: StructReader) -> Layout
    decreases r,
{
    Layout::Struct {
        row_count: r.row_count,
        dtype: r.dtype@,
        validity: match r.validity {
            Some(v) => Some(Box::new(layout_of(v))),
            None => None,
        },
        fields: layouts_of(r.fields@),
    }
}

/// The layout of a reader of a function's results.
pub open(crate) spec fn scalar_fn_layout(r: ScalarFnReader) -> Layout
    decreases r,
{
    Layout::ScalarFn {
        function: r.scalar_fn@,
        dtype: r.dtype@,
        row_count: r.row_count,
        children: layouts_of(r.children@),
    }
}

/// The layout of a reader of codes into a dictionary.
pub open(crate) spec fn dict_layout(r: DictReader) -> Layout
    decreases r,
{
    Layout::Dict {
        dtype: r.dtype@,
        values: Box::new(layout_of(r.values)),
        codes: Box::new(layout_of(r.codes)),
        expression: expression_option(r.expression),
    }
}

/// The layout of a reader with statistics of its zones.
pub open(crate) spec fn zoned_layout(r: ZonedReader) -> Layout
    decreases r,
{
    Layout::Zoned {
        data: Box::new(layout_of(r.data)),
        zone_map: Box::new(layout_of(r.zone_map)),
        zone_len: r.zone_len,
        present_stats: r.present_stats@,
    }
}

/// What a stream is still to read.
pub open(crate) spec fn track_of(stream: ReaderStreamRef) -> Track
    decreases stream,
{
    match stream {
        ReaderStreamRef::Flat(s) => Track::Run {
            chunks: if s.remaining == 0 {
                Seq::empty()
            } else {
                seq![
                    Seq::new(
                        s.remaining as nat,
                        |i: int|
                            finished(
                                expression_option(s.expression),
                                Row::Stored { segment: s.segment@, index: (s.offset + i) as nat },
                            ),
                    ),
                ]
            },
            dtype: s.dtype@,
        },
        ReaderStreamRef::Constant(s) => Track::Run {
            chunks: repeated(
                finished(expression_option(s.expression), Row::Constant(s.scalar)),
                s.remaining as nat,
            ),
            dtype: s.dtype@,
        },
        ReaderStreamRef::Chunked(s) => Track::Chain {
            open: match s.active_stream {
                Some(active) => Some(Box::new(track_of(*active))),
                None => None,
            },
            pending: pending_tracks(s.pending_chunks@),
        },
        ReaderStreamRef::Struct(s) => Track::Side {
            lanes: lane_tracks(s.parts@),
            join: struct_side(s.dtype@, s.has_validity),
        },
        ReaderStreamRef::ScalarFn(s) => Track::Side {
            lanes: lane_tracks(s.inputs@),
            join: call_side(s.scalar_fn@, s.dtype@),
        },
        ReaderStreamRef::Dict(s) => Track::Coded {
            codes: Box::new(track_of(*s.codes_stream)),
            change: decode(flat(all_rows(s.values@)), expression_option(s.expression)),
            dtype: s.dtype@,
        },
    }
}

/// The rows and the estimated size of an array.
pub open spec fn chunk_of(future: ArrayFuture) -> Chunk {
    Chunk { rows: future.rows(), bytes: future.spec_estimated_bytes() as nat }
}

/// What a stream is still to read, and what was read ahead of it.
pub open(crate) spec fn lane_track(lane: Lane) -> LaneTrack
    decreases lane,
{
    LaneTrack {
        ahead: match lane.buffer {
            Some(future) => Some(chunk_of(future)),
            None => None,
        },
        track: track_of(lane.stream),
    }
}

/// What each of several streams is still to read.
pub open(crate) spec fn lane_tracks(lanes: Seq<Lane>) -> Seq<LaneTrack>
    decreases lanes,
{
    Seq::new(
        lanes.len(),
        |i: int|
            if 0 <= i < lanes.len() {
                lane_track(lanes[i])
            } else {
                arbitrary()
            },
    )
}

/// A range that is still to be opened.
pub open(crate) spec fn pending_track(pending: PendingChunk) -> Pending {
    unopened(
        layout_of(pending.reader),
        pending.row_range.start as nat,
        pending.row_range.end as nat,
    )
}

/// The ranges that are still to be opened.
pub open(crate) spec fn pending_tracks(pending: Seq<PendingChunk>) -> Seq<Pending> {
    pending.map_values(|p: PendingChunk| pending_track(p))
}

/// A range that is still to be opened is one of its reader, which has the rows it says, and is not
/// empty.
pub open(crate) spec fn pending_ok(pending: PendingChunk) -> bool {
    let l = layout_of(pending.reader);
    &&& counted(l)
    &&& pending.row_range.start < pending.row_range.end <= row_count(l)
}

/// The state of a stream is one that reading leads to.
pub open(crate) spec fn stream_ok(stream: ReaderStreamRef) -> bool
    decreases stream,
{
    match stream {
        ReaderStreamRef::Flat(s) => s.offset + s.remaining <= usize::MAX,
        ReaderStreamRef::Constant(s) => true,
        ReaderStreamRef::Chunked(s) => {
            &&& forall|i: int|
                0 <= i < s.pending_chunks@.len() ==> pending_ok(#[trigger] s.pending_chunks@[i])
            &&& match s.active_stream {
                Some(active) => stream_ok(*active),
                None => true,
            }
        },
        ReaderStreamRef::Struct(s) => lanes_ok(s.parts@),
        ReaderStreamRef::ScalarFn(s) => lanes_ok(s.inputs@),
        ReaderStreamRef::Dict(s) => stream_ok(*s.codes_stream),
    }
}

/// The state of a stream and of what was read ahead of it is one that reading leads to.
pub open(crate) spec fn lane_ok(lane: Lane) -> bool
    decreases lane,
{
    &&& stream_ok(lane.stream)
    &&& lane.buffer matches Some(buffer) ==> buffer.rows().len() > 0
}

/// The states of several streams are ones that reading leads to.
pub open(crate) spec fn lanes_ok(lanes: Seq<Lane>) -> bool
    decreases lanes,
{
    forall|i: int| 0 <= i < lanes.len() ==> lane_ok(#[trigger] lanes[i])
}

/// The type of the arrays that a stream delivers.
pub open(crate) spec fn stream_dtype(stream: ReaderStreamRef) -> SpecDType {
    match stream {
        ReaderStreamRef::Flat(s) => s.dtype@,
        ReaderStreamRef::Constant(s) => s.dtype@,
        ReaderStreamRef::Chunked(s) => s.dtype@,
        ReaderStreamRef::Struct(s) => s.dtype@,
        ReaderStreamRef::ScalarFn(s) => s.dtype@,
        ReaderStreamRef::Dict(s) => s.dtype@,
    }
}

/// The arrays that a stream delivers are all of its type: those of chunks one after the other are
/// where the chunks are.
pub open(crate) spec fn stream_uniform(stream: ReaderStreamRef) -> bool
    decreases stream,
{
    match stream {
        ReaderStreamRef::Chunked(s) => {
            &&& forall|i: int|
                0 <= i < s.pending_chunks@.len() ==> {
                    let l = layout_of((#[trigger] s.pending_chunks@[i]).reader);
                    uniform(l) && dtype_of(l) == s.dtype@
                }
            &&& match s.active_stream {
                Some(active) => stream_uniform(*active) && stream_dtype(*active) == s.dtype@,
                None => true,
            }
        },
        _ => true,
    }
}

/// A bound on how many streams and layouts still to be opened stand above one another.
pub open(crate) spec fn stream_height(stream: ReaderStreamRef) -> nat
    decreases stream,
{
    match stream {
        ReaderStreamRef::Flat(s) => 0,
        ReaderStreamRef::Constant(s) => 0,
        ReaderStreamRef::Chunked(s) => {
            let first = match s.active_stream {
                Some(active) => stream_height(*active),
                None => 0,
            };
            let rest = tallest_pending(s.pending_chunks@);
            if first > rest {
                1 + first
            } else {
                1 + rest
            }
        },
        ReaderStreamRef::Struct(s) => 1 + tallest_lane(s.parts@),
        ReaderStreamRef::ScalarFn(s) => 1 + tallest_lane(s.inputs@),
        ReaderStreamRef::Dict(s) => 1 + stream_height(*s.codes_stream),
    }
}

/// The greatest height among the streams.
pub open(crate) spec fn tallest_lane(lanes: Seq<Lane>) -> nat
    decreases lanes,
{
    if lanes.len() == 0 {
        0
    } else {
        let rest = tallest_lane(lanes.drop_last());
        let last = stream_height(lanes.last().stream);
        if last > rest {
            last
        } else {
            rest
        }
    }
}

/// The greatest height among the layouts still to be opened.
pub open(crate) spec fn tallest_pending(pending: Seq<PendingChunk>) -> nat
    decreases pending.len(),
{
    if pending.len() == 0 {
        0
    } else {
        let rest = tallest_pending(pending.drop_first());
        let first = height(layout_of(pending[0].reader));
        if first > rest {
            first
        } else {
            rest
        }
    }
}

/// The layout of a reader, or the error in its place.
pub open spec fn layout_result(result: VortexResult<ReaderRef>) -> Result<Layout, SpecError> {
    match result {
        Ok(reader) => Ok(reader@),
        Err(error) => Err(error@),
    }
}

/// The result of opening a range of a layout: a stream that is to read it, or the error of opening it.
pub open spec fn opened(
    l: Layout,
    start: u64,
    end: u64,
    result: VortexResult<ReaderStreamRef>,
) -> bool {
    match result {
        Ok(stream) => {
            &&& open_error(l, start, end) is None
            &&& stream.valid()
            &&& stream.track() == track(l, start as nat, end as nat)
            &&& stream.spec_dtype() == dtype_of(l)
            &&& uniform(l) ==> stream.uniform()
            &&& stream.rank() <= height(l)
        },
        Err(error) => open_error(l, start, end) == Some(error@),
    }
}

/// What a stream delivered: an array, nothing where it has ended, or an error.
pub open spec fn outcome_of(result: VortexResult<Option<ArrayFuture>>) -> Outcome {
    match result {
        Ok(Some(future)) => Outcome::Rows(chunk_of(future)),
        Ok(None) => Outcome::Ended,
        Err(error) => Outcome::Failed(error@),
    }
}

/// Reads rows of a layout.
pub trait Reader: Send + Sync {
    /// The layout being read.
    spec fn layout(&self) -> Layout;

    /// The type of the layout's rows.
    fn dtype(&self) -> (result: &DType)
        ensures
            result@ == dtype_of(self.layout()),
    ;

    /// The number of rows.
    fn row_count(&self) -> (result: u64)
        ensures
            result == row_count(self.layout()),
    ;

    /// A reader of an expression over the rows.
    fn apply(&self, expression: &Expression) -> (result: VortexResult<ReaderRef>)
        requires
            accepts_expression(self.layout()),
            valid_expression(expression@),
        ensures
            layout_result(result) == applied(self.layout(), expression@),
    ;

    /// A stream of the rows of a range.
    fn execute(&self, row_range: Range<u64>) -> (result: VortexResult<ReaderStreamRef>)
        requires
            readable(self.layout()),
            accepts_range(self.layout(), row_range.start, row_range.end),
        ensures
            opened(self.layout(), row_range.start, row_range.end, result),
    ;

    /// The reader as a tree of labels.
    fn display_tree(&self) -> (result: DisplayTree)
        ensures
            result@ == display(self.layout()),
    ;
}

/// Delivers the rows of a range in chunks.
pub trait ReaderStream: Send + Sync {
    /// What is still to be read.
    spec fn track(&self) -> Track;

    /// The type of the chunks.
    spec fn spec_dtype(&self) -> SpecDType;

    /// All chunks are of that type.
    spec fn uniform(&self) -> bool;

    /// The state is one that reading leads to.
    spec fn valid(&self) -> bool;

    /// A bound on how many streams and layouts still to be opened stand above one another.
    spec fn rank(&self) -> nat;

    /// The type of the arrays that are delivered.
    fn dtype(&self) -> (result: &DType)
        ensures
            result@ == self.spec_dtype(),
    ;

    /// Passes over the next `n` rows, and over the errors of reading them.
    fn skip(&mut self, n: usize)
        requires
            old(self).valid(),
            n <= rows_left(old(self).track()),
        ensures
            final(self).valid(),
            final(self).track() == skipped(old(self).track(), n as nat),
            final(self).spec_dtype() == old(self).spec_dtype(),
            old(self).uniform() ==> final(self).uniform(),
            final(self).rank() <= old(self).rank(),
    ;

    /// The next chunk, nothing where there is none, or the error of reading it.
    fn next_chunk(&mut self) -> (result: VortexResult<Option<ArrayFuture>>)
        requires
            old(self).valid(),
        ensures
            final(self).valid(),
            outcome_of(result) == step(old(self).track()).0,
            final(self).track() == step(old(self).track()).1,
            result matches Ok(Some(future)) ==> {
                &&& future.rows().len() > 0
                &&& old(self).uniform() ==> future.spec_dtype() == old(self).spec_dtype()
            },
            final(self).spec_dtype() == old(self).spec_dtype(),
            old(self).uniform() ==> final(self).uniform(),
            final(self).rank() <= old(self).rank(),
    ;
}

impl View for ReaderRef {
    type V = Layout;

    open spec fn view(&self) -> Layout {
        layout_of(*self)
    }
}

impl Clone for ReaderRef {
    fn clone(&self) -> (result: ReaderRef)
        ensures
            result == *self,
    {
        match self {
            ReaderRef::Flat(r) => ReaderRef::Flat(Arc::clone(r)),
            ReaderRef::Constant(r) => ReaderRef::Constant(Arc::clone(r)),
            ReaderRef::Chunked(r) => ReaderRef::Chunked(Arc::clone(r)),
            ReaderRef::Struct(r) => ReaderRef::Struct(Arc::clone(r)),
            ReaderRef::ScalarFn(r) => ReaderRef::ScalarFn(Arc::clone(r)),
            ReaderRef::Dict(r) => ReaderRef::Dict(Arc::clone(r)),
            ReaderRef::Zoned(r) => ReaderRef::Zoned(Arc::clone(r)),
        }
    }
}

impl ReaderRef {
    /// The type of the rows.
    pub(crate) fn row_dtype(&self) -> (result: &DType)
        ensures
            result@ == dtype_of(layout_of(*self)),
        decreases self,
    {
        match self {
            ReaderRef::Flat(r) => &r.dtype,
            ReaderRef::Constant(r) => &r.dtype,
            ReaderRef::Chunked(r) => &r.dtype,
            ReaderRef::Struct(r) => &r.dtype,
            ReaderRef::ScalarFn(r) => &r.dtype,
            ReaderRef::Dict(r) => &r.dtype,
            ReaderRef::Zoned(r) => r.data.row_dtype(),
        }
    }

    /// The number of rows.
    pub(crate) fn count(&self) -> (result: u64)
        ensures
            result == row_count(layout_of(*self)),
        decreases self,
    {
        match self {
            ReaderRef::Flat(r) => r.segment.len as u64,
            ReaderRef::Constant(r) => r.row_count,
            ReaderRef::Chunked(r) => r.row_count,
            ReaderRef::Struct(r) => r.row_count,
            ReaderRef::ScalarFn(r) => r.row_count,
            ReaderRef::Dict(r) => r.codes.count(),
            ReaderRef::Zoned(r) => r.data.count(),
        }
    }

    /// A stream of the rows of a range.
    pub(crate) fn open(&self, row_range: Range<u64>) -> (result: VortexResult<ReaderStreamRef>)
        requires
            readable(layout_of(*self)),
            accepts_range(layout_of(*self), row_range.start, row_range.end),
        ensures
            opened(layout_of(*self), row_range.start, row_range.end, result),
        decreases height(layout_of(*self)), 1nat,
    {
        match self {
            ReaderRef::Flat(r) => r.open(row_range),
            ReaderRef::Constant(r) => r.open(row_range),
            ReaderRef::Chunked(r) => r.open(row_range),
            ReaderRef::Struct(r) => r.open(row_range),
            ReaderRef::ScalarFn(r) => r.open(row_range),
            ReaderRef::Dict(r) => r.open(row_range),
            ReaderRef::Zoned(r) => r.data.open(row_range),
        }
    }

    /// A reader of an expression over the rows.
    pub(crate) fn with_expression(&self, expression: &Expression) -> (result: VortexResult<
        ReaderRef,
    >)
        requires
            accepts_expression(layout_of(*self)),
            valid_expression(expression@),
        ensures
            layout_result(result) == applied(layout_of(*self), expression@),
        decreases rank(layout_of(*self)), size(expression@), 2nat,
    {
        match self {
            ReaderRef::Flat(r) => r.with_expression(expression),
            ReaderRef::Constant(r) => r.with_expression(expression),
            ReaderRef::Chunked(r) => r.with_expression(expression),
            ReaderRef::Struct(r) => r.with_expression(expression),
            ReaderRef::ScalarFn(r) => r.with_expression(expression),
            ReaderRef::Dict(r) => r.with_expression(expression),
            ReaderRef::Zoned(r) => r.with_expression(expression),
        }
    }
}

impl Reader for ReaderRef {
    open spec fn layout(&self) -> Layout {
        layout_of(*self)
    }

    fn dtype(&self) -> &DType {
        self.row_dtype()
    }

    fn row_count(&self) -> u64 {
        self.count()
    }

    fn apply(&self, expression: &Expression) -> VortexResult<ReaderRef> {
        self.with_expression(expression)
    }

    fn execute(&self, row_range: Range<u64>) -> VortexResult<ReaderStreamRef> {
        self.open(row_range)
    }

    fn display_tree(&self) -> DisplayTree {
        describe(self)
    }
}

impl ReaderStream for ReaderStreamRef {
    open spec fn track(&self) -> Track {
        track_of(*self)
    }

    open spec fn spec_dtype(&self) -> SpecDType {
        stream_dtype(*self)
    }

    open spec fn uniform(&self) -> bool {
        stream_uniform(*self)
    }

    open spec fn valid(&self) -> bool {
        stream_ok(*self)
    }

    open spec fn rank(&self) -> nat {
        stream_height(*self)
    }

    fn dtype(&self) -> &DType {
        match self {
            ReaderStreamRef::Flat(s) => s.dtype(),
            ReaderStreamRef::Constant(s) => s.dtype(),
            ReaderStreamRef::Chunked(s) => s.dtype(),
            ReaderStreamRef::Struct(s) => s.dtype(),
            ReaderStreamRef::ScalarFn(s) => s.dtype(),
            ReaderStreamRef::Dict(s) => s.dtype(),
        }
    }

    fn skip(&mut self, n: usize)
        decreases old(self).rank(), 2nat,
    {
        match self {
            ReaderStreamRef::Flat(s) => s.skip(n),
            ReaderStreamRef::Constant(s) => s.skip(n),
            ReaderStreamRef::Chunked(s) => s.skip(n),
            ReaderStreamRef::Struct(s) => s.skip(n),
            ReaderStreamRef::ScalarFn(s) => s.skip(n),
            ReaderStreamRef::Dict(s) => s.skip(n),
        }
    }

    fn next_chunk(&mut self) -> VortexResult<Option<ArrayFuture>>
        decreases old(self).rank(), 2nat,
    {
        match self {
            ReaderStreamRef::Flat(s) => s.next_chunk(),
            ReaderStreamRef::Constant(s) => s.next_chunk(),
            ReaderStreamRef::Chunked(s) => s.next_chunk(),
            ReaderStreamRef::Struct(s) => s.next_chunk(),
            ReaderStreamRef::ScalarFn(s) => s.next_chunk(),
            ReaderStreamRef::Dict(s) => s.next_chunk(),
        }
    }
}

impl ReaderStreamRef {
    /// The length of the next chunk, or nothing where no row is left.
    pub(crate) fn next_chunk_len(&self) -> (result: Option<usize>)
        requires
            self.valid(),
        ensures
            says(result, next_len(self.track())),
        decreases self.rank(), 2nat,
    {
        match self {
            ReaderStreamRef::Flat(s) => s.next_chunk_len(),
            ReaderStreamRef::Constant(s) => s.next_chunk_len(),
            ReaderStreamRef::Chunked(s) => s.next_chunk_len(),
            ReaderStreamRef::Struct(s) => s.next_chunk_len(),
            ReaderStreamRef::ScalarFn(s) => s.next_chunk_len(),
            ReaderStreamRef::Dict(s) => s.next_chunk_len(),
        }
    }

    /// How many rows are left, or `n` where there are more.
    pub(crate) fn remaining_up_to(&self, n: usize) -> (result: usize)
        requires
            self.valid(),
        ensures
            result == up_to(rows_left(self.track()), n),
        decreases self.rank(), 2nat,
    {
        match self {
            ReaderStreamRef::Flat(s) => s.remaining_up_to(n),
            ReaderStreamRef::Constant(s) => s.remaining_up_to(n),
            ReaderStreamRef::Chunked(s) => s.remaining_up_to(n),
            ReaderStreamRef::Struct(s) => s.remaining_up_to(n),
            ReaderStreamRef::ScalarFn(s) => s.remaining_up_to(n),
            ReaderStreamRef::Dict(s) => s.remaining_up_to(n),
        }
    }
}

/// A number that may be missing.
pub open spec fn says(result: Option<usize>, number: Option<nat>) -> bool {
    match (result, number) {
        (Some(a), Some(b)) => a == b,
        (None, None) => true,
        _ => false,
    }
}

/// A number, or a bound where it is greater.
pub open spec fn up_to(number: nat, bound: usize) -> nat {
    if number < bound {
        number
    } else {
        bound as nat
    }
}

/// No chunk that is still to be read is empty.
pub proof fn lemma_stream_solid(stream: ReaderStreamRef)
    requires
        stream_ok(stream),
    ensures
        solid(track_of(stream)),
    decreases stream,
{
    match stream {
        ReaderStreamRef::Flat(s) => {},
        ReaderStreamRef::Constant(s) => lemma_repeated(
            finished(expression_option(s.expression), Row::Constant(s.scalar)),
            s.remaining as nat,
            0,
        ),
        ReaderStreamRef::Chunked(s) => {
            let pending = s.pending_chunks@;
            assert forall|i: int| 0 <= i < pending.len() implies range_solid(
                #[trigger] pending_tracks(pending)[i],
            ) by {
                assert(pending_ok(pending[i]));
                lemma_unopened_left(
                    layout_of(pending[i].reader),
                    pending[i].row_range.start as nat,
                    pending[i].row_range.end as nat,
                );
            }
            assert(pending_solid(pending_tracks(pending)));
            match s.active_stream {
                Some(active) => lemma_stream_solid(*active),
                None => {},
            }
        },
        ReaderStreamRef::Struct(s) => lemma_lanes_solid(s.parts@),
        ReaderStreamRef::ScalarFn(s) => lemma_lanes_solid(s.inputs@),
        ReaderStreamRef::Dict(s) => lemma_stream_solid(*s.codes_stream),
    }
}

/// No chunk that is still to be read is empty, nor what was read ahead.
pub(crate) proof fn lemma_lane_solid(lane: Lane)
    requires
        lane_ok(lane),
    ensures
        lane_solid(lane_track(lane)),
    decreases lane,
{
    lemma_stream_solid(lane.stream);
}

/// No chunk that is still to be read of several streams is empty, nor what was read ahead.
pub(crate) proof fn lemma_lanes_solid(lanes: Seq<Lane>)
    requires
        lanes_ok(lanes),
    ensures
        lanes_solid(lane_tracks(lanes)),
    decreases lanes,
{
    assert forall|i: int| 0 <= i < lanes.len() implies lane_solid(
        #[trigger] lane_tracks(lanes)[i],
    ) by {
        assert(lane_ok(lanes[i]));
        lemma_lane_solid(lanes[i]);
    }
}

/// A reader of any kind reads the layout that the reader of its own kind reads.
pub proof fn law_reader(reader: ReaderRef)
    ensures
        match reader {
            ReaderRef::Flat(own) => reader@ == own@,
            ReaderRef::Constant(own) => reader@ == own@,
            ReaderRef::Chunked(own) => reader@ == own@,
            ReaderRef::Struct(own) => reader@ == own@,
            ReaderRef::ScalarFn(own) => reader@ == own@,
            ReaderRef::Dict(own) => reader@ == own@,
            ReaderRef::Zoned(own) => reader@ == own@,
        },
{
}

/// Readers in a list read their layouts in the order of the list.
pub proof fn law_layouts(readers: Seq<ReaderRef>, i: int)
    ensures
        layouts_of(readers).len() == readers.len(),
        0 <= i < readers.len() ==> layouts_of(readers)[i] == readers[i]@,
{
}

/// A stream that was opened of a range is to read that range, of the layout's type. Where it could not
/// be, the error says why.
pub proof fn law_opened(l: Layout, start: u64, end: u64, result: VortexResult<ReaderStreamRef>)
    requires
        opened(l, start, end, result),
    ensures
        match result {
            Ok(stream) => {
                &&& open_error(l, start, end) is None
                &&& stream.track() == track(l, start as nat, end as nat)
                &&& stream.spec_dtype() == dtype_of(l)
            },
            Err(error) => open_error(l, start, end) == Some(error@),
        },
{
}

/// An array that is delivered is delivered with its rows and with what it is estimated at.
pub proof fn law_outcome(result: VortexResult<Option<ArrayFuture>>)
    ensures
        match (result, outcome_of(result)) {
            (Ok(Some(future)), Outcome::Rows(chunk)) => chunk.rows == future.rows() && chunk.bytes
                == future.spec_estimated_bytes(),
            (Ok(None), Outcome::Ended) => true,
            (Err(error), Outcome::Failed(own)) => error@ == own,
            _ => false,
        },
{
}

/// A reader that was found is of the layout that was looked for, and an error is the one that was met.
pub proof fn law_layout_result(result: VortexResult<ReaderRef>)
    ensures
        match (result, layout_result(result)) {
            (Ok(reader), Ok(l)) => reader@ == l,
            (Err(error), Err(own)) => error@ == own,
            _ => false,
        },
{
}

/// What a reader reads, opens, applies expressions to and describes is one layout.
pub proof fn law_layout(reader: ReaderRef)
    ensures
        reader.layout() == reader@,
        match reader {
            ReaderRef::Flat(own) => own.layout() == own@,
            ReaderRef::Constant(own) => own.layout() == own@,
            ReaderRef::Chunked(own) => own.layout() == own@,
            ReaderRef::Struct(own) => own.layout() == own@,
            ReaderRef::ScalarFn(own) => own.layout() == own@,
            ReaderRef::Dict(own) => own.layout() == own@,
            ReaderRef::Zoned(own) => own.layout() == own@,
        },
{
}

/// A stream of any kind is to read what the stream of its own kind is to read, of the same type.
pub proof fn law_stream(stream: ReaderStreamRef)
    ensures
        match stream {
            ReaderStreamRef::Flat(own) => stream.track() == own.track() && stream.spec_dtype()
                == own.spec_dtype(),
            ReaderStreamRef::Constant(own) => stream.track() == own.track() && stream.spec_dtype()
                == own.spec_dtype(),
            ReaderStreamRef::Chunked(own) => stream.track() == own.track() && stream.spec_dtype()
                == own.spec_dtype(),
            ReaderStreamRef::Struct(own) => stream.track() == own.track() && stream.spec_dtype()
                == own.spec_dtype(),
            ReaderStreamRef::ScalarFn(own) => stream.track() == own.track() && stream.spec_dtype()
                == own.spec_dtype(),
            ReaderStreamRef::Dict(own) => stream.track() == own.track() && stream.spec_dtype()
                == own.spec_dtype(),
        },
{
}

} // verus!
