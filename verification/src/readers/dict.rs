//! A reader of codes into a dictionary.
use vstd::prelude::*;
use std::ops::Range;
use std::sync::Arc;
use crate::apply::{accepts_expression, applied};
use crate::chunks::flat;
use crate::display::{describe_dict, DisplayTree};
use crate::dtype::{DType, SpecDType};
use crate::error::{SpecError, VortexError, VortexResult};
use crate::expr::{valid_expression, Expression};
use crate::future::{all_rows, ArrayFuture};
use crate::layout::{
    accepts_range, height, lemma_accepts_range, open_error, readable, row_count, track, values_of,
    Layout,
};
use crate::reader::{
    dict_layout, layout_of, layout_result, lemma_stream_solid, opened, says, stream_dtype,
    stream_height, stream_ok, stream_uniform, track_of, up_to, Reader, ReaderRef, ReaderStream,
    ReaderStreamRef,
};
use crate::readers::flat::{compose, copy_expression};
use crate::row::Row;
use crate::track::{drained, lemma_step, next_len, rows_left, weight, Track};

verus! {

/// A reader of the values that codes stand for in a dictionary, and of an expression over them.
pub struct DictReader {
    pub(crate) dtype: DType,
    pub(crate) values: ReaderRef,
    pub(crate) codes: ReaderRef,
    pub(crate) expression: Option<Expression>,
}

impl View for DictReader {
    type V = Layout;

    open spec fn view(&self) -> Layout {
        dict_layout(*self)
    }
}

impl DictReader {
    /// A reader of the values that codes stand for.
    pub fn new(dtype: DType, values: ReaderRef, codes: ReaderRef) -> (result: DictReader)
        ensures
            result@ == (Layout::Dict {
                dtype: dtype@,
                values: Box::new(values@),
                codes: Box::new(codes@),
                expression: None,
            }),
    {
        DictReader { dtype, values, codes, expression: None }
    }
}

/// Chunks that were read before others, or the error of reading those.
spec fn read_before(
    read: Seq<Seq<Row>>,
    others: Result<Seq<Seq<Row>>, SpecError>,
) -> Result<Seq<Seq<Row>>, SpecError> {
    match others {
        Ok(chunks) => Ok(read + chunks),
        Err(error) => Err(error),
    }
}

impl DictReader {
    /// A reader of an expression over the rows.
    pub(crate) fn with_expression(&self, expression: &Expression) -> (result: VortexResult<
        ReaderRef,
    >)
        requires
            accepts_expression(dict_layout(*self)),
            valid_expression(expression@),
        ensures
            layout_result(result) == applied(dict_layout(*self), expression@),
    {
        match expression.return_dtype(&self.dtype) {
            Ok(dtype) => Ok(
                ReaderRef::Dict(
                    Arc::new(
                        DictReader {
                            dtype,
                            values: self.values.clone(),
                            codes: self.codes.clone(),
                            expression: compose(&self.expression, expression),
                        },
                    ),
                ),
            ),
            Err(error) => Err(error),
        }
    }

    /// A stream of the rows of a range.
    pub(crate) fn open(&self, row_range: Range<u64>) -> (result: VortexResult<ReaderStreamRef>)
        requires
            readable(dict_layout(*self)),
            accepts_range(dict_layout(*self), row_range.start, row_range.end),
        ensures
            opened(dict_layout(*self), row_range.start, row_range.end, result),
        decreases height(dict_layout(*self)), 0nat,
    {
        let count = self.values.count();
        let ghost whole = track(layout_of(self.values), 0, count as nat);
        proof {
            lemma_accepts_range(layout_of(self.values), 0, count);
        }
        let mut values_stream = match self.values.open(0..count) {
            Ok(stream) => stream,
            Err(error) => {
                return Err(error);
            },
        };
        let mut values: Vec<ArrayFuture> = Vec::new();
        assert(read_before(all_rows(values@), drained(whole)) == drained(whole)) by {
            if let Ok(chunks) = drained(whole) {
                assert(all_rows(values@) + chunks =~= chunks);
            }
        }
        loop
            invariant_except_break
                read_before(all_rows(values@), drained(values_stream.track())) == drained(whole),
            invariant
                stream_ok(values_stream),
                stream_height(values_stream) < height(dict_layout(*self)),
                whole == track(layout_of(self.values), 0, count as nat),
                count == row_count(layout_of(self.values)),
                open_error(layout_of(self.values), 0, count) is None,
            ensures
                drained(whole) == Ok::<Seq<Seq<Row>>, SpecError>(all_rows(values@)),
            decreases weight(values_stream.track()),
        {
            let ghost before = values_stream.track();
            let ghost read = all_rows(values@);
            proof {
                lemma_stream_solid(values_stream);
                lemma_step(before);
            }
            match values_stream.next_chunk() {
                Ok(Some(future)) => {
                    values.push(future);
                    proof {
                        assert(all_rows(values@) =~= read + seq![future.rows()]);
                        if let Ok(others) = drained(values_stream.track()) {
                            assert(read + (seq![future.rows()] + others) =~= all_rows(values@)
                                + others);
                        }
                    }
                },
                Ok(None) => {
                    assert(read + Seq::<Seq<Row>>::empty() =~= read);
                    break;
                },
                Err(error) => {
                    return Err(error);
                },
            }
        }
        if values.len() == 0 {
            return Err(VortexError::EmptyDictionary);
        }
        assert(values_of(layout_of(self.values)) == flat(all_rows(values@)));
        match self.codes.open(row_range) {
            Ok(codes_stream) => Ok(
                ReaderStreamRef::Dict(
                    DictReaderStream {
                        dtype: self.dtype.clone(),
                        codes_stream: Box::new(codes_stream),
                        values: Arc::new(values),
                        expression: copy_expression(&self.expression),
                    },
                ),
            ),
            Err(error) => Err(error),
        }
    }
}

impl Reader for DictReader {
    open spec fn layout(&self) -> Layout {
        dict_layout(*self)
    }

    fn dtype(&self) -> &DType {
        &self.dtype
    }

    fn row_count(&self) -> u64 {
        self.codes.count()
    }

    fn apply(&self, expression: &Expression) -> VortexResult<ReaderRef> {
        self.with_expression(expression)
    }

    fn execute(&self, row_range: Range<u64>) -> VortexResult<ReaderStreamRef> {
        self.open(row_range)
    }

    fn display_tree(&self) -> DisplayTree {
        describe_dict(self)
    }
}

/// A stream of the values that codes stand for in a dictionary.
pub struct DictReaderStream {
    pub(crate) dtype: DType,
    pub(crate) codes_stream: Box<ReaderStreamRef>,
    pub(crate) values: Arc<Vec<ArrayFuture>>,
    pub(crate) expression: Option<Expression>,
}

impl ReaderStream for DictReaderStream {
    open spec fn track(&self) -> Track {
        track_of(ReaderStreamRef::Dict(*self))
    }

    open spec fn spec_dtype(&self) -> SpecDType {
        stream_dtype(ReaderStreamRef::Dict(*self))
    }

    open spec fn uniform(&self) -> bool {
        stream_uniform(ReaderStreamRef::Dict(*self))
    }

    open spec fn valid(&self) -> bool {
        stream_ok(ReaderStreamRef::Dict(*self))
    }

    open spec fn rank(&self) -> nat {
        stream_height(ReaderStreamRef::Dict(*self))
    }

    fn dtype(&self) -> &DType {
        &self.dtype
    }

    fn skip(&mut self, n: usize)
        decreases old(self).rank(), 1nat,
    {
        self.codes_stream.skip(n);
    }

    fn next_chunk(&mut self) -> VortexResult<Option<ArrayFuture>>
        decreases old(self).rank(), 1nat,
    {
        match self.codes_stream.next_chunk() {
            Ok(Some(codes)) => {
                let future = ArrayFuture::decoded(
                    self.dtype.clone(),
                    Arc::clone(&self.values),
                    codes,
                    copy_expression(&self.expression),
                );
                Ok(Some(future))
            },
            Ok(None) => Ok(None),
            Err(error) => Err(error),
        }
    }
}

impl DictReaderStream {
    /// The length of the next chunk, or nothing where no row is left.
    pub(crate) fn next_chunk_len(&self) -> (result: Option<usize>)
        requires
            self.valid(),
        ensures
            says(result, next_len(self.track())),
        decreases self.rank(), 1nat,
    {
        self.codes_stream.next_chunk_len()
    }

    /// How many rows are left, or `n` where there are more.
    pub(crate) fn remaining_up_to(&self, n: usize) -> (result: usize)
        requires
            self.valid(),
        ensures
            result == up_to(rows_left(self.track()), n),
        decreases self.rank(), 1nat,
    {
        self.codes_stream.remaining_up_to(n)
    }
}

} // verus!
