//! A reader of a stored segment.
use vstd::prelude::*;
use std::ops::Range;
use std::sync::Arc;
use crate::apply::{accepts_expression, applied, composed};
use crate::cells::clean;
use crate::chunks::{dropped, flat, lemma_flat_one};
use crate::display::{describe_flat, DisplayTree};
use crate::dtype::{DType, SpecDType};
use crate::error::{SpecError, VortexError, VortexResult};
use crate::estimate::{capped, decoded_size};
use crate::expr::{valid_expression, Expression};
use crate::future::{expression_option, ArrayFuture};
use crate::layout::{accepts_range, readable, row_count, track, Layout};
use crate::mask::{count_true, Mask};
use crate::reader::{
    flat_layout, layout_result, opened, says, stream_dtype, stream_height, stream_ok,
    stream_uniform, track_of, up_to, Reader, ReaderRef, ReaderStream, ReaderStreamRef,
};
use crate::row::{finished, Row, Segment, SegmentId, SpecSegment};
use crate::track::{chunks_of, lemma_clean_chunks, next_len, rows_left, skipped, Track};

verus! {

/// A reader of a stored segment, and of an expression over its rows.
pub struct FlatReader {
    pub(crate) dtype: DType,
    pub(crate) segment: Segment,
    pub(crate) expression: Option<Expression>,
}

impl View for FlatReader {
    type V = Layout;

    open spec fn view(&self) -> Layout {
        flat_layout(*self)
    }
}

impl FlatReader {
    /// A reader of a stored segment of `len` rows.
    pub fn new(len: usize, dtype: DType, segment_id: SegmentId) -> (result: FlatReader)
        ensures
            result@ == (Layout::Flat {
                dtype: dtype@,
                segment: SpecSegment { id: segment_id, len, dtype: dtype@ },
                expression: None,
            }),
    {
        let segment = Segment { id: segment_id, len, dtype: dtype.clone() };
        FlatReader { dtype, segment, expression: None }
    }
}

/// An expression that may be missing, once more.
pub(crate) fn copy_expression(expression: &Option<Expression>) -> (result: Option<Expression>)
    ensures
        result == *expression,
{
    match expression {
        Some(e) => Some(e.clone()),
        None => None,
    }
}

/// An expression over what another gives, where there is one.
pub(crate) fn compose(existing: &Option<Expression>, expression: &Expression) -> (result: Option<
    Expression,
>)
    ensures
        expression_option(result) == composed(expression_option(*existing), expression@),
{
    match existing {
        Some(inner) => Some(expression.replace_root(inner)),
        None => Some(expression.clone()),
    }
}

impl FlatReader {
    /// A reader of an expression over the rows.
    pub(crate) fn with_expression(&self, expression: &Expression) -> (result: VortexResult<
        ReaderRef,
    >)
        requires
            accepts_expression(flat_layout(*self)),
            valid_expression(expression@),
        ensures
            layout_result(result) == applied(flat_layout(*self), expression@),
    {
        match expression.return_dtype(&self.dtype) {
            Ok(dtype) => Ok(
                ReaderRef::Flat(
                    Arc::new(
                        FlatReader {
                            dtype,
                            segment: self.segment.clone(),
                            expression: compose(&self.expression, expression),
                        },
                    ),
                ),
            ),
            Err(error) => Err(error),
        }
    }

    /// A stream of the rows of a range.
    pub(crate) fn open(&self, row_range: Range<u64>) -> (result: VortexResult<ReaderStreamRef>)
        requires
            readable(flat_layout(*self)),
            accepts_range(flat_layout(*self), row_range.start, row_range.end),
        ensures
            opened(flat_layout(*self), row_range.start, row_range.end, result),
    {
        if row_range.start > usize::MAX as u64 {
            return Err(VortexError::RowRangeStartTooLarge);
        }
        let start: usize = row_range.start as usize;
        if row_range.end > usize::MAX as u64 {
            return Err(VortexError::RowRangeEndTooLarge);
        }
        let end: usize = row_range.end as usize;
        if start > self.segment.len || end > self.segment.len || start > end {
            return Err(VortexError::RowRangeOutOfBounds { start, end, len: self.segment.len });
        }
        let stream = ReaderStreamRef::Flat(
            FlatReaderStream {
                dtype: self.dtype.clone(),
                segment: self.segment.clone(),
                expression: copy_expression(&self.expression),
                offset: start,
                remaining: end - start,
            },
        );
        assert(track_of(stream)->chunks =~~= track(
            flat_layout(*self),
            start as nat,
            end as nat,
        )->chunks);
        Ok(stream)
    }
}

impl Reader for FlatReader {
    open spec fn layout(&self) -> Layout {
        flat_layout(*self)
    }

    fn dtype(&self) -> &DType {
        &self.dtype
    }

    fn row_count(&self) -> u64 {
        self.segment.len as u64
    }

    fn apply(&self, expression: &Expression) -> VortexResult<ReaderRef> {
        self.with_expression(expression)
    }

    fn execute(&self, row_range: Range<u64>) -> VortexResult<ReaderStreamRef> {
        self.open(row_range)
    }

    fn display_tree(&self) -> DisplayTree {
        describe_flat(self)
    }
}

/// A stream of rows of a stored segment.
pub struct FlatReaderStream {
    pub(crate) dtype: DType,
    pub(crate) segment: Segment,
    pub(crate) expression: Option<Expression>,
    pub(crate) offset: usize,
    pub(crate) remaining: usize,
}

impl FlatReaderStream {
    /// The length of the next chunk, or nothing where no row is left.
    pub fn next_chunk_len(&self) -> (result: Option<usize>)
        ensures
            says(result, next_len(self.track())),
    {
        if self.remaining == 0 {
            None
        } else {
            Some(self.remaining)
        }
    }

    /// How many rows are left, or `n` where there are more.
    pub(crate) fn remaining_up_to(&self, n: usize) -> (result: usize)
        ensures
            result == up_to(rows_left(self.track()), n),
    {
        proof {
            lemma_rows(*self);
        }
        if self.remaining < n {
            self.remaining
        } else {
            n
        }
    }
}

/// The rows that are left are one chunk.
proof fn lemma_rows(s: FlatReaderStream)
    ensures
        rows_left(s.track()) == s.remaining,
        flat(s.track()->chunks) == Seq::new(
            s.remaining as nat,
            |i: int|
                finished(
                    expression_option(s.expression),
                    Row::Stored { segment: s.segment@, index: (s.offset + i) as nat },
                ),
        ),
{
    let chunks = s.track()->chunks;
    if s.remaining > 0 {
        lemma_flat_one(chunks[0]);
        assert(chunks =~= seq![chunks[0]]);
    } else {
        assert(flat(chunks) =~= Seq::empty());
    }
}

/// Rows of a stored segment of which a mask that is still to be computed wants some.
pub struct MaskedChunk {
    pub(crate) dtype: DType,
    pub(crate) segment: Segment,
    pub(crate) offset: usize,
    pub(crate) len: usize,
    pub(crate) expression: Option<Expression>,
}

/// What is to be done for rows of which a mask wants some.
pub enum MaskedRead {
    /// Nothing is to be read: there are no rows, of the given type.
    Empty(DType),
    /// The array is to be read, and the mask's rows kept.
    Read(ArrayFuture),
}

impl MaskedChunk {
    /// The type of the rows.
    pub closed spec fn spec_dtype(&self) -> SpecDType {
        self.dtype@
    }

    /// The rows.
    pub closed spec fn rows(&self) -> Seq<Row> {
        Seq::new(
            self.len as nat,
            |i: int|
                finished(
                    expression_option(self.expression),
                    Row::Stored { segment: self.segment@, index: (self.offset + i) as nat },
                ),
        )
    }

    /// What is to be done once the mask is known: nothing is read where it wants no row.
    pub fn resolve(&self, mask: &Mask) -> (result: MaskedRead)
        requires
            mask@.len() == self.rows().len(),
        ensures
            match result {
                MaskedRead::Empty(dtype) => count_true(mask@) == 0 && dtype@ == self.spec_dtype(),
                MaskedRead::Read(future) => {
                    &&& count_true(mask@) > 0
                    &&& future.rows() == self.rows()
                    &&& future.spec_dtype() == self.spec_dtype()
                    &&& future.spec_estimated_bytes() == capped(
                        decoded_size(self.spec_dtype(), self.rows().len()),
                    )
                },
            },
    {
        if mask.true_count() == 0 {
            return MaskedRead::Empty(self.dtype.clone());
        }
        let future = ArrayFuture::segment(
            self.dtype.clone(),
            self.segment.clone(),
            self.offset,
            self.len,
            copy_expression(&self.expression),
        );
        assert(future.rows() =~= self.rows());
        MaskedRead::Read(future)
    }
}

impl FlatReaderStream {
    /// The next rows, as many as a mask over them has; it may have no more than are left.
    pub fn next_masked_chunk(&mut self, mask_len: usize) -> (result: VortexResult<MaskedChunk>)
        requires
            old(self).valid(),
        ensures
            final(self).valid(),
            final(self).spec_dtype() == old(self).spec_dtype(),
            match result {
                Ok(chunk) => {
                    &&& mask_len <= rows_left(old(self).track())
                    &&& clean(chunk.rows()) == flat(chunks_of(old(self).track())).take(
                        mask_len as int,
                    )
                    &&& chunk.spec_dtype() == old(self).spec_dtype()
                    &&& final(self).track() == skipped(old(self).track(), mask_len as nat)
                },
                Err(error) => {
                    &&& error@ matches SpecError::MaskTooLong { mask_len: len, remaining } && {
                        &&& len == mask_len
                        &&& remaining == rows_left(old(self).track())
                        &&& mask_len > remaining
                    }
                    &&& *final(self) == *old(self)
                },
            },
    {
        proof {
            lemma_rows(*self);
            lemma_clean_chunks(self.track()->chunks);
        }
        if mask_len > self.remaining {
            return Err(VortexError::MaskTooLong { mask_len, remaining: self.remaining });
        }
        let chunk = MaskedChunk {
            dtype: self.dtype.clone(),
            segment: self.segment.clone(),
            offset: self.offset,
            len: mask_len,
            expression: copy_expression(&self.expression),
        };
        assert(clean(chunk.rows()) =~= flat(chunks_of(self.track())).take(mask_len as int));
        self.skip(mask_len);
        Ok(chunk)
    }
}

impl ReaderStream for FlatReaderStream {
    open spec fn track(&self) -> Track {
        track_of(ReaderStreamRef::Flat(*self))
    }

    open spec fn spec_dtype(&self) -> SpecDType {
        stream_dtype(ReaderStreamRef::Flat(*self))
    }

    open spec fn uniform(&self) -> bool {
        stream_uniform(ReaderStreamRef::Flat(*self))
    }

    open spec fn valid(&self) -> bool {
        stream_ok(ReaderStreamRef::Flat(*self))
    }

    open spec fn rank(&self) -> nat {
        stream_height(ReaderStreamRef::Flat(*self))
    }

    fn dtype(&self) -> &DType {
        &self.dtype
    }

    fn skip(&mut self, n: usize) {
        let ghost before = self.track()->chunks;
        proof {
            lemma_rows(*self);
        }
        self.offset = self.offset + n;
        self.remaining = self.remaining - n;
        proof {
            reveal_with_fuel(dropped, 2);
            if before.len() > 0 {
                assert(before.drop_first() =~= Seq::<Seq<Row>>::empty());
                if 0 < n < before[0].len() {
                    assert(self.track()->chunks =~~= seq![before[0].skip(n as int)]);
                    assert(dropped(before, n as nat) =~= seq![before[0].skip(n as int)]);
                } else if n == 0 {
                    assert(self.track()->chunks =~~= before);
                }
            }
        }
    }

    fn next_chunk(&mut self) -> VortexResult<Option<ArrayFuture>> {
        if self.remaining == 0 {
            return Ok(None);
        }
        let future = ArrayFuture::segment(
            self.dtype.clone(),
            self.segment.clone(),
            self.offset,
            self.remaining,
            copy_expression(&self.expression),
        );
        assert(future.rows() =~= self.track()->chunks.first());
        self.offset = self.offset + self.remaining;
        self.remaining = 0;
        assert(self.track()->chunks =~= old(self).track()->chunks.drop_first());
        Ok(Some(future))
    }
}

} // verus!
