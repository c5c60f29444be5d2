//! A reader of one value repeated.
use vstd::prelude::*;
use std::ops::Range;
use std::sync::Arc;
use crate::apply::{accepts_expression, applied};
use crate::display::{describe_constant, DisplayTree};
use crate::dtype::{DType, SpecDType};
use crate::error::VortexResult;
use crate::expr::{valid_expression, Expression};
use crate::future::{expression_option, ArrayFuture};
use crate::layout::{
    accepts_range, first_run, lemma_first_run, lemma_repeated, readable, row_count, track, Layout,
};
use crate::reader::{
    constant_layout, layout_result, opened, says, stream_dtype, stream_height, stream_ok,
    stream_uniform, track_of, up_to, Reader, ReaderRef, ReaderStream, ReaderStreamRef,
};
use crate::readers::flat::{compose, copy_expression};
use crate::row::{finished, Row};
use crate::scalar::Scalar;
use crate::track::{next_len, rows_left, Track};

verus! {

/// A reader of one value repeated, and of an expression over it.
pub struct ConstantReader {
    pub(crate) scalar: Scalar,
    pub(crate) dtype: DType,
    pub(crate) row_count: u64,
    pub(crate) expression: Option<Expression>,
}

impl View for ConstantReader {
    type V = Layout;

    open spec fn view(&self) -> Layout {
        constant_layout(*self)
    }
}

impl ConstantReader {
    /// A reader of one value in each of `row_count` rows.
    pub fn new(scalar: Scalar, row_count: u64) -> (result: ConstantReader)
        ensures
            result@ == (Layout::Constant {
                scalar,
                dtype: scalar.dtype@,
                row_count,
                expression: None,
            }),
    {
        let dtype = scalar.dtype.clone();
        ConstantReader { scalar, dtype, row_count, expression: None }
    }
}

impl ConstantReader {
    /// A reader of an expression over the rows. One that has no type is kept too: computing it fails.
    pub(crate) fn with_expression(&self, expression: &Expression) -> (result: VortexResult<
        ReaderRef,
    >)
        requires
            accepts_expression(constant_layout(*self)),
            valid_expression(expression@),
        ensures
            layout_result(result) == applied(constant_layout(*self), expression@),
    {
        let dtype = match expression.return_dtype(&self.dtype) {
            Ok(dtype) => dtype,
            Err(_) => self.dtype.clone(),
        };
        Ok(
            ReaderRef::Constant(
                Arc::new(
                    ConstantReader {
                        scalar: self.scalar.clone(),
                        dtype,
                        row_count: self.row_count,
                        expression: compose(&self.expression, expression),
                    },
                ),
            ),
        )
    }

    /// A stream of the rows of a range.
    pub(crate) fn open(&self, row_range: Range<u64>) -> (result: VortexResult<ReaderStreamRef>)
        requires
            readable(constant_layout(*self)),
            accepts_range(constant_layout(*self), row_range.start, row_range.end),
        ensures
            opened(constant_layout(*self), row_range.start, row_range.end, result),
    {
        let remaining: u64 = if row_range.start < row_range.end {
            row_range.end - row_range.start
        } else {
            0
        };
        let stream = ReaderStreamRef::Constant(
            ConstantReaderStream {
                dtype: self.dtype.clone(),
                scalar: self.scalar.clone(),
                remaining,
                expression: copy_expression(&self.expression),
            },
        );
        assert(track_of(stream)->chunks =~= track(
            constant_layout(*self),
            row_range.start as nat,
            row_range.end as nat,
        )->chunks);
        Ok(stream)
    }
}

impl Reader for ConstantReader {
    open spec fn layout(&self) -> Layout {
        constant_layout(*self)
    }

    fn dtype(&self) -> &DType {
        &self.dtype
    }

    fn row_count(&self) -> u64 {
        self.row_count
    }

    fn apply(&self, expression: &Expression) -> VortexResult<ReaderRef> {
        self.with_expression(expression)
    }

    fn execute(&self, row_range: Range<u64>) -> VortexResult<ReaderStreamRef> {
        self.open(row_range)
    }

    fn display_tree(&self) -> DisplayTree {
        describe_constant(self)
    }
}

/// A stream of one value repeated.
pub struct ConstantReaderStream {
    pub(crate) dtype: DType,
    pub(crate) scalar: Scalar,
    pub(crate) remaining: u64,
    pub(crate) expression: Option<Expression>,
}

impl ReaderStream for ConstantReaderStream {
    open spec fn track(&self) -> Track {
        track_of(ReaderStreamRef::Constant(*self))
    }

    open spec fn spec_dtype(&self) -> SpecDType {
        stream_dtype(ReaderStreamRef::Constant(*self))
    }

    open spec fn uniform(&self) -> bool {
        stream_uniform(ReaderStreamRef::Constant(*self))
    }

    open spec fn valid(&self) -> bool {
        stream_ok(ReaderStreamRef::Constant(*self))
    }

    open spec fn rank(&self) -> nat {
        stream_height(ReaderStreamRef::Constant(*self))
    }

    fn dtype(&self) -> &DType {
        &self.dtype
    }

    fn skip(&mut self, n: usize) {
        proof {
            let row = finished(expression_option(self.expression), Row::Constant(self.scalar));
            lemma_repeated(row, self.remaining as nat, 0);
            lemma_repeated(row, self.remaining as nat, n as nat);
        }
        self.remaining = self.remaining - n as u64;
    }

    fn next_chunk(&mut self) -> VortexResult<Option<ArrayFuture>> {
        if self.remaining == 0 {
            return Ok(None);
        }
        let ghost row = finished(expression_option(self.expression), Row::Constant(self.scalar));
        let len = run_len(self.remaining);
        proof {
            lemma_first_run(self.remaining as nat);
        }
        let future = ArrayFuture::constant(
            self.dtype.clone(),
            self.scalar.clone(),
            len,
            copy_expression(&self.expression),
        );
        assert(future.rows() =~= Seq::new(len as nat, |i: int| row));
        self.remaining = self.remaining - len as u64;
        assert(self.track()->chunks =~= old(self).track()->chunks.drop_first());
        Ok(Some(future))
    }
}

impl ConstantReaderStream {
    /// The length of the next chunk: the rows that are left, or as many that an array can hold the
    /// others; nothing where no row is left.
    pub(crate) fn next_chunk_len(&self) -> (result: Option<usize>)
        ensures
            says(result, next_len(self.track())),
    {
        if self.remaining == 0 {
            None
        } else {
            Some(run_len(self.remaining))
        }
    }

    /// How many rows are left, or `n` where there are more.
    pub(crate) fn remaining_up_to(&self, n: usize) -> (result: usize)
        ensures
            result == up_to(rows_left(self.track()), n),
    {
        proof {
            let row = finished(expression_option(self.expression), Row::Constant(self.scalar));
            lemma_repeated(row, self.remaining as nat, 0);
        }
        if self.remaining < n as u64 {
            self.remaining as usize
        } else {
            n
        }
    }
}

/// The length of the first piece of a run of `n` equal rows.
pub(crate) fn run_len(n: u64) -> (result: usize)
    requires
        n > 0,
    ensures
        result == first_run(n as nat),
        0 < result <= n,
{
    proof {
        lemma_first_run(n as nat);
    }
    ((n - 1) % usize::MAX as u64 + 1) as usize
}

} // verus!
