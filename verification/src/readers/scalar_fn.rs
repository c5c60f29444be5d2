//! A reader of a scalar function's results.
use vstd::prelude::*;
use std::ops::Range;
use std::sync::Arc;
use crate::apply::{
    accepts_expression, all_wrapped, applied, called, dtypes_of, lemma_wrapped_error, rank,
};
use crate::array::Array;
use crate::display::{describe_scalar_fn, DisplayTree};
use crate::dtype::{dtypes_view, DType, SpecDType};
use crate::error::{SpecError, VortexResult};
use crate::expr::{
    accepts, expressions_view, lemma_sizes, size, typing, valid_expression, ExecutionArgs,
    Expression, ScalarFn, SpecScalarFn, VTable, VTableExt,
};
use crate::future::{ArrayFuture, ArrayPlan};
use crate::layout::{accepts_range, dtype_of, height, readable, row_count, track, tracks, Layout};
use crate::reader::{
    lane_tracks, layout_of, layout_result, layouts_of, opened, says, scalar_fn_layout, stream_dtype,
    stream_height, stream_ok, stream_uniform, track_of, up_to, Reader, ReaderRef, ReaderStream,
    ReaderStreamRef,
};
use crate::readers::constant::ConstantReader;
use crate::readers::lane::{
    aligned_len, aligned_up_to, lemma_parts, lemma_put_together, lemma_tallest_bound, next_aligned, open_lanes,
    skip_aligned, Lane,
};
use crate::track::{call_side, lane_step, lane_steps, next_len, rows_left, Outcome, Track};

verus! {

/// A reader of the results of a scalar function of the rows of other readers.
pub struct ScalarFnReader {
    pub(crate) scalar_fn: ScalarFn,
    pub(crate) dtype: DType,
    pub(crate) row_count: u64,
    pub(crate) children: Vec<ReaderRef>,
}

impl View for ScalarFnReader {
    type V = Layout;

    open spec fn view(&self) -> Layout {
        scalar_fn_layout(*self)
    }
}

impl ScalarFnReader {
    /// A reader of the results of a function of the rows of other readers, or the error of finding
    /// their type.
    pub fn try_new(scalar_fn: ScalarFn, children: Vec<ReaderRef>, row_count: u64) -> (result:
        VortexResult<ScalarFnReader>)
        requires
            accepts(scalar_fn@, children@.len()),
        ensures
            match result {
                Ok(reader) => called(scalar_fn@, layouts_of(children@), row_count) == Ok::<
                    Layout,
                    SpecError,
                >(reader@),
                Err(error) => called(scalar_fn@, layouts_of(children@), row_count) == Err::<
                    Layout,
                    SpecError,
                >(error@),
            },
    {
        let ghost layouts = layouts_of(children@);
        let mut dtypes: Vec<DType> = Vec::new();
        let mut i: usize = 0;
        while i < children.len()
            invariant
                i <= children@.len(),
                layouts == layouts_of(children@),
                dtypes@.len() == i,
                forall|j: int|
                    0 <= j < i ==> (#[trigger] dtypes@[j])@ == dtype_of(layouts[j]),
            decreases children.len() - i,
        {
            assert(layouts[i as int] == layout_of(children@[i as int]));
            dtypes.push(children[i].row_dtype().clone());
            i = i + 1;
        }
        assert(dtypes_view(dtypes@) =~= dtypes_of(layouts));
        match scalar_fn.return_dtype(&dtypes) {
            Ok(dtype) => Ok(ScalarFnReader { scalar_fn, dtype, row_count, children }),
            Err(error) => Err(error),
        }
    }

    /// The function.
    pub fn scalar_fn(&self) -> (result: &ScalarFn)
        ensures
            self@ matches Layout::ScalarFn { function, .. } && result@ == function,
    {
        &self.scalar_fn
    }
}

/// The same readers, shared once more.
pub(crate) fn copy_readers(readers: &Vec<ReaderRef>) -> (result: Vec<ReaderRef>)
    ensures
        result@ == readers@,
{
    let mut result: Vec<ReaderRef> = Vec::new();
    let mut i: usize = 0;
    while i < readers.len()
        invariant
            i <= readers@.len(),
            result@ == readers@.take(i as int),
        decreases readers.len() - i,
    {
        result.push(readers[i].clone());
        assert(readers@.take(i + 1) =~= readers@.take(i as int).push(readers@[i as int]));
        i = i + 1;
    }
    assert(readers@.take(readers@.len() as int) =~= readers@);
    result
}

impl ScalarFnReader {
    /// A reader of an expression over the rows.
    pub(crate) fn with_expression(&self, expression: &Expression) -> (result: VortexResult<
        ReaderRef,
    >)
        requires
            accepts_expression(scalar_fn_layout(*self)),
            valid_expression(expression@),
        ensures
            layout_result(result) == applied(scalar_fn_layout(*self), expression@),
        decreases rank(scalar_fn_layout(*self)), size(expression@), 1nat,
    {
        match expression.scalar_fn() {
            ScalarFn::Root => {
                return Ok(
                    ReaderRef::ScalarFn(
                        Arc::new(
                            ScalarFnReader {
                                scalar_fn: self.scalar_fn.clone(),
                                dtype: self.dtype.clone(),
                                row_count: self.row_count,
                                children: copy_readers(&self.children),
                            },
                        ),
                    ),
                );
            },
            ScalarFn::Literal(scalar) => {
                return Ok(
                    ReaderRef::Constant(
                        Arc::new(ConstantReader::new(scalar.clone(), self.row_count)),
                    ),
                );
            },
            _ => {},
        }
        let ghost l = scalar_fn_layout(*self);
        let ghost exprs = expressions_view(expression.children@);
        let mut children: Vec<ReaderRef> = Vec::new();
        let mut i: usize = 0;
        proof {
            assert(exprs.take(0) =~= Seq::empty());
            assert(layouts_of(children@) =~= Seq::empty());
        }
        while i < expression.children.len()
            invariant
                i <= expression.children@.len(),
                l == scalar_fn_layout(*self),
                exprs == expressions_view(expression.children@),
                valid_expression(expression@),
                all_wrapped(l, exprs.take(i as int)) == Ok::<Seq<Layout>, SpecError>(
                    layouts_of(children@),
                ),
                children@.len() == i,
            decreases expression.children.len() - i,
        {
            proof {
                let next = exprs.take(i + 1);
                assert(next.drop_last() =~= exprs.take(i as int));
                assert(next.last() == exprs[i as int]);
                assert(exprs[i as int] == expression.children@[i as int]@);
                assert(valid_expression(expression@.children[i as int]));
                lemma_sizes(exprs, i as int);
            }
            let ghost before = layouts_of(children@);
            match self.with_expression(&expression.children[i]) {
                Ok(child) => {
                    children.push(child);
                    assert(layouts_of(children@) =~= before.push(child@));
                },
                Err(error) => {
                    proof {
                        lemma_wrapped_error(l, exprs, i as int);
                    }
                    return Err(error);
                },
            }
            i = i + 1;
        }
        assert(exprs.take(exprs.len() as int) =~= exprs);
        match ScalarFnReader::try_new(expression.scalar_fn().clone(), children, self.row_count) {
            Ok(reader) => Ok(ReaderRef::ScalarFn(Arc::new(reader))),
            Err(error) => Err(error),
        }
    }

    /// A stream of the rows of a range.
    pub(crate) fn open(&self, row_range: Range<u64>) -> (result: VortexResult<ReaderStreamRef>)
        requires
            readable(scalar_fn_layout(*self)),
            accepts_range(scalar_fn_layout(*self), row_range.start, row_range.end),
        ensures
            opened(scalar_fn_layout(*self), row_range.start, row_range.end, result),
        decreases height(scalar_fn_layout(*self)), 0nat,
    {
        let ghost children = layouts_of(self.children@);
        let ghost (start, end) = (row_range.start, row_range.end);
        match open_lanes(&self.children, row_range, Vec::new()) {
            Ok(lanes) => {
                let stream = ReaderStreamRef::ScalarFn(
                    ScalarFnArrayStream {
                        dtype: self.dtype.clone(),
                        scalar_fn: self.scalar_fn.clone(),
                        inputs: lanes,
                    },
                );
                proof {
                    assert(lane_tracks(lanes@) =~= tracks(children, start as nat, end as nat));
                    lemma_tallest_bound(lanes@, (height(scalar_fn_layout(*self)) - 1) as nat);
                }
                Ok(stream)
            },
            Err(error) => Err(error),
        }
    }
}

impl Reader for ScalarFnReader {
    open spec fn layout(&self) -> Layout {
        scalar_fn_layout(*self)
    }

    fn dtype(&self) -> &DType {
        &self.dtype
    }

    fn row_count(&self) -> u64 {
        self.row_count
    }

    fn apply(&self, expression: &Expression) -> VortexResult<ReaderRef> {
        self.with_expression(expression)
    }

    fn execute(&self, row_range: Range<u64>) -> VortexResult<ReaderStreamRef> {
        self.open(row_range)
    }

    fn display_tree(&self) -> DisplayTree {
        describe_scalar_fn(self)
    }
}

/// Readers of the results of a kind of scalar function.
pub trait ScalarFnReaderExt: VTable {
    /// A reader of the results of the function with the given options of the rows of other readers,
    /// or the error of finding their type.
    fn new_reader(self, options: Self::Options, children: Vec<ReaderRef>, row_count: u64) -> (result:
        VortexResult<ReaderRef>) where Self: 'static, Self::Options: 'static
        requires
            self.spec_arity(&options).takes(children@.len()),
        ensures
            match self.spec_typing(&options, dtypes_of(layouts_of(children@))) {
                Ok(dtype) => result matches Ok(reader) && reader@ matches Layout::ScalarFn {
                    function,
                    dtype: own,
                    row_count: count,
                    children: layouts,
                } && {
                    &&& own == dtype
                    &&& count == row_count
                    &&& layouts == layouts_of(children@)
                    &&& function matches SpecScalarFn::Bound(object) && {
                        &&& object.spec_id() == self.spec_id()
                        &&& forall|args: ExecutionArgs, value: VortexResult<Array>| #[trigger]
                            object.computes(args, value) == self.spec_computes(
                                &options,
                                args,
                                value,
                            )
                    }
                    &&& forall|args: Seq<SpecDType>|
                        #[trigger] typing(function, args) == self.spec_typing(&options, args)
                },
                Err(error) => result matches Err(own) && own@ == error,
            },
    {
        let function = self.bind(options);
        assert(accepts(function@, children@.len()));
        match ScalarFnReader::try_new(function, children, row_count) {
            Ok(reader) => Ok(ReaderRef::ScalarFn(Arc::new(reader))),
            Err(error) => Err(error),
        }
    }
}

impl<V: VTable> ScalarFnReaderExt for V {

}

/// A stream of the results of a scalar function.
pub struct ScalarFnArrayStream {
    pub(crate) dtype: DType,
    pub(crate) scalar_fn: ScalarFn,
    pub(crate) inputs: Vec<Lane>,
}

impl ReaderStream for ScalarFnArrayStream {
    open spec fn track(&self) -> Track {
        track_of(ReaderStreamRef::ScalarFn(*self))
    }

    open spec fn spec_dtype(&self) -> SpecDType {
        stream_dtype(ReaderStreamRef::ScalarFn(*self))
    }

    open spec fn uniform(&self) -> bool {
        stream_uniform(ReaderStreamRef::ScalarFn(*self))
    }

    open spec fn valid(&self) -> bool {
        stream_ok(ReaderStreamRef::ScalarFn(*self))
    }

    open spec fn rank(&self) -> nat {
        stream_height(ReaderStreamRef::ScalarFn(*self))
    }

    fn dtype(&self) -> &DType {
        &self.dtype
    }

    fn skip(&mut self, n: usize)
        decreases old(self).rank(), 1nat,
    {
        if n == 0 {
            return;
        }
        skip_aligned(&mut self.inputs, n);
    }

    fn next_chunk(&mut self) -> (result: VortexResult<Option<ArrayFuture>>)
        ensures
            result matches Ok(Some(future)) ==> future.spec_plan() matches ArrayPlan::ScalarFn {
                dtype,
                inputs,
                len,
                ..
            } && old(self).track() matches Track::Side { lanes, .. } && {
                &&& dtype@ == old(self).spec_dtype()
                &&& inputs@.len() == lanes.len()
                &&& forall|j: int|
                    #![trigger inputs@[j]]
                    #![trigger lanes[j]]
                    0 <= j < inputs@.len() ==> {
                        &&& lane_step(lanes[j]).0 is Rows
                        &&& len <= lane_step(lanes[j]).0->Rows_0.rows.len()
                        &&& inputs@[j].rows() == lane_step(lanes[j]).0->Rows_0.rows.take(
                            len as int,
                        )
                    }
                &&& exists|j: int|
                    0 <= j < lanes.len() && len == lane_step(#[trigger] lanes[j]).0->Rows_0.rows.len()
            },
        decreases old(self).rank(), 1nat,
    {
        let ghost lanes = lane_tracks(self.inputs@);
        let ghost steps = lane_steps(lanes);
        let ghost join = call_side(self.scalar_fn@, self.dtype@);
        match next_aligned(&mut self.inputs) {
            Ok(Some((inputs, n))) => {
                let future = ArrayFuture::calls(
                    self.dtype.clone(),
                    self.scalar_fn.clone(),
                    inputs,
                    n,
                );
                proof {
                    lemma_put_together(future.rows(), inputs@, steps, join, n as nat);
                    lemma_parts(inputs@, lanes, n as nat);
                }
                Ok(Some(future))
            },
            Ok(None) => Ok(None),
            Err(error) => Err(error),
        }
    }
}

impl ScalarFnArrayStream {
    /// The length of the next chunk, or nothing where no row is left.
    pub(crate) fn next_chunk_len(&self) -> (result: Option<usize>)
        requires
            self.valid(),
        ensures
            says(result, next_len(self.track())),
        decreases self.rank(), 1nat,
    {
        aligned_len(&self.inputs)
    }

    /// How many rows are left, or `n` where there are more.
    pub(crate) fn remaining_up_to(&self, n: usize) -> (result: usize)
        requires
            self.valid(),
        ensures
            result == up_to(rows_left(self.track()), n),
        decreases self.rank(), 1nat,
    {
        aligned_up_to(&self.inputs, n)
    }
}

} // verus!
