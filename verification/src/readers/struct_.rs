//! A reader of structs.
use vstd::prelude::*;
use std::ops::Range;
use std::sync::Arc;
use crate::apply::{
    accepts_expression, all_resolved, applied, lemma_field_of, lemma_resolved_error,
    lemma_resolved_rank, rank, resolved,
};
use crate::display::{describe_struct, DisplayTree};
use crate::dtype::{lemma_position, names_view, DType, SpecDType};
use crate::error::{SpecError, VortexError, VortexResult};
use crate::expr::{
    expressions_view, field_expression, lemma_sizes, size, valid_expression, Expression, ScalarFn,
};
use crate::future::{lemma_total_estimate, ArrayFuture, ArrayPlan};
use crate::layout::{accepts_range, height, parts, readable, row_count, track, tracks, Layout};
use crate::reader::{
    lane_track, lane_tracks, layout_of, layout_result, layouts_of, opened, says, stream_dtype,
    stream_height, stream_ok, stream_uniform, struct_layout, track_of, up_to, Reader, ReaderRef,
    ReaderStream, ReaderStreamRef,
};
use crate::readers::constant::ConstantReader;
use crate::readers::lane::{
    aligned_len, aligned_up_to, lemma_parts, lemma_put_together, lemma_tallest_bound, next_aligned, open_lanes,
    skip_aligned, Lane,
};
use crate::readers::scalar_fn::{copy_readers, ScalarFnReader};
use crate::track::{head, lane_step, lane_steps, next_len, rows_left, struct_side, Outcome, Track};

verus! {

/// A reader of structs: of their fields, and of which of them are present where that is stored.
pub struct StructReader {
    pub(crate) row_count: u64,
    pub(crate) dtype: DType,
    pub(crate) validity: Option<ReaderRef>,
    pub(crate) fields: Vec<ReaderRef>,
}

impl View for StructReader {
    type V = Layout;

    open spec fn view(&self) -> Layout {
        struct_layout(*self)
    }
}

impl StructReader {
    /// A reader of structs from readers of their parts.
    pub fn new(
        row_count: u64,
        dtype: DType,
        validity: Option<ReaderRef>,
        fields: Vec<ReaderRef>,
    ) -> (result: StructReader)
        ensures
            result@ == (Layout::Struct {
                row_count,
                dtype: dtype@,
                validity: match validity {
                    Some(v) => Some(Box::new(v@)),
                    None => None,
                },
                fields: layouts_of(fields@),
            }),
    {
        StructReader { row_count, dtype, validity, fields }
    }
}

impl StructReader {
    /// A reader of an expression over the structs: the fields that it asks for are taken out of
    /// structs that cannot be null, and the functions of them are computed.
    fn resolve_expr(&self, expr: &Expression) -> (result: VortexResult<ReaderRef>)
        requires
            accepts_expression(struct_layout(*self)),
            valid_expression(expr@),
        ensures
            layout_result(result) == resolved(struct_layout(*self), expr@),
        decreases rank(struct_layout(*self)), size(expr@), 0nat,
    {
        let ghost l = struct_layout(*self);
        match expr.scalar_fn() {
            ScalarFn::Root => {
                let validity = match &self.validity {
                    Some(validity) => Some(validity.clone()),
                    None => None,
                };
                return Ok(
                    ReaderRef::Struct(
                        Arc::new(
                            StructReader {
                                row_count: self.row_count,
                                dtype: self.dtype.clone(),
                                validity,
                                fields: copy_readers(&self.fields),
                            },
                        ),
                    ),
                );
            },
            ScalarFn::Literal(scalar) => {
                return Ok(
                    ReaderRef::Constant(
                        Arc::new(ConstantReader::new(scalar.clone(), self.row_count)),
                    ),
                );
            },
            _ => {},
        }
        let ghost exprs = expressions_view(expr.children@);
        let mut children: Vec<ReaderRef> = Vec::new();
        let mut i: usize = 0;
        proof {
            assert(exprs.take(0) =~= Seq::empty());
            assert(layouts_of(children@) =~= Seq::empty());
        }
        while i < expr.children.len()
            invariant
                i <= expr.children@.len(),
                l == struct_layout(*self),
                exprs == expressions_view(expr.children@),
                accepts_expression(l),
                valid_expression(expr@),
                all_resolved(l, exprs.take(i as int)) == Ok::<Seq<Layout>, SpecError>(
                    layouts_of(children@),
                ),
                children@.len() == i,
            decreases expr.children.len() - i,
        {
            proof {
                let next = exprs.take(i + 1);
                assert(next.drop_last() =~= exprs.take(i as int));
                assert(next.last() == exprs[i as int]);
                assert(exprs[i as int] == expr.children@[i as int]@);
                assert(valid_expression(expr@.children[i as int]));
                lemma_sizes(exprs, i as int);
            }
            let ghost before = layouts_of(children@);
            match self.resolve_expr(&expr.children[i]) {
                Ok(child) => {
                    children.push(child);
                    assert(layouts_of(children@) =~= before.push(child@));
                },
                Err(error) => {
                    proof {
                        lemma_resolved_error(l, exprs, i as int);
                    }
                    return Err(error);
                },
            }
            i = i + 1;
        }
        assert(exprs.take(exprs.len() as int) =~= exprs);
        match expr.scalar_fn() {
            ScalarFn::GetItem(name) => {
                proof {
                    assert(valid_expression(exprs[0]));
                    assert(exprs.drop_last() =~= Seq::empty());
                    assert(exprs.last() == exprs[0]);
                    reveal_with_fuel(all_resolved, 2);
                    assert(layouts_of(children@)[0] == layout_of(children@[0]));
                    assert(resolved(l, exprs[0]) == Ok::<Layout, SpecError>(
                        layouts_of(children@)[0],
                    ));
                    lemma_resolved_rank(l, exprs[0]);
                    lemma_field_of(layouts_of(children@)[0], name@);
                }
                match &children[0] {
                    ReaderRef::Struct(child) => {
                        match child.dtype.as_struct_fields_opt() {
                            Some(fields) => match fields.find(name) {
                                Some(i) => {
                                    proof {
                                        lemma_position(names_view(fields.spec_names()), name@);
                                        assert(layouts_of(child.fields@)[i as int] == layout_of(
                                            child.fields@[i as int],
                                        ));
                                        assert(layouts_of(children@) =~= seq![layout_of(
                                            children@[0],
                                        )]);
                                    }
                                    if child.validity.is_none() && !child.dtype.is_nullable() {
                                        return Ok(child.fields[i].clone());
                                    }
                                    let count = child.row_count;
                                    match ScalarFnReader::try_new(
                                        ScalarFn::GetItem(name.clone()),
                                        children,
                                        count,
                                    ) {
                                        Ok(reader) => Ok(ReaderRef::ScalarFn(Arc::new(reader))),
                                        Err(error) => Err(error),
                                    }
                                },
                                None => Err(VortexError::FieldNotFound(name.clone())),
                            },
                            None => Err(VortexError::ExpectedStruct),
                        }
                    },
                    child => {
                        let field = Expression::get_item(name.clone(), Expression::root());
                        assert(field@ =~= field_expression(name@));
                        child.with_expression(&field)
                    },
                }
            },
            function => match ScalarFnReader::try_new(function.clone(), children, self.row_count) {
                Ok(reader) => Ok(ReaderRef::ScalarFn(Arc::new(reader))),
                Err(error) => Err(error),
            },
        }
    }
}

impl StructReader {
    /// A reader of an expression over the rows.
    pub(crate) fn with_expression(&self, expression: &Expression) -> (result: VortexResult<
        ReaderRef,
    >)
        requires
            accepts_expression(struct_layout(*self)),
            valid_expression(expression@),
        ensures
            layout_result(result) == applied(struct_layout(*self), expression@),
        decreases rank(struct_layout(*self)), size(expression@), 1nat,
    {
        self.resolve_expr(expression)
    }

    /// A stream of the rows of a range.
    pub(crate) fn open(&self, row_range: Range<u64>) -> (result: VortexResult<ReaderStreamRef>)
        requires
            readable(struct_layout(*self)),
            accepts_range(struct_layout(*self), row_range.start, row_range.end),
        ensures
            opened(struct_layout(*self), row_range.start, row_range.end, result),
        decreases height(struct_layout(*self)), 0nat,
    {
        let ghost fields = layouts_of(self.fields@);
        let ghost (start, end) = (row_range.start, row_range.end);
        let mut lanes: Vec<Lane> = Vec::new();
        match &self.validity {
            Some(validity) => {
                match validity.open(row_range.start..row_range.end) {
                    Ok(stream) => {
                        lanes.push(Lane::new(stream));
                    },
                    Err(error) => {
                        return Err(error);
                    },
                }
            },
            None => {},
        }
        let ghost first = lanes@;
        match open_lanes(&self.fields, row_range, lanes) {
            Ok(lanes) => {
                let has_validity = self.validity.is_some();
                let stream = ReaderStreamRef::Struct(
                    StructReaderStream { dtype: self.dtype.clone(), has_validity, parts: lanes },
                );
                proof {
                    let validity = struct_layout(*self)->Struct_validity;
                    let goal = track(struct_layout(*self), start as nat, end as nat)->lanes;
                    assert(tracks(fields, start as nat, end as nat).len() == fields.len());
                    assert(goal.len() == first.len() + fields.len());
                    assert forall|i: int| 0 <= i < lanes@.len() implies lane_tracks(lanes@)[i]
                        == goal[i] by {
                        if i < first.len() {
                            assert(lanes@[i] == first[i]);
                        } else {
                            assert(lane_track(lanes@[i]) == tracks(
                                fields,
                                start as nat,
                                end as nat,
                            )[i - first.len()]);
                        }
                    }
                    assert(lane_tracks(lanes@) =~= goal);
                    assert forall|i: int| 0 <= i < lanes@.len() implies stream_height(
                        (#[trigger] lanes@[i]).stream,
                    ) <= height(struct_layout(*self)) - 1 by {
                        if i < first.len() {
                            assert(lanes@[i] == first[i]);
                        }
                    }
                    lemma_tallest_bound(lanes@, (height(struct_layout(*self)) - 1) as nat);
                }
                Ok(stream)
            },
            Err(error) => Err(error),
        }
    }
}

impl Reader for StructReader {
    open spec fn layout(&self) -> Layout {
        struct_layout(*self)
    }

    fn dtype(&self) -> &DType {
        &self.dtype
    }

    fn row_count(&self) -> u64 {
        self.row_count
    }

    fn apply(&self, expression: &Expression) -> VortexResult<ReaderRef> {
        self.with_expression(expression)
    }

    fn execute(&self, row_range: Range<u64>) -> VortexResult<ReaderStreamRef> {
        self.open(row_range)
    }

    fn display_tree(&self) -> DisplayTree {
        describe_struct(self)
    }
}

/// A stream of structs; the first part says which of them are present where that is stored.
pub struct StructReaderStream {
    pub(crate) dtype: DType,
    pub(crate) has_validity: bool,
    pub(crate) parts: Vec<Lane>,
}

impl ReaderStream for StructReaderStream {
    open spec fn track(&self) -> Track {
        track_of(ReaderStreamRef::Struct(*self))
    }

    open spec fn spec_dtype(&self) -> SpecDType {
        stream_dtype(ReaderStreamRef::Struct(*self))
    }

    open spec fn uniform(&self) -> bool {
        stream_uniform(ReaderStreamRef::Struct(*self))
    }

    open spec fn valid(&self) -> bool {
        stream_ok(ReaderStreamRef::Struct(*self))
    }

    open spec fn rank(&self) -> nat {
        stream_height(ReaderStreamRef::Struct(*self))
    }

    fn dtype(&self) -> &DType {
        &self.dtype
    }

    fn skip(&mut self, n: usize)
        decreases old(self).rank(), 1nat,
    {
        if n == 0 {
            return;
        }
        skip_aligned(&mut self.parts, n);
    }

    fn next_chunk(&mut self) -> (result: VortexResult<Option<ArrayFuture>>)
        ensures
            result matches Ok(Some(future)) ==> future.spec_plan() matches ArrayPlan::Struct {
                dtype,
                parts,
                len,
                ..
            } && old(self).track() matches Track::Side { lanes, .. } && {
                &&& dtype@ == old(self).spec_dtype()
                &&& parts@.len() == lanes.len()
                &&& forall|j: int|
                    #![trigger parts@[j]]
                    #![trigger lanes[j]]
                    0 <= j < parts@.len() ==> {
                        &&& lane_step(lanes[j]).0 is Rows
                        &&& len <= lane_step(lanes[j]).0->Rows_0.rows.len()
                        &&& parts@[j].rows() == lane_step(lanes[j]).0->Rows_0.rows.take(
                            len as int,
                        )
                    }
                &&& exists|j: int|
                    0 <= j < lanes.len() && len == lane_step(#[trigger] lanes[j]).0->Rows_0.rows.len()
            },
        decreases old(self).rank(), 1nat,
    {
        let ghost lanes = lane_tracks(self.parts@);
        let ghost steps = lane_steps(lanes);
        let ghost join = struct_side(self.dtype@, self.has_validity);
        match next_aligned(&mut self.parts) {
            Ok(Some((parts, n))) => {
                if self.dtype.as_struct_fields_opt().is_none() {
                    return Err(VortexError::ExpectedStruct);
                }
                let future = ArrayFuture::structs(self.dtype.clone(), self.has_validity, parts, n);
                proof {
                    lemma_total_estimate(
                        parts@,
                        Seq::new(steps.len(), |j: int| head(steps[j].0->Rows_0, n as nat).bytes),
                    );
                    lemma_put_together(future.rows(), parts@, steps, join, n as nat);
                    lemma_parts(parts@, lanes, n as nat);
                }
                Ok(Some(future))
            },
            Ok(None) => Ok(None),
            Err(error) => Err(error),
        }
    }
}

impl StructReaderStream {
    /// The length of the next chunk, or nothing where no row is left.
    pub(crate) fn next_chunk_len(&self) -> (result: Option<usize>)
        requires
            self.valid(),
        ensures
            says(result, next_len(self.track())),
        decreases self.rank(), 1nat,
    {
        aligned_len(&self.parts)
    }

    /// How many rows are left, or `n` where there are more.
    pub(crate) fn remaining_up_to(&self, n: usize) -> (result: usize)
        requires
            self.valid(),
        ensures
            result == up_to(rows_left(self.track()), n),
        decreases self.rank(), 1nat,
    {
        aligned_up_to(&self.parts, n)
    }
}

} // verus!
