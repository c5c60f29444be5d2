//! Scans: rows of a reader, projected, filtered, selected and limited.
//!
//! A scan asks for chunks of its projection one at a time. Each request comes with the chunk of the
//! filter over the same rows, where there is a filter, and with the rows that are selected. Whoever
//! drives the scan computes the arrays, keeps the rows that the mask wants and says how many they
//! were.
use vstd::prelude::*;
use std::ops::Range;
use crate::apply::{
    accepts_expression, applied, evaluation, has_arguments, law_applied_range, law_applied_type,
    law_applied_well_formed, lemma_accepts_expression, lemma_typed_uniform, typed,
};
use crate::cells::clean;
use crate::chunks::{flat, lemma_dropped};
use crate::dtype::{DType, SpecDType};
use crate::error::{SpecError, VortexResult};
use crate::expr::{expression_type, root_expression, valid_expression, Expression, SpecExpression};
use crate::future::{expression_option, ArrayFuture};
use crate::layout::{
    accepts_range, dtype_of, law_pieces, law_row_count, law_track, lemma_accepts_range,
    lemma_counted, lemma_readable, open_error, pieces, readable, row_count, rows, track,
    well_formed, Layout,
};
use crate::mask::{count_true, Mask};
use crate::reader::{lane_ok, lane_track, lemma_lane_solid, stream_dtype, Reader, ReaderRef};
use crate::readers::flat::MaskedRead;
use crate::readers::lane::{lane_uniform, Lane};
use crate::row::{evaluated, Row};
use crate::selection::{selected, Selection};
use crate::track::{
    chunks_of, even, lane_chunks, lane_left, lane_len, lane_read, lane_skipped, lane_solid,
    law_read, lemma_lane, lemma_lane_skipped, solid, LaneTrack, Outcome,
};

verus! {

/// `vortex_session::VortexSession`, the session that a scan runs in.
#[verifier::external_type_specification]
#[verifier::external_body]
pub struct ExVortexSession(vortex_session::VortexSession);

/// What a scan is to read.
pub struct ScanBuilder2 {
    reader: ReaderRef,
    projection: Expression,
    filter: Option<Expression>,
    limit: Option<u64>,
    row_range: Range<u64>,
    row_selection: Selection,
    session: vortex_session::VortexSession,
}

/// The mathematical value of a [`ScanBuilder2`].
pub struct ScanPlan {
    pub layout: Layout,
    pub projection: SpecExpression,
    pub filter: Option<SpecExpression>,
    pub limit: Option<u64>,
    pub start: u64,
    pub end: u64,
    pub selection: Selection,
    pub session: vortex_session::VortexSession,
}

impl View for ScanBuilder2 {
    type V = ScanPlan;

    closed spec fn view(&self) -> ScanPlan {
        ScanPlan {
            layout: self.reader@,
            projection: self.projection@,
            filter: expression_option(self.filter),
            limit: self.limit,
            start: self.row_range.start,
            end: self.row_range.end,
            selection: self.row_selection,
            session: self.session,
        }
    }
}

/// The layout of an expression can be read over a range, where there is such a layout.
pub open spec fn can_read(l: Layout, e: SpecExpression, start: u64, end: u64) -> bool {
    &&& valid_expression(e)
    &&& applied(l, e) matches Ok(result) ==> {
        &&& readable(result)
        &&& accepts_range(result, start, end)
    }
}

/// Why a scan cannot be opened: the type of the projection is looked for first, the filter and the
/// projection are pushed into the reader next, and last both are opened.
pub open spec fn scan_error(plan: ScanPlan) -> Option<SpecError> {
    let l = plan.layout;
    let (start, end) = (plan.start, plan.end);
    match expression_type(plan.projection, dtype_of(l)) {
        Err(error) => Some(error),
        Ok(_) => match plan.filter {
            Some(filter) => match (applied(l, filter), applied(l, plan.projection)) {
                (Err(error), _) => Some(error),
                (_, Err(error)) => Some(error),
                (Ok(f), Ok(p)) => match open_error(f, start, end) {
                    Some(error) => Some(error),
                    None => open_error(p, start, end),
                },
            },
            None => match applied(l, plan.projection) {
                Err(error) => Some(error),
                Ok(p) => open_error(p, start, end),
            },
        },
    }
}

/// The state of a scan before anything is read.
pub open spec fn initial(plan: ScanPlan) -> ScanState {
    let read = |e: SpecExpression|
        LaneTrack {
            ahead: None,
            track: track(applied(plan.layout, e)->Ok_0, plan.start as nat, plan.end as nat),
        };
    ScanState {
        projection: read(plan.projection),
        filter: match plan.filter {
            Some(filter) => Some(read(filter)),
            None => None,
        },
        limit: plan.limit,
        produced: 0,
        offset: 0,
        selection: plan.selection,
    }
}

impl ScanBuilder2 {
    /// A scan of all rows of a reader.
    pub fn new(reader: ReaderRef, session: vortex_session::VortexSession) -> (result: ScanBuilder2)
        ensures
            result@ == (ScanPlan {
                layout: reader@,
                projection: root_expression(),
                filter: None,
                limit: None,
                start: 0,
                end: row_count(reader@),
                selection: Selection::All,
                session,
            }),
    {
        let row_range = 0..reader.row_count();
        ScanBuilder2 {
            reader,
            projection: Expression::root(),
            filter: None,
            limit: None,
            row_range,
            row_selection: Selection::All,
            session,
        }
    }

    /// The scan of the rows for which the filter is true.
    pub fn with_filter(self, filter: Expression) -> (result: ScanBuilder2)
        ensures
            result@ == (ScanPlan { filter: Some(filter@), ..self@ }),
    {
        ScanBuilder2 { filter: Some(filter), ..self }
    }

    /// The scan of the rows for which the filter is true, or of all where there is none.
    pub fn with_some_filter(self, filter: Option<Expression>) -> (result: ScanBuilder2)
        ensures
            result@ == (ScanPlan { filter: expression_option(filter), ..self@ }),
    {
        ScanBuilder2 { filter, ..self }
    }

    /// The scan of an expression over the rows.
    pub fn with_projection(self, projection: Expression) -> (result: ScanBuilder2)
        ensures
            result@ == (ScanPlan { projection: projection@, ..self@ }),
    {
        ScanBuilder2 { projection, ..self }
    }

    /// The scan of at most so many rows.
    pub fn with_limit(self, limit: u64) -> (result: ScanBuilder2)
        ensures
            result@ == (ScanPlan { limit: Some(limit), ..self@ }),
    {
        ScanBuilder2 { limit: Some(limit), ..self }
    }

    /// The scan of the rows of a range.
    pub fn with_row_range(self, row_range: Range<u64>) -> (result: ScanBuilder2)
        ensures
            result@ == (ScanPlan { start: row_range.start, end: row_range.end, ..self@ }),
    {
        ScanBuilder2 { row_range, ..self }
    }

    /// The scan of the rows of a selection (relative to the row range).
    pub fn with_row_selection(self, row_selection: Selection) -> (result: ScanBuilder2)
        ensures
            result@ == (ScanPlan { selection: row_selection, ..self@ }),
    {
        ScanBuilder2 { row_selection, ..self }
    }

    /// The scan of the rows at the given positions (relative to the row range).
    pub fn with_row_indices(self, row_indices: vortex_buffer::Buffer<u64>) -> (result: ScanBuilder2)
        ensures
            result@ == (ScanPlan {
                selection: Selection::IncludeByIndex(row_indices),
                ..self@
            }),
    {
        ScanBuilder2 { row_selection: Selection::IncludeByIndex(row_indices), ..self }
    }

    /// Opens the scan. The projection and the filter are taken as they are given.
    pub fn into_array_stream(self) -> (result: VortexResult<Scan>)
        requires
            accepts_expression(self@.layout),
            can_read(self@.layout, self@.projection, self@.start, self@.end),
            self@.filter matches Some(filter) ==> can_read(
                self@.layout,
                filter,
                self@.start,
                self@.end,
            ),
        ensures
            match result {
                Ok(scan) => {
                    &&& scan_error(self@) is None
                    &&& scan.valid()
                    &&& scan@ == initial(self@)
                    &&& scan.spec_in_flight() is None
                    &&& typed(self@.layout) ==> scan.uniform()
                    &&& expression_type(self@.projection, dtype_of(self@.layout)) == Ok::<
                        SpecDType,
                        SpecError,
                    >(scan.spec_dtype())
                },
                Err(error) => scan_error(self@) == Some(error@),
            },
    {
        let ghost plan = self@;
        let dtype = match self.projection.return_dtype(self.reader.dtype()) {
            Ok(dtype) => dtype,
            Err(error) => {
                return Err(error);
            },
        };
        let filter_reader = match &self.filter {
            Some(filter) => match self.reader.apply(filter) {
                Ok(reader) => Some(reader),
                Err(error) => {
                    return Err(error);
                },
            },
            None => None,
        };
        let projection_reader = match self.reader.apply(&self.projection) {
            Ok(reader) => reader,
            Err(error) => {
                return Err(error);
            },
        };
        let filter = match filter_reader {
            Some(reader) => match reader.execute(self.row_range.start..self.row_range.end) {
                Ok(stream) => Some(Lane::new(stream)),
                Err(error) => {
                    return Err(error);
                },
            },
            None => None,
        };
        let projection = match projection_reader.execute(self.row_range) {
            Ok(stream) => Lane::new(stream),
            Err(error) => {
                return Err(error);
            },
        };
        proof {
            if typed(plan.layout) {
                law_applied_type(plan.layout, plan.projection);
                lemma_typed_uniform(projection_reader@);
            }
        }
        Ok(
            Scan {
                dtype,
                projection,
                filter,
                limit: self.limit,
                rows_produced: 0,
                row_selection: self.row_selection,
                row_offset: 0,
                in_flight: None,
            },
        )
    }
}

/// What a scan is still to read, and what it has produced.
pub struct ScanState {
    pub projection: LaneTrack,
    pub filter: Option<LaneTrack>,
    pub limit: Option<u64>,
    pub produced: nat,
    pub offset: nat,
    pub selection: Selection,
}

/// A scan that is open.
pub struct Scan {
    dtype: DType,
    projection: Lane,
    filter: Option<Lane>,
    limit: Option<u64>,
    rows_produced: u64,
    row_selection: Selection,
    row_offset: u64,
    in_flight: Option<usize>,
}

impl View for Scan {
    type V = ScanState;

    closed spec fn view(&self) -> ScanState {
        ScanState {
            projection: lane_track(self.projection),
            filter: match self.filter {
                Some(filter) => Some(lane_track(filter)),
                None => None,
            },
            limit: self.limit,
            produced: self.rows_produced as nat,
            offset: self.row_offset as nat,
            selection: self.row_selection,
        }
    }
}

impl Scan {
    /// The type of the arrays that the scan delivers.
    pub closed spec fn spec_dtype(&self) -> SpecDType {
        self.dtype@
    }

    /// The chunks of the projection are all of that type.
    pub closed spec fn uniform(&self) -> bool {
        lane_uniform(self.projection) && stream_dtype(self.projection.stream) == self.dtype@
    }

    /// The length of the chunk that was asked for last, where it is not complete.
    pub closed spec fn spec_in_flight(&self) -> Option<usize> {
        self.in_flight
    }

    /// The state is one that scanning leads to: what was produced, and what is asked for, is no more
    /// than what was passed over and than the limit.
    pub closed spec fn valid(&self) -> bool {
        let asked = match self.in_flight {
            Some(len) => len as nat,
            None => 0,
        };
        &&& lane_ok(self.projection)
        &&& self.filter matches Some(filter) ==> lane_ok(filter)
        &&& self.rows_produced + asked <= self.row_offset
        &&& self.limit matches Some(limit) ==> self.rows_produced + asked <= limit
    }
}

/// The limit is reached.
pub open spec fn exhausted(state: ScanState) -> bool {
    state.limit matches Some(limit) && state.produced >= limit
}

/// A number of rows, and no more than a limit leaves.
pub open spec fn at_most(n: nat, limit: Option<u64>, produced: nat) -> nat {
    match limit {
        Some(limit) => if produced + n > limit {
            (limit - produced) as nat
        } else {
            n
        },
        None => n,
    }
}

/// A number of rows, and no more than there are positions left to count.
pub open spec fn countable(n: nat, offset: nat) -> nat {
    if offset + n > u64::MAX {
        (u64::MAX - offset) as nat
    } else {
        n
    }
}

/// The length of the next chunk: that of the shorter of the next chunks of the projection and of the
/// filter, and no more than the limit leaves or than can be counted; nothing where one of them has no
/// row left or the limit is reached.
pub open spec fn chunk_len(state: ScanState) -> Option<nat> {
    let shorter = match (lane_len(state.projection), state.filter) {
        (Some(own), Some(filter)) => match lane_len(filter) {
            Some(other) => if other < own {
                Some(other)
            } else {
                Some(own)
            },
            None => None,
        },
        (own, _) => own,
    };
    match shorter {
        Some(n) => if exhausted(state) {
            None
        } else {
            Some(countable(at_most(n, state.limit, state.produced), state.offset))
        },
        None => None,
    }
}

/// Which of the next `n` rows are selected.
pub open spec fn wanted(state: ScanState, n: nat) -> Seq<bool> {
    Seq::new(n, |i: int| selected(state.selection, state.offset + i))
}

/// The state once the next `n` rows are passed over.
pub open spec fn advanced(state: ScanState, n: nat) -> ScanState {
    ScanState {
        projection: lane_skipped(state.projection, n),
        filter: match state.filter {
            Some(filter) => Some(lane_skipped(filter, n)),
            None => None,
        },
        offset: state.offset + n,
        ..state
    }
}

/// What a scan asks for: rows of the projection, the filter over them where there is one, and which
/// of them are selected.
pub struct SpecRequest {
    pub projection: Seq<Row>,
    pub filter: Option<Seq<Row>>,
    pub selection: Seq<bool>,
}

/// The request for the next `n` rows of the projection, with the filter over them, or the error of
/// reading them, and the state after it: the rows are passed over in the positions that are counted.
pub open spec fn projection_request(state: ScanState, n: nat, filter: Option<Seq<Row>>) -> (
    Result<Option<SpecRequest>, SpecError>,
    ScanState,
) {
    let (outcome, rest) = lane_read(state.projection, n);
    let after = ScanState { projection: rest, offset: state.offset + n, ..state };
    match outcome {
        Outcome::Rows(chunk) => (
            Ok(
                Some(
                    SpecRequest {
                        projection: chunk.rows,
                        filter,
                        selection: wanted(state, n),
                    },
                ),
            ),
            after,
        ),
        Outcome::Failed(error) => (Err(error), after),
        Outcome::Ended => (Ok(None), after),
    }
}

/// The request for the next `n` rows, or the error in its place, and the state after it. The filter is
/// read first: where it cannot be, the projection and the positions are left where they were.
pub open spec fn request(state: ScanState, n: nat) -> (
    Result<Option<SpecRequest>, SpecError>,
    ScanState,
) {
    match state.filter {
        Some(filter) => {
            let (outcome, rest) = lane_read(filter, n);
            let after = ScanState { filter: Some(rest), ..state };
            match outcome {
                Outcome::Rows(chunk) => projection_request(after, n, Some(chunk.rows)),
                Outcome::Failed(error) => (Err(error), after),
                Outcome::Ended => (Ok(None), after),
            }
        },
        None => projection_request(state, n, None),
    }
}

/// The next request, or the error in its place, and the state after it; chunks that no selected row
/// lies in are passed over without being read.
pub open spec fn next_request(state: ScanState) -> (
    Result<Option<SpecRequest>, SpecError>,
    ScanState,
)
    decreases lane_left(state.projection),
{
    match chunk_len(state) {
        Some(n) => if n == 0 {
            (Ok(None), state)
        } else if forall|i: int| 0 <= i < n ==> !#[trigger] wanted(state, n)[i] {
            let rest = advanced(state, n);
            if lane_left(rest.projection) < lane_left(state.projection) {
                next_request(rest)
            } else {
                (Ok(None), rest)
            }
        } else {
            request(state, n)
        },
        None => (Ok(None), state),
    }
}

/// No chunk that a scan is still to read is empty, and the positions can be counted.
pub open spec fn sound(state: ScanState) -> bool {
    &&& lane_solid(state.projection)
    &&& state.filter matches Some(filter) ==> lane_solid(filter)
    &&& state.offset <= u64::MAX
}

/// The next chunk is a part of the rows that are left.
pub proof fn lemma_advanced(state: ScanState, n: nat)
    requires
        sound(state),
        chunk_len(state) == Some(n),
    ensures
        lane_len(state.projection) matches Some(len) && n <= len,
        n <= lane_left(state.projection),
        sound(advanced(state, n)),
        lane_left(advanced(state, n).projection) + n == lane_left(state.projection),
        even(state.projection.track) ==> even(advanced(state, n).projection.track),
        flat(lane_chunks(advanced(state, n).projection)) == flat(
            lane_chunks(state.projection),
        ).skip(n as int),
        state.filter matches Some(filter) ==> {
            &&& lane_len(filter) matches Some(len) && n <= len
            &&& n <= lane_left(filter)
            &&& advanced(state, n).filter matches Some(rest) && flat(lane_chunks(rest)) == flat(
                lane_chunks(filter),
            ).skip(n as int) && (even(filter.track) ==> even(rest.track))
        },
        state.limit matches Some(limit) ==> state.produced + n <= limit,
{
    lemma_lane(state.projection);
    lemma_lane_skipped(state.projection, n);
    lemma_dropped(lane_chunks(state.projection), n);
    if let Some(filter) = state.filter {
        lemma_lane(filter);
        lemma_lane_skipped(filter, n);
        lemma_dropped(lane_chunks(filter), n);
    }
}

/// What a scan asks for next.
pub struct ScanRequest {
    pub projection: ArrayFuture,
    pub filter: Option<ArrayFuture>,
    pub selection: Mask,
}

impl View for ScanRequest {
    type V = SpecRequest;

    open spec fn view(&self) -> SpecRequest {
        SpecRequest {
            projection: self.projection.rows(),
            filter: match self.filter {
                Some(filter) => Some(filter.rows()),
                None => None,
            },
            selection: self.selection@,
        }
    }
}

impl ScanRequest {
    /// The mask of the rows that are selected and for which the filter, once it is computed, is
    /// true.
    pub fn mask(&self, filter: Option<&Vec<Option<bool>>>) -> (result: Mask)
        requires
            filter matches Some(values) ==> values@.len() == self.selection@.len(),
        ensures
            result@ == Seq::new(
                self.selection@.len(),
                |i: int|
                    self.selection@[i] && (filter matches Some(values) ==> values@[i] == Some(true)),
            ),
    {
        let ghost goal = Seq::new(
            self.selection@.len(),
            |i: int|
                self.selection@[i] && (filter matches Some(values) ==> values@[i] == Some(true)),
        );
        match filter {
            Some(values) => {
                let mask = Mask::from_values(values);
                if self.selection.all_true() {
                    assert(mask@ =~= goal) by {
                        assert forall|i: int| 0 <= i < goal.len() implies mask@[i] == goal[i] by {
                            assert(self.selection@[i]);
                        }
                    }
                    mask
                } else {
                    let both = mask.and(&self.selection);
                    assert(both@ =~= goal);
                    both
                }
            },
            None => {
                assert(self.selection@ =~= goal);
                self.selection.clone()
            },
        }
    }
}

impl ScanRequest {
    /// What is to be done once the mask is known: nothing is read where it wants no row, and the
    /// projection is where it wants one.
    pub fn resolve(&self, mask: &Mask, dtype: DType) -> (result: MaskedRead)
        ensures
            match result {
                MaskedRead::Empty(own) => count_true(mask@) == 0 && own == dtype,
                MaskedRead::Read(future) => count_true(mask@) > 0 && future == self.projection,
            },
    {
        if mask.true_count() == 0 {
            MaskedRead::Empty(dtype)
        } else {
            MaskedRead::Read(self.projection.clone())
        }
    }
}

impl Scan {
    /// The type of the arrays that the scan delivers.
    pub fn dtype(&self) -> (result: &DType)
        ensures
            result@ == self.spec_dtype(),
    {
        &self.dtype
    }

    /// The next request, nothing where the scan has ended, or the error of reading the next rows.
    pub fn next_request(&mut self) -> (result: VortexResult<Option<ScanRequest>>)
        requires
            old(self).valid(),
            old(self).spec_in_flight() is None,
        ensures
            final(self).valid(),
            final(self).spec_dtype() == old(self).spec_dtype(),
            old(self).uniform() ==> final(self).uniform(),
            final(self)@ == next_request(old(self)@).1,
            match result {
                Ok(Some(asked)) => {
                    &&& next_request(old(self)@).0 == Ok::<Option<SpecRequest>, SpecError>(
                        Some(asked@),
                    )
                    &&& asked@.projection.len() == asked@.selection.len()
                    &&& old(self).uniform() ==> asked.projection.spec_dtype()
                        == old(self).spec_dtype()
                    &&& final(self).spec_in_flight() matches Some(len) && len
                        == asked@.projection.len()
                },
                Ok(None) => {
                    &&& next_request(old(self)@).0 == Ok::<Option<SpecRequest>, SpecError>(None)
                    &&& final(self).spec_in_flight() is None
                },
                Err(error) => {
                    &&& next_request(old(self)@).0 == Err::<Option<SpecRequest>, SpecError>(error@)
                    &&& final(self).spec_in_flight() is None
                },
            },
    {
        loop
            invariant
                self.valid(),
                self.in_flight is None,
                self.spec_dtype() == old(self).spec_dtype(),
                old(self).uniform() ==> self.uniform(),
                next_request(self@) == next_request(old(self)@),
            decreases lane_left(self@.projection),
        {
            let ghost state = self@;
            proof {
                lemma_lane_solid(self.projection);
                if self.filter is Some {
                    lemma_lane_solid(self.filter->0);
                }
            }
            match self.limit {
                Some(limit) => {
                    if self.rows_produced >= limit {
                        assert(chunk_len(state) is None);
                        return Ok(None);
                    }
                },
                None => {},
            }
            let mut len: usize = match self.projection.next_chunk_len() {
                Some(len) => len,
                None => {
                    assert(chunk_len(state) is None);
                    return Ok(None);
                },
            };
            match &self.filter {
                Some(filter) => {
                    match filter.next_chunk_len() {
                        Some(other) => {
                            if other < len {
                                len = other;
                            }
                        },
                        None => {
                            assert(chunk_len(state) is None);
                            return Ok(None);
                        },
                    }
                },
                None => {},
            }
            match self.limit {
                Some(limit) => {
                    let left: u64 = limit - self.rows_produced;
                    if left < len as u64 {
                        len = left as usize;
                    }
                },
                None => {},
            }
            let room: u64 = u64::MAX - self.row_offset;
            if room < len as u64 {
                len = room as usize;
            }
            proof {
                assert(chunk_len(state) == Some(len as nat));
                lemma_advanced(state, len as nat);
            }
            if len == 0 {
                return Ok(None);
            }
            let selection = self.row_selection.row_mask(
                &(self.row_offset..self.row_offset + len as u64),
            );
            assert(selection@ =~= wanted(state, len as nat));
            if selection.all_false() {
                self.pass_over(len);
                continue;
            }
            return self.ask(len, selection);
        }
    }

    /// Passes over the next `n` rows.
    fn pass_over(&mut self, n: usize)
        requires
            old(self).valid(),
            old(self).spec_in_flight() is None,
            n <= lane_left(old(self)@.projection),
            old(self)@.filter matches Some(filter) ==> n <= lane_left(filter),
            old(self)@.offset + n <= u64::MAX,
        ensures
            final(self).valid(),
            final(self).spec_in_flight() is None,
            final(self).spec_dtype() == old(self).spec_dtype(),
            old(self).uniform() ==> final(self).uniform(),
            final(self)@ == advanced(old(self)@, n as nat),
    {
        match &mut self.filter {
            Some(filter) => filter.skip_child(n),
            None => {},
        }
        self.projection.skip_child(n);
        self.row_offset = self.row_offset + n as u64;
    }

    /// Asks for the next `n` rows, of which some are selected.
    fn ask(&mut self, n: usize, selection: Mask) -> (result: VortexResult<Option<ScanRequest>>)
        requires
            old(self).valid(),
            old(self).spec_in_flight() is None,
            selection@ == wanted(old(self)@, n as nat),
            lane_len(old(self)@.projection) matches Some(len) && n <= len,
            old(self)@.filter matches Some(filter) ==> (lane_len(filter) matches Some(len) && n
                <= len),
            old(self)@.offset + n <= u64::MAX,
            old(self)@.limit matches Some(limit) ==> old(self)@.produced + n <= limit,
        ensures
            final(self).valid(),
            final(self).spec_dtype() == old(self).spec_dtype(),
            old(self).uniform() ==> final(self).uniform(),
            final(self)@ == request(old(self)@, n as nat).1,
            match result {
                Ok(Some(asked)) => {
                    &&& request(old(self)@, n as nat).0 == Ok::<Option<SpecRequest>, SpecError>(
                        Some(asked@),
                    )
                    &&& asked@.projection.len() == n
                    &&& old(self).uniform() ==> asked.projection.spec_dtype()
                        == old(self).spec_dtype()
                    &&& final(self).spec_in_flight() == Some(n)
                },
                Ok(None) => {
                    &&& request(old(self)@, n as nat).0 == Ok::<Option<SpecRequest>, SpecError>(
                        None,
                    )
                    &&& final(self).spec_in_flight() is None
                },
                Err(error) => {
                    &&& request(old(self)@, n as nat).0 == Err::<Option<SpecRequest>, SpecError>(
                        error@,
                    )
                    &&& final(self).spec_in_flight() is None
                },
            },
    {
        let filter = match &mut self.filter {
            Some(filter) => match filter.read(n) {
                Ok(Some(future)) => Some(future),
                Ok(None) => {
                    return Ok(None);
                },
                Err(error) => {
                    return Err(error);
                },
            },
            None => None,
        };
        self.row_offset = self.row_offset + n as u64;
        match self.projection.read(n) {
            Ok(Some(projection)) => {
                self.in_flight = Some(n);
                Ok(Some(ScanRequest { projection, filter, selection }))
            },
            Ok(None) => Ok(None),
            Err(error) => Err(error),
        }
    }

    /// Takes note that the last request was computed, and how many of its rows were kept.
    pub fn complete(&mut self, rows: usize)
        requires
            old(self).valid(),
            old(self).spec_in_flight() matches Some(len) && rows <= len,
        ensures
            final(self).valid(),
            final(self).spec_in_flight() is None,
            final(self).spec_dtype() == old(self).spec_dtype(),
            old(self).uniform() ==> final(self).uniform(),
            final(self)@ == (ScanState { produced: old(self)@.produced + rows as nat, ..old(self)@ }),
    {
        self.rows_produced = self.rows_produced + rows as u64;
        self.in_flight = None;
    }
}

/// The rows that a mask wants.
pub open spec fn masked(rows: Seq<Row>, mask: Seq<bool>) -> Seq<Row>
    decreases rows.len(),
{
    if rows.len() == 0 {
        Seq::empty()
    } else {
        let front = masked(rows.drop_last(), mask);
        if mask[rows.len() - 1] {
            front.push(rows.last())
        } else {
            front
        }
    }
}

proof fn lemma_masked_equal(rows: Seq<Row>, a: Seq<bool>, b: Seq<bool>)
    requires
        forall|i: int| 0 <= i < rows.len() ==> a[i] == b[i],
    ensures
        masked(rows, a) == masked(rows, b),
    decreases rows.len(),
{
    if rows.len() > 0 {
        lemma_masked_equal(rows.drop_last(), a, b);
    }
}

/// A request never asks for more rows than the limit leaves, and never for none.
pub proof fn law_limit(state: ScanState)
    requires
        sound(state),
    ensures
        next_request(state).0 matches Ok(Some(asked)) ==> {
            &&& asked.projection.len() > 0
            &&& asked.projection.len() == asked.selection.len()
            &&& state.limit matches Some(limit) ==> state.produced + asked.projection.len() <= limit
        },
        exhausted(state) ==> next_request(state).0 == Ok::<Option<SpecRequest>, SpecError>(None),
    decreases lane_left(state.projection),
{
    if let Some(n) = chunk_len(state) {
        lemma_advanced(state, n);
        if n > 0 {
            law_read(state.projection, n);
            if let Some(filter) = state.filter {
                law_read(filter, n);
            }
            law_limit(advanced(state, n));
        }
    }
}

/// What is left of a scan are expressions over the rows that are left of a range.
pub open spec fn reads(
    state: ScanState,
    base: Seq<Row>,
    projection: SpecExpression,
    filter: Option<SpecExpression>,
) -> bool {
    &&& sound(state)
    &&& even(state.projection.track)
    &&& flat(lane_chunks(state.projection)) == clean(base.map_values(evaluation(projection)))
    &&& state.filter is Some == filter is Some
    &&& state.filter matches Some(lane) ==> {
        &&& even(lane.track)
        &&& flat(lane_chunks(lane)) == clean(base.map_values(evaluation(filter->0)))
    }
    &&& state.offset + base.len() <= u64::MAX
}

/// No position from the first to before the last is selected.
pub open spec fn none_selected(selection: Selection, first: int, last: int) -> bool {
    forall|p: int| first <= p < last ==> !#[trigger] selected(selection, p)
}

/// Reading the next rows, where all rows are an expression over those of a list.
proof fn lemma_first_rows(lane: LaneTrack, base: Seq<Row>, e: SpecExpression, n: nat)
    requires
        lane_solid(lane),
        even(lane.track),
        lane_len(lane) matches Some(len) && 0 < n <= len,
        flat(lane_chunks(lane)) == clean(base.map_values(evaluation(e))),
    ensures
        n <= base.len(),
        lane_read(lane, n).0 matches Outcome::Rows(chunk) && chunk.rows == base.subrange(
            0,
            n as int,
        ).map_values(evaluation(e)),
        lane_solid(lane_read(lane, n).1),
        even(lane_read(lane, n).1.track),
        flat(lane_chunks(lane_read(lane, n).1)) == clean(
            base.skip(n as int).map_values(evaluation(e)),
        ),
{
    lemma_lane(lane);
    law_read(lane, n);
    let rows = base.subrange(0, n as int).map_values(evaluation(e));
    let all = flat(lane_chunks(lane));
    assert(all[0] is Ok);
    let chunk = lane_read(lane, n).0->Rows_0;
    assert forall|i: int| 0 <= i < n implies chunk.rows[i] == rows[i] by {
        assert(clean(chunk.rows)[i] == all[i]);
    }
    assert(chunk.rows =~= rows);
    assert(all.skip(n as int) =~= clean(base.skip(n as int).map_values(evaluation(e))));
}

/// Passing over rows that can all be read leaves the expressions over the others.
proof fn lemma_passed(
    state: ScanState,
    base: Seq<Row>,
    projection: SpecExpression,
    filter: Option<SpecExpression>,
    n: nat,
)
    requires
        reads(state, base, projection, filter),
        chunk_len(state) == Some(n),
    ensures
        0 < n <= base.len(),
        lane_len(state.projection) matches Some(len) && n <= len,
        state.filter matches Some(lane) ==> (lane_len(lane) matches Some(len) && n <= len),
        reads(advanced(state, n), base.skip(n as int), projection, filter),
        lane_left(advanced(state, n).projection) < lane_left(state.projection),
        advanced(state, n).offset == state.offset + n,
        advanced(state, n).selection == state.selection,
        advanced(state, n).limit == state.limit,
        advanced(state, n).produced == state.produced,
{
    lemma_lane(state.projection);
    if let Some(lane) = state.filter {
        lemma_lane(lane);
    }
    lemma_advanced(state, n);
    let rest = advanced(state, n);
    let after = base.skip(n as int);
    assert(flat(lane_chunks(rest.projection)) =~= clean(after.map_values(evaluation(projection))));
    if let Some(lane) = rest.filter {
        assert(flat(lane_chunks(lane)) =~= clean(after.map_values(evaluation(filter->0))));
    }
}

/// Asking for rows that can all be read gives the expressions over them, and leaves those over the
/// others.
proof fn lemma_asked(
    state: ScanState,
    base: Seq<Row>,
    projection: SpecExpression,
    filter: Option<SpecExpression>,
    n: nat,
)
    requires
        reads(state, base, projection, filter),
        chunk_len(state) == Some(n),
    ensures
        request(state, n) matches (Ok(Some(asked)), rest) && {
            let rows = base.subrange(0, n as int);
            &&& asked.projection == rows.map_values(evaluation(projection))
            &&& asked.filter == match filter {
                Some(f) => Some(rows.map_values(evaluation(f))),
                None => None,
            }
            &&& asked.selection == wanted(state, n)
            &&& reads(rest, base.skip(n as int), projection, filter)
            &&& rest.offset == state.offset + n
            &&& rest.selection == state.selection
            &&& rest.limit == state.limit
            &&& rest.produced == state.produced
        },
{
    lemma_passed(state, base, projection, filter, n);
    lemma_first_rows(state.projection, base, projection, n);
    if let Some(lane) = state.filter {
        lemma_first_rows(lane, base, filter->0, n);
    }
}

/// A scan that has no next chunk has reached its limit or has no row left.
proof fn lemma_over(
    state: ScanState,
    base: Seq<Row>,
    projection: SpecExpression,
    filter: Option<SpecExpression>,
)
    requires
        reads(state, base, projection, filter),
        chunk_len(state) is None,
    ensures
        exhausted(state) || base.len() == 0,
{
    lemma_lane(state.projection);
    if let Some(lane) = state.filter {
        lemma_lane(lane);
    }
}

/// Where all rows of a scan can be read, a request is for the projection and the filter over the same rows,
/// with which of them are selected. No row that was left before them is selected, and what is left
/// are the expressions over the rows that come after. A scan ends at its limit, or where no selected
/// row is left.
pub proof fn law_request_rows(
    state: ScanState,
    base: Seq<Row>,
    projection: SpecExpression,
    filter: Option<SpecExpression>,
)
    requires
        reads(state, base, projection, filter),
    ensures
        next_request(state).0 is Ok,
        next_request(state) matches (Ok(Some(asked)), rest) ==> {
            let n = asked.projection.len();
            let end = rest.offset - state.offset;
            let rows = base.subrange(end - n, end);
            &&& n <= end <= base.len()
            &&& asked.projection == rows.map_values(evaluation(projection))
            &&& asked.filter == match filter {
                Some(f) => Some(rows.map_values(evaluation(f))),
                None => None,
            }
            &&& asked.selection == Seq::new(
                n,
                |i: int| selected(state.selection, rest.offset - n + i),
            )
            &&& reads(rest, base.skip(end), projection, filter)
            &&& rest.selection == state.selection
            &&& rest.limit == state.limit
            &&& rest.produced == state.produced
            &&& none_selected(state.selection, state.offset as int, rest.offset - n)
        },
        next_request(state).0 == Ok::<Option<SpecRequest>, SpecError>(None) ==> exhausted(state)
            || none_selected(
            state.selection,
            state.offset as int,
            (state.offset + base.len()) as int,
        ),
    decreases base.len(),
{
    if let Some(n) = chunk_len(state) {
        lemma_passed(state, base, projection, filter, n);
        let rest = advanced(state, n);
        let after = base.skip(n as int);
        if forall|i: int| 0 <= i < n ==> !#[trigger] wanted(state, n)[i] {
            law_request_rows(rest, after, projection, filter);
            assert(none_selected(state.selection, state.offset as int, rest.offset as int)) by {
                assert forall|p: int| state.offset <= p < rest.offset implies !#[trigger] selected(
                    state.selection,
                    p,
                ) by {
                    assert(!wanted(state, n)[p - state.offset]);
                }
            }
            if let (Ok(Some(asked)), last) = next_request(rest) {
                let m = asked.projection.len();
                let end = last.offset - state.offset;
                assert(after.subrange(end - n - m, end - n) =~= base.subrange(end - m, end));
                assert(after.skip(end - n) =~= base.skip(end));
            }
        } else {
            lemma_asked(state, base, projection, filter, n);
            assert(wanted(state, n) =~= Seq::new(
                n,
                |i: int| selected(state.selection, state.offset + n - n + i),
            ));
        }
    } else {
        lemma_over(state, base, projection, filter);
    }
}

/// Valid expressions over a well-formed layout can be read over a range of its rows, if every
/// function that computes from rows has an argument.
pub proof fn law_can_read(l: Layout, e: SpecExpression, start: u64, end: u64)
    requires
        well_formed(l),
        valid_expression(e),
        has_arguments(e),
        start <= end,
    ensures
        accepts_expression(l),
        can_read(l, e, start, end),
{
    lemma_accepts_expression(l);
    law_applied_well_formed(l, e);
    if let Ok(result) = applied(l, e) {
        lemma_counted(result);
        lemma_readable(result);
        lemma_accepts_range(result, start, end);
    }
}

/// A scan's arrays are of the type of its projection, if the types of the layout's parts fit.
pub proof fn law_scan_type(plan: ScanPlan)
    requires
        typed(plan.layout),
        valid_expression(plan.projection),
        scan_error(plan) is None,
    ensures
        expression_type(plan.projection, dtype_of(plan.layout)) == Ok::<SpecDType, SpecError>(
            dtype_of(applied(plan.layout, plan.projection)->Ok_0),
        ),
{
    law_applied_type(plan.layout, plan.projection);
}

/// A stream of an expression over a range of a well-formed layout delivers the pieces of it.
proof fn lemma_applied_track(l: Layout, e: SpecExpression, start: nat, end: nat)
    requires
        well_formed(l),
        valid_expression(e),
        has_arguments(e),
        start <= end <= row_count(l),
    ensures
        applied(l, e) matches Ok(result) ==> {
            &&& solid(track(result, start, end))
            &&& even(track(result, start, end))
            &&& chunks_of(track(result, start, end)) == pieces(result, start, end)
        },
{
    law_applied_well_formed(l, e);
    if let Ok(result) = applied(l, e) {
        lemma_counted(result);
        law_track(result, start, end);
        law_pieces(result, start, end);
    }
}

/// A scan of a well-formed layout starts with expressions over the rows of its range.
pub proof fn law_scan_reads(plan: ScanPlan)
    requires
        well_formed(plan.layout),
        plan.start <= plan.end <= row_count(plan.layout),
        valid_expression(plan.projection),
        has_arguments(plan.projection),
        plan.filter matches Some(filter) ==> valid_expression(filter) && has_arguments(filter),
        scan_error(plan) is None,
    ensures
        reads(
            initial(plan),
            rows(plan.layout).subrange(plan.start as int, plan.end as int),
            plan.projection,
            plan.filter,
        ),
{
    let l = plan.layout;
    let (start, end) = (plan.start as nat, plan.end as nat);
    lemma_counted(l);
    law_row_count(l);
    law_applied_range(l, plan.projection, plan.start, plan.end);
    lemma_applied_track(l, plan.projection, start, end);
    if let Some(filter) = plan.filter {
        law_applied_range(l, filter, plan.start, plan.end);
        lemma_applied_track(l, filter, start, end);
    }
}

/// The mask of a request's rows that are selected and whose filter a condition holds of.
pub open spec fn request_mask(asked: SpecRequest, holds: spec_fn(Row) -> bool) -> Seq<bool> {
    Seq::new(
        asked.projection.len(),
        |i: int| asked.selection[i] && (asked.filter matches Some(filter) ==> holds(filter[i])),
    )
}

/// The rows that a scan delivers from a state on, where the filter is true of the rows that a
/// condition holds of.
pub open spec fn delivered(state: ScanState, holds: spec_fn(Row) -> bool) -> Seq<Row>
    decreases lane_left(state.projection),
{
    match next_request(state) {
        (Ok(Some(asked)), rest) => if lane_left(rest.projection) < lane_left(state.projection) {
            let rows = masked(asked.projection, request_mask(asked, holds));
            rows + delivered(ScanState { produced: rest.produced + rows.len(), ..rest }, holds)
        } else {
            Seq::empty()
        },
        _ => Seq::empty(),
    }
}

/// Which rows, the first of them standing at a position, are selected and have a filter that a
/// condition holds of.
pub open spec fn chosen(
    base: Seq<Row>,
    selection: Selection,
    offset: nat,
    filter: Option<SpecExpression>,
    holds: spec_fn(Row) -> bool,
) -> Seq<bool> {
    Seq::new(
        base.len(),
        |i: int|
            selected(selection, offset + i) && (filter matches Some(f) ==> holds(
                evaluated(f, base[i]),
            )),
    )
}

/// The first rows, as many as a limit leaves.
pub open spec fn limited(rows: Seq<Row>, limit: Option<u64>, produced: nat) -> Seq<Row> {
    rows.take(at_most(rows.len(), limit, produced) as int)
}

proof fn lemma_masked_concat(a: Seq<Row>, b: Seq<Row>, mask: Seq<bool>)
    requires
        mask.len() == a.len() + b.len(),
    ensures
        masked(a + b, mask) == masked(a, mask.take(a.len() as int)) + masked(
            b,
            mask.skip(a.len() as int),
        ),
    decreases b.len(),
{
    let first = mask.take(a.len() as int);
    let second = mask.skip(a.len() as int);
    if b.len() == 0 {
        assert(a + b =~= a);
        assert(first =~= mask);
        assert(masked(a, first) + masked(b, second) =~= masked(a, first));
    } else {
        let front = b.drop_last();
        let shorter = mask.drop_last();
        lemma_masked_concat(a, front, shorter);
        assert((a + b).drop_last() =~= a + front);
        lemma_masked_equal(a + front, mask, shorter);
        assert(shorter.take(a.len() as int) =~= first);
        assert(shorter.skip(a.len() as int) =~= second.drop_last());
        lemma_masked_equal(front, second, second.drop_last());
        assert(masked(a + b, mask) =~= masked(a, first) + masked(b, second));
    }
}

proof fn lemma_masked_none(rows: Seq<Row>, mask: Seq<bool>)
    requires
        forall|i: int| 0 <= i < rows.len() ==> !#[trigger] mask[i],
    ensures
        masked(rows, mask) == Seq::<Row>::empty(),
    decreases rows.len(),
{
    if rows.len() > 0 {
        lemma_masked_none(rows.drop_last(), mask);
    }
}

proof fn lemma_masked_len(rows: Seq<Row>, mask: Seq<bool>)
    ensures
        masked(rows, mask).len() <= rows.len(),
    decreases rows.len(),
{
    if rows.len() > 0 {
        lemma_masked_len(rows.drop_last(), mask);
    }
}

/// Masked rows are those of a part, where none before it is wanted, and those after it.
proof fn lemma_masked_split(all: Seq<Row>, mask: Seq<bool>, before: int, end: int)
    requires
        0 <= before <= end <= all.len(),
        mask.len() == all.len(),
        forall|i: int| 0 <= i < before ==> !#[trigger] mask[i],
    ensures
        masked(all, mask) == masked(all.subrange(before, end), mask.subrange(before, end)) + masked(
            all.skip(end),
            mask.skip(end),
        ),
{
    let (passed, part, others) = (all.take(before), all.subrange(before, end), all.skip(end));
    assert(all =~= passed + (part + others));
    lemma_masked_concat(passed, part + others, mask);
    lemma_masked_concat(part, others, mask.skip(before));
    assert forall|i: int| 0 <= i < before implies !#[trigger] mask.take(before)[i] by {
        assert(!mask[i]);
    }
    lemma_masked_none(passed, mask.take(before));
    assert(mask.skip(before).take(part.len() as int) =~= mask.subrange(before, end));
    assert(mask.skip(before).skip(part.len() as int) =~= mask.skip(end));
    assert(Seq::<Row>::empty() + (masked(part, mask.subrange(before, end)) + masked(
        others,
        mask.skip(end),
    )) =~= masked(part, mask.subrange(before, end)) + masked(others, mask.skip(end)));
}

/// As many rows are left of a scan's projection as of the rows it is over.
proof fn lemma_reads_left(
    state: ScanState,
    base: Seq<Row>,
    projection: SpecExpression,
    filter: Option<SpecExpression>,
)
    requires
        reads(state, base, projection, filter),
    ensures
        lane_left(state.projection) == base.len(),
{
    lemma_lane(state.projection);
}

/// The rows that a request leaves of those it asks for, and the rows that are chosen of those after it,
/// are those that are chosen of all.
proof fn lemma_delivered_rows(
    base: Seq<Row>,
    projection: SpecExpression,
    filter: Option<SpecExpression>,
    holds: spec_fn(Row) -> bool,
    selection: Selection,
    offset: nat,
    asked: SpecRequest,
    end: int,
)
    requires
        asked.projection.len() <= end <= base.len(),
        ({
            let n = asked.projection.len();
            let rows = base.subrange(end - n, end);
            &&& asked.projection == rows.map_values(evaluation(projection))
            &&& asked.filter == match filter {
                Some(f) => Some(rows.map_values(evaluation(f))),
                None => None,
            }
            &&& asked.selection == Seq::new(
                n,
                |i: int| selected(selection, offset + end - n + i),
            )
            &&& none_selected(selection, offset as int, offset + end - n)
        }),
    ensures
        masked(
            base.map_values(evaluation(projection)),
            chosen(base, selection, offset, filter, holds),
        ) == masked(asked.projection, request_mask(asked, holds)) + masked(
            base.skip(end).map_values(evaluation(projection)),
            chosen(base.skip(end), selection, (offset + end) as nat, filter, holds),
        ),
{
    let n = asked.projection.len();
    let before = end - n;
    let mask = chosen(base, selection, offset, filter, holds);
    let all = base.map_values(evaluation(projection));
    let after = base.skip(end);
    assert forall|i: int| 0 <= i < before implies !#[trigger] mask[i] by {
        assert(!selected(selection, offset + i));
    }
    lemma_masked_split(all, mask, before, end);
    assert(all.subrange(before, end) =~= asked.projection);
    assert(mask.subrange(before, end) =~= request_mask(asked, holds));
    assert(all.skip(end) =~= after.map_values(evaluation(projection)));
    assert(mask.skip(end) =~= chosen(after, selection, (offset + end) as nat, filter, holds));
}

/// The first rows, as many as a limit leaves, are those that come first and as many of the others as
/// it leaves after them.
proof fn lemma_limited(rows: Seq<Row>, others: Seq<Row>, limit: Option<u64>, produced: nat)
    requires
        limit matches Some(limit) ==> produced + rows.len() <= limit,
    ensures
        rows + limited(others, limit, produced + rows.len()) == limited(
            rows + others,
            limit,
            produced,
        ),
{
    assert(rows + limited(others, limit, produced + rows.len()) =~= limited(
        rows + others,
        limit,
        produced,
    ));
}

/// What a scan of rows that can all be read delivers are, in order, the projections of the rows that are
/// selected and of which the filter is true, up to the limit.
pub proof fn law_delivered(
    state: ScanState,
    base: Seq<Row>,
    projection: SpecExpression,
    filter: Option<SpecExpression>,
    holds: spec_fn(Row) -> bool,
)
    requires
        reads(state, base, projection, filter),
        state.limit matches Some(limit) ==> state.produced <= limit,
    ensures
        delivered(state, holds) == limited(
            masked(
                base.map_values(evaluation(projection)),
                chosen(base, state.selection, state.offset, filter, holds),
            ),
            state.limit,
            state.produced,
        ),
    decreases base.len(),
{
    let mask = chosen(base, state.selection, state.offset, filter, holds);
    let all = base.map_values(evaluation(projection));
    law_request_rows(state, base, projection, filter);
    law_limit(state);
    lemma_reads_left(state, base, projection, filter);
    match next_request(state) {
        (Ok(Some(asked)), rest) => {
            let n = asked.projection.len();
            let end = rest.offset - state.offset;
            let after = base.skip(end);
            let rows = masked(asked.projection, request_mask(asked, holds));
            lemma_masked_len(asked.projection, request_mask(asked, holds));
            lemma_reads_left(rest, after, projection, filter);
            let next = ScanState { produced: rest.produced + rows.len(), ..rest };
            law_delivered(next, after, projection, filter, holds);
            lemma_delivered_rows(
                base,
                projection,
                filter,
                holds,
                state.selection,
                state.offset,
                asked,
                end,
            );
            let others = masked(
                after.map_values(evaluation(projection)),
                chosen(after, rest.selection, rest.offset, filter, holds),
            );
            lemma_limited(rows, others, state.limit, state.produced);
        },
        _ => {
            if exhausted(state) {
                assert(limited(masked(all, mask), state.limit, state.produced) =~= Seq::empty());
            } else {
                assert forall|i: int| 0 <= i < all.len() implies !#[trigger] mask[i] by {
                    assert(!selected(state.selection, state.offset + i));
                }
                lemma_masked_none(all, mask);
                assert(limited(masked(all, mask), state.limit, state.produced) =~= Seq::empty());
            }
        },
    }
}

/// A scan of a well-formed layout delivers the projection over the rows of its range that are
/// selected and of which the filter is true, in order and up to its limit.
pub proof fn law_scan_delivers(plan: ScanPlan, holds: spec_fn(Row) -> bool)
    requires
        well_formed(plan.layout),
        plan.start <= plan.end <= row_count(plan.layout),
        valid_expression(plan.projection),
        has_arguments(plan.projection),
        plan.filter matches Some(filter) ==> valid_expression(filter) && has_arguments(filter),
        scan_error(plan) is None,
    ensures
        ({
            let base = rows(plan.layout).subrange(plan.start as int, plan.end as int);
            delivered(initial(plan), holds) == limited(
                masked(
                    base.map_values(evaluation(plan.projection)),
                    chosen(base, plan.selection, 0, plan.filter, holds),
                ),
                plan.limit,
                0,
            )
        }),
{
    let base = rows(plan.layout).subrange(plan.start as int, plan.end as int);
    law_scan_reads(plan);
    law_delivered(initial(plan), base, plan.projection, plan.filter, holds);
}

/// The value of a request is the rows of its arrays, and its mask.
pub proof fn law_request_view(request: ScanRequest)
    ensures
        request@.projection == request.projection.rows(),
        match (request.filter, request@.filter) {
            (Some(filter), Some(own)) => own == filter.rows(),
            (None, None) => true,
            _ => false,
        },
        request@.selection == request.selection@,
{
}

/// A scan cannot be opened where its projection has no type, where its filter or its projection cannot be
/// pushed into the reader, or where one of the two cannot be opened. The first of these, in this order,
/// is the error.
pub proof fn law_scan_error(plan: ScanPlan)
    ensures
        match scan_error(plan) {
            None => {
                &&& expression_type(plan.projection, dtype_of(plan.layout)) is Ok
                &&& applied(plan.layout, plan.projection) matches Ok(own) && open_error(
                    own,
                    plan.start,
                    plan.end,
                ) is None
                &&& plan.filter matches Some(filter) ==> (applied(plan.layout, filter) matches Ok(own)
                    && open_error(own, plan.start, plan.end) is None)
            },
            Some(error) => {
                let typed = expression_type(plan.projection, dtype_of(plan.layout));
                let own = applied(plan.layout, plan.projection);
                if typed is Err {
                    typed == Err::<SpecDType, SpecError>(error)
                } else if plan.filter is Some && applied(plan.layout, plan.filter->0) is Err {
                    applied(plan.layout, plan.filter->0) == Err::<Layout, SpecError>(error)
                } else if own is Err {
                    own == Err::<Layout, SpecError>(error)
                } else if plan.filter is Some && open_error(
                    applied(plan.layout, plan.filter->0)->Ok_0,
                    plan.start,
                    plan.end,
                ) is Some {
                    open_error(applied(plan.layout, plan.filter->0)->Ok_0, plan.start, plan.end)
                        == Some(error)
                } else {
                    open_error(own->Ok_0, plan.start, plan.end) == Some(error)
                }
            },
        },
{
}

/// The next rows are passed over, without being read, where none of them is selected.
pub proof fn law_passes_over(state: ScanState, n: nat)
    requires
        sound(state),
        chunk_len(state) == Some(n),
        n > 0,
        forall|i: int| 0 <= i < n ==> !#[trigger] selected(state.selection, state.offset + i),
    ensures
        next_request(state) == next_request(
            ScanState {
                projection: lane_skipped(state.projection, n),
                filter: match state.filter {
                    Some(filter) => Some(lane_skipped(filter, n)),
                    None => None,
                },
                limit: state.limit,
                produced: state.produced,
                offset: state.offset + n,
                selection: state.selection,
            },
        ),
{
    lemma_advanced(state, n);
    assert forall|i: int| 0 <= i < n implies !#[trigger] wanted(state, n)[i] by {
        assert(!selected(state.selection, state.offset + i));
    }
}

/// A scan starts at the first row of its range, with nothing produced, and with the projection and the
/// filter over the whole range still to be read.
pub proof fn law_initial(plan: ScanPlan)
    ensures
        initial(plan).produced == 0,
        initial(plan).offset == 0,
        initial(plan).limit == plan.limit,
        initial(plan).selection == plan.selection,
        initial(plan).projection == (LaneTrack {
            ahead: None,
            track: track(
                applied(plan.layout, plan.projection)->Ok_0,
                plan.start as nat,
                plan.end as nat,
            ),
        }),
        match (plan.filter, initial(plan).filter) {
            (Some(filter), Some(lane)) => lane == (LaneTrack {
                ahead: None,
                track: track(applied(plan.layout, filter)->Ok_0, plan.start as nat, plan.end as nat),
            }),
            (None, None) => true,
            _ => false,
        },
{
}

} // verus!
