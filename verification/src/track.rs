//! What a stream is still to read: the state that reading and skipping change.
//!
//! A track tells what the next chunk is, or the error in its place, and what is left after it. Tracks
//! of streams read side by side are read one after the other: where one of them cannot be read, what
//! was read of those before it is lost, and those after it are left where they were.
use vstd::prelude::*;
use crate::cells::{
    broken, changed, clean, first_failure, lemma_clean, lemma_failure_at, lemma_failure_concat,
    lemma_first_failure, lemma_unread, lifted, rows_of, struct_fault, unread, Cell,
};
use crate::chunks::{
    across, aligned, all_dropped, all_hold, all_ready, dropped, flat, full, joined,
    lemma_aligned_dropped, lemma_aligned_full, lemma_aligned_least, lemma_aligned_len,
    lemma_dropped, lemma_dropped_concat, lemma_dropped_first, lemma_flat_concat, lemma_full_flat,
    lemma_full_tail, lemma_mapped, lemma_shortest, mapped, shortest,
};
use crate::dtype::SpecDType;
use crate::error::SpecError;
use crate::estimate::{capped, decoded_size};
use crate::expr::SpecScalarFn;
use crate::future::{cut, share, total};
use crate::row::{call_join, struct_join, Row};

verus! {

/// Rows that are delivered together, and their estimated size.
#[verifier::ext_equal]
pub struct Chunk {
    pub rows: Seq<Row>,
    pub bytes: nat,
}

/// What a stream is still to read.
#[verifier::ext_equal]
pub enum Track {
    /// Chunks of rows of a type.
    Run { chunks: Seq<Seq<Row>>, dtype: SpecDType },
    /// What is left of the range that is open, and the ranges that are still to be opened.
    Chain { open: Option<Box<Track>>, pending: Seq<Pending> },
    /// Tracks read side by side.
    Side { lanes: Seq<LaneTrack>, join: Join },
    /// Rows of a type that stand for those of a track.
    Coded { codes: Box<Track>, change: spec_fn(Row) -> Row, dtype: SpecDType },
}

/// A range that is still to be opened.
#[verifier::ext_equal]
pub enum Pending {
    /// It opens to a track.
    Opens(Track),
    /// So many rows that cannot be opened.
    Fails { error: SpecError, rows: nat },
}

/// A track, and what was read ahead of it.
#[verifier::ext_equal]
pub struct LaneTrack {
    pub ahead: Option<Chunk>,
    pub track: Track,
}

/// How rows side by side are put together, why they cannot be where they cannot, and the type of the
/// results where their size is estimated from it; otherwise it is that of the parts together.
#[verifier::ext_equal]
pub struct Join {
    pub put: spec_fn(Seq<Row>) -> Row,
    pub fault: Option<SpecError>,
    pub dtype: Option<SpecDType>,
}

/// What a stream delivers next.
pub enum Outcome {
    Rows(Chunk),
    Failed(SpecError),
    Ended,
}

/// The first `n` rows of a chunk.
pub open spec fn head(chunk: Chunk, n: nat) -> Chunk {
    Chunk { rows: chunk.rows.take(n as int), bytes: cut(chunk.bytes, n, chunk.rows.len()) }
}

/// The rows of a chunk after the first `n`.
pub open spec fn tail(chunk: Chunk, n: nat) -> Chunk {
    Chunk {
        rows: chunk.rows.skip(n as int),
        bytes: share(chunk.bytes, (chunk.rows.len() - n) as nat, chunk.rows.len()),
    }
}

/// What is left of a chunk after the first `n` rows, where anything is.
pub open spec fn remainder(chunk: Chunk, n: nat) -> Option<Chunk> {
    if n < chunk.rows.len() {
        Some(tail(chunk, n))
    } else {
        None
    }
}

/// The least of the numbers, or zero where there is none.
pub open spec fn least(numbers: Seq<nat>) -> nat
    decreases numbers.len(),
{
    if numbers.len() == 0 {
        0
    } else if numbers.len() == 1 {
        numbers[0]
    } else {
        let rest = least(numbers.drop_last());
        if numbers.last() < rest {
            numbers.last()
        } else {
            rest
        }
    }
}

/// What comes next on a track, and what is left after it.
pub open spec fn step(t: Track) -> (Outcome, Track)
    decreases t,
{
    match t {
        Track::Run { chunks, dtype } => if chunks.len() == 0 {
            (Outcome::Ended, t)
        } else {
            (
                Outcome::Rows(
                    Chunk {
                        rows: chunks.first(),
                        bytes: capped(decoded_size(dtype, chunks.first().len())),
                    },
                ),
                Track::Run { chunks: chunks.drop_first(), dtype },
            )
        },
        Track::Chain { open, pending } => match open {
            Some(current) => match step(*current) {
                (Outcome::Ended, _) => pending_step(pending),
                (outcome, rest) => (
                    outcome,
                    Track::Chain { open: Some(Box::new(rest)), pending },
                ),
            },
            None => pending_step(pending),
        },
        Track::Side { lanes, join } => side_step(lanes, join, lane_steps(lanes)),
        Track::Coded { codes, change, dtype } => match step(*codes) {
            (Outcome::Rows(chunk), rest) => (
                Outcome::Rows(
                    Chunk {
                        rows: chunk.rows.map_values(change),
                        bytes: capped(decoded_size(dtype, chunk.rows.len())),
                    },
                ),
                Track::Coded { codes: Box::new(rest), change, dtype },
            ),
            (outcome, rest) => (
                outcome,
                Track::Coded { codes: Box::new(rest), change, dtype },
            ),
        },
    }
}

/// What comes next of ranges that are still to be opened: each is opened when it is reached, and one
/// that cannot be is passed over with its error.
pub open spec fn pending_step(pending: Seq<Pending>) -> (Outcome, Track)
    decreases pending,
{
    if pending.len() == 0 {
        (Outcome::Ended, Track::Chain { open: None, pending })
    } else {
        let others = pending.subrange(1, pending.len() as int);
        match pending[0] {
            Pending::Fails { error, .. } => (
                Outcome::Failed(error),
                Track::Chain { open: None, pending: others },
            ),
            Pending::Opens(track) => match step(track) {
                (Outcome::Ended, _) => pending_step(others),
                (outcome, rest) => (
                    outcome,
                    Track::Chain { open: Some(Box::new(rest)), pending: others },
                ),
            },
        }
    }
}

/// What comes next of a track, what was read ahead of it first.
pub open spec fn lane_step(lane: LaneTrack) -> (Outcome, LaneTrack)
    decreases lane,
{
    match lane.ahead {
        Some(chunk) => (Outcome::Rows(chunk), LaneTrack { ahead: None, track: lane.track }),
        None => (step(lane.track).0, LaneTrack { ahead: None, track: step(lane.track).1 }),
    }
}

/// What comes next of each of the tracks.
pub open spec fn lane_steps(lanes: Seq<LaneTrack>) -> Seq<(Outcome, LaneTrack)>
    decreases lanes,
{
    Seq::new(
        lanes.len(),
        |i: int|
            if 0 <= i < lanes.len() {
                lane_step(lanes[i])
            } else {
                arbitrary()
            },
    )
}

/// How many of the tracks have rows next before the first that has none.
pub open spec fn ready(steps: Seq<(Outcome, LaneTrack)>) -> nat
    decreases steps.len(),
{
    if steps.len() == 0 {
        0
    } else if ready(steps.drop_last()) < steps.len() - 1 || !(steps.last().0 is Rows) {
        ready(steps.drop_last())
    } else {
        steps.len()
    }
}

/// The lengths of the next chunks.
pub open spec fn lengths(steps: Seq<(Outcome, LaneTrack)>) -> Seq<nat> {
    Seq::new(steps.len(), |i: int| steps[i].0->Rows_0.rows.len())
}

/// The rows at position `i` of the next chunks.
pub open spec fn rows_at(steps: Seq<(Outcome, LaneTrack)>, i: int) -> Seq<Row> {
    Seq::new(steps.len(), |j: int| steps[j].0->Rows_0.rows[i])
}

/// The first `n` rows of the next chunks put together.
pub open spec fn put_together(
    steps: Seq<(Outcome, LaneTrack)>,
    join: Join,
    n: nat,
) -> Chunk {
    Chunk {
        rows: Seq::new(n, |i: int| (join.put)(rows_at(steps, i))),
        bytes: match join.dtype {
            Some(dtype) => capped(decoded_size(dtype, n)),
            None => capped(
                total(Seq::new(steps.len(), |j: int| head(steps[j].0->Rows_0, n).bytes)),
            ),
        },
    }
}

/// A track once its next chunk was read and `n` rows of it are passed on.
pub open spec fn kept(step: (Outcome, LaneTrack), n: nat) -> LaneTrack {
    LaneTrack { ahead: remainder(step.0->Rows_0, n), track: step.1.track }
}

/// What is left of tracks side by side once their next chunks are read, in order. Each keeps what its
/// chunk has more than the shortest. Where one has ended or cannot be read, the chunks of those before
/// it are lost, and those after it are left where they were.
pub open spec fn side_left(
    lanes: Seq<LaneTrack>,
    steps: Seq<(Outcome, LaneTrack)>,
) -> Seq<LaneTrack> {
    let k = ready(steps);
    if k < lanes.len() {
        Seq::new(
            lanes.len(),
            |i: int|
                if i <= k {
                    steps[i].1
                } else {
                    lanes[i]
                },
        )
    } else {
        Seq::new(lanes.len(), |i: int| kept(steps[i], least(lengths(steps))))
    }
}

/// What comes next of tracks side by side: their next chunks put together, cut to the length of the
/// shortest, or that the first of them that has no rows next has ended or cannot be read.
pub open spec fn side_step(
    lanes: Seq<LaneTrack>,
    join: Join,
    steps: Seq<(Outcome, LaneTrack)>,
) -> (Outcome, Track) {
    let k = ready(steps);
    (
        if lanes.len() == 0 {
            Outcome::Ended
        } else if k < lanes.len() {
            steps[k as int].0
        } else {
            match join.fault {
                Some(error) => Outcome::Failed(error),
                None => Outcome::Rows(put_together(steps, join, least(lengths(steps)))),
            }
        },
        Track::Side { lanes: side_left(lanes, steps), join },
    )
}

/// The first `n` rows of the next chunk of a track, the others being kept for later, or what comes in
/// its place, and what is left.
pub open spec fn lane_read(lane: LaneTrack, n: nat) -> (Outcome, LaneTrack) {
    match lane_step(lane) {
        (Outcome::Rows(chunk), rest) => (
            Outcome::Rows(head(chunk, n)),
            LaneTrack { ahead: remainder(chunk, n), track: rest.track },
        ),
        (outcome, rest) => (outcome, rest),
    }
}

/// How many rows are left of a track, those that cannot be read among them; side by side, of the
/// track with the fewest.
pub open spec fn rows_left(t: Track) -> nat
    decreases t,
{
    match t {
        Track::Run { chunks, .. } => flat(chunks).len(),
        Track::Chain { open, pending } => match open {
            Some(current) => rows_left(*current) + pending_left(pending),
            None => pending_left(pending),
        },
        Track::Side { lanes, .. } => least(lanes_left(lanes)),
        Track::Coded { codes, .. } => rows_left(*codes),
    }
}

/// How many rows a range has that is still to be opened.
pub open spec fn range_left(p: Pending) -> nat
    decreases p,
{
    match p {
        Pending::Opens(track) => rows_left(track),
        Pending::Fails { rows, .. } => rows,
    }
}

/// How many rows are left of ranges that are still to be opened.
pub open spec fn pending_left(pending: Seq<Pending>) -> nat
    decreases pending,
{
    if pending.len() == 0 {
        0
    } else {
        range_left(pending[0]) + pending_left(pending.subrange(1, pending.len() as int))
    }
}

/// How many rows are left of a track and of what was read ahead of it.
pub open spec fn lane_left(lane: LaneTrack) -> nat
    decreases lane,
{
    match lane.ahead {
        Some(chunk) => chunk.rows.len() + rows_left(lane.track),
        None => rows_left(lane.track),
    }
}

/// How many rows are left of each of the tracks.
pub open spec fn lanes_left(lanes: Seq<LaneTrack>) -> Seq<nat>
    decreases lanes,
{
    Seq::new(
        lanes.len(),
        |i: int|
            if 0 <= i < lanes.len() {
                lane_left(lanes[i])
            } else {
                0
            },
    )
}

/// The length of the next chunk of a track, or of the next range that cannot be opened, no more than
/// an array can have; side by side, the shortest; nothing where no row is left.
pub open spec fn next_len(t: Track) -> Option<nat>
    decreases t,
{
    match t {
        Track::Run { chunks, .. } => if chunks.len() == 0 {
            None
        } else {
            Some(chunks.first().len())
        },
        Track::Chain { open, pending } => match open {
            Some(current) => match next_len(*current) {
                Some(n) => Some(n),
                None => pending_len(pending),
            },
            None => pending_len(pending),
        },
        Track::Side { lanes, .. } => lanes_len(lanes),
        Track::Coded { codes, .. } => next_len(*codes),
    }
}

/// The length of the first chunk of ranges that are still to be opened.
pub open spec fn pending_len(pending: Seq<Pending>) -> Option<nat>
    decreases pending,
{
    if pending.len() == 0 {
        None
    } else {
        range_len(pending[0])
    }
}

/// The length of the first chunk of a range that is still to be opened.
pub open spec fn range_len(p: Pending) -> Option<nat>
    decreases p,
{
    match p {
        Pending::Opens(track) => next_len(track),
        Pending::Fails { rows, .. } => if rows > usize::MAX {
            Some(usize::MAX as nat)
        } else {
            Some(rows)
        },
    }
}

/// The length of the next chunk of a track, what was read ahead of it first.
pub open spec fn lane_len(lane: LaneTrack) -> Option<nat>
    decreases lane,
{
    match lane.ahead {
        Some(chunk) => Some(chunk.rows.len()),
        None => next_len(lane.track),
    }
}

/// The length of the shortest of the next chunks, or nothing where a track has none.
pub open spec fn lanes_len(lanes: Seq<LaneTrack>) -> Option<nat>
    decreases lanes,
{
    if lanes.len() == 0 {
        None
    } else {
        let last = lane_len(lanes[lanes.len() - 1]);
        if lanes.len() == 1 {
            last
        } else {
            match (lanes_len(lanes.subrange(0, lanes.len() - 1)), last) {
                (Some(m), Some(n)) => if n < m {
                    Some(n)
                } else {
                    Some(m)
                },
                _ => None,
            }
        }
    }
}

/// A track without its next `n` rows: the errors of those that cannot be read are left out with them.
pub open spec fn skipped(t: Track, n: nat) -> Track
    decreases t,
{
    if n == 0 {
        t
    } else {
        match t {
            Track::Run { chunks, dtype } => Track::Run { chunks: dropped(chunks, n), dtype },
            Track::Chain { open, pending } => match open {
                Some(current) => if n <= rows_left(*current) {
                    Track::Chain { open: Some(Box::new(skipped(*current, n))), pending }
                } else {
                    pending_skipped(pending, (n - rows_left(*current)) as nat)
                },
                None => pending_skipped(pending, n),
            },
            Track::Side { lanes, join } => Track::Side { lanes: lanes_skipped(lanes, n), join },
            Track::Coded { codes, change, dtype } => Track::Coded {
                codes: Box::new(skipped(*codes, n)),
                change,
                dtype,
            },
        }
    }
}

/// Ranges that are still to be opened without their first `n` rows: those skipped whole are not
/// opened, and the one that is skipped in part is, where it can be.
pub open spec fn pending_skipped(pending: Seq<Pending>, n: nat) -> Track
    decreases pending,
{
    if n == 0 || pending.len() == 0 {
        Track::Chain { open: None, pending }
    } else {
        let others = pending.subrange(1, pending.len() as int);
        let rows = range_left(pending[0]);
        if n >= rows {
            pending_skipped(others, (n - rows) as nat)
        } else {
            match pending[0] {
                Pending::Opens(track) => Track::Chain {
                    open: Some(Box::new(skipped(track, n))),
                    pending: others,
                },
                Pending::Fails { error, rows } => Track::Chain {
                    open: None,
                    pending: seq![Pending::Fails { error, rows: (rows - n) as nat }] + others,
                },
            }
        }
    }
}

/// A track without its next `n` rows, what was read ahead of it first.
pub open spec fn lane_skipped(lane: LaneTrack, n: nat) -> LaneTrack
    decreases lane,
{
    match lane.ahead {
        Some(chunk) => if n < chunk.rows.len() {
            LaneTrack { ahead: Some(tail(chunk, n)), track: lane.track }
        } else {
            LaneTrack {
                ahead: None,
                track: skipped(lane.track, (n - chunk.rows.len()) as nat),
            }
        },
        None => LaneTrack { ahead: None, track: skipped(lane.track, n) },
    }
}

/// Each of the tracks without its next `n` rows.
pub open spec fn lanes_skipped(lanes: Seq<LaneTrack>, n: nat) -> Seq<LaneTrack>
    decreases lanes,
{
    Seq::new(
        lanes.len(),
        |i: int|
            if 0 <= i < lanes.len() {
                lane_skipped(lanes[i], n)
            } else {
                arbitrary()
            },
    )
}

/// No chunk is empty, and no range that is still to be opened.
pub open spec fn solid(t: Track) -> bool
    decreases t,
{
    match t {
        Track::Run { chunks, .. } => full(chunks),
        Track::Chain { open, pending } => {
            &&& match open {
                Some(current) => solid(*current),
                None => true,
            }
            &&& pending_solid(pending)
        },
        Track::Side { lanes, .. } => lanes_solid(lanes),
        Track::Coded { codes, .. } => solid(*codes),
    }
}

/// No range that is still to be opened is empty, and neither is a chunk of it.
pub open spec fn pending_solid(pending: Seq<Pending>) -> bool
    decreases pending,
{
    forall|i: int| 0 <= i < pending.len() ==> range_solid(#[trigger] pending[i])
}

/// The range is not empty, and neither is a chunk of it.
pub open spec fn range_solid(p: Pending) -> bool
    decreases p,
{
    &&& range_left(p) > 0
    &&& match p {
        Pending::Opens(track) => solid(track),
        Pending::Fails { .. } => true,
    }
}

/// No chunk is empty, nor what was read ahead.
pub open spec fn lane_solid(lane: LaneTrack) -> bool
    decreases lane,
{
    &&& solid(lane.track)
    &&& match lane.ahead {
        Some(chunk) => chunk.rows.len() > 0,
        None => true,
    }
}

/// No chunk of the tracks is empty, nor what was read ahead of them.
pub open spec fn lanes_solid(lanes: Seq<LaneTrack>) -> bool
    decreases lanes,
{
    forall|i: int| 0 <= i < lanes.len() ==> lane_solid(#[trigger] lanes[i])
}

/// How structs of a type are put together from their parts.
pub open spec fn struct_side(dtype: SpecDType, has_validity: bool) -> Join {
    Join { put: struct_join(dtype, has_validity), fault: struct_fault(dtype), dtype: None }
}

/// How the results of a function are computed from its arguments.
pub open spec fn call_side(function: SpecScalarFn, dtype: SpecDType) -> Join {
    Join { put: call_join(function), fault: None, dtype: Some(dtype) }
}

/// All chunks of a track, or the error of the first that cannot be read.
pub open spec fn drained(t: Track) -> Result<Seq<Seq<Row>>, SpecError>
    decreases weight(t),
{
    match step(t) {
        (Outcome::Rows(chunk), rest) => if weight(rest) < weight(t) {
            match drained(rest) {
                Ok(others) => Ok(seq![chunk.rows] + others),
                Err(error) => Err(error),
            }
        } else {
            Ok(Seq::empty())
        },
        (Outcome::Failed(error), _) => Err(error),
        (Outcome::Ended, _) => Ok(Seq::empty()),
    }
}

/// The least number is one of them, and none is less.
pub proof fn lemma_least(numbers: Seq<nat>)
    ensures
        forall|i: int| 0 <= i < numbers.len() ==> least(numbers) <= #[trigger] numbers[i],
        numbers.len() > 0 ==> exists|i: int|
            0 <= i < numbers.len() && least(numbers) == #[trigger] numbers[i],
    decreases numbers.len(),
{
    if numbers.len() == 1 {
        assert(numbers[0] == least(numbers));
    } else if numbers.len() > 1 {
        let front = numbers.drop_last();
        lemma_least(front);
        assert forall|i: int| 0 <= i < numbers.len() implies least(numbers)
            <= #[trigger] numbers[i] by {
            if i < front.len() {
                assert(front[i] == numbers[i]);
            }
        }
        if least(numbers) == least(front) {
            let i = choose|i: int| 0 <= i < front.len() && least(front) == #[trigger] front[i];
            assert(numbers[i] == front[i]);
        } else {
            assert(numbers[numbers.len() - 1] == least(numbers));
        }
    }
}

/// The tracks before the first that has no rows next have some.
pub proof fn lemma_ready(steps: Seq<(Outcome, LaneTrack)>)
    ensures
        ready(steps) <= steps.len(),
        forall|i: int| 0 <= i < ready(steps) ==> (#[trigger] steps[i]).0 is Rows,
        ready(steps) < steps.len() ==> !(steps[ready(steps) as int].0 is Rows),
    decreases steps.len(),
{
    if steps.len() > 0 {
        let front = steps.drop_last();
        lemma_ready(front);
        assert forall|i: int| 0 <= i < ready(steps) implies (#[trigger] steps[i]).0 is Rows by {
            if i < front.len() {
                assert(front[i] == steps[i]);
            }
        }
    }
}

/// The first track that has no rows next, and those before it that have.
pub proof fn lemma_ready_at(steps: Seq<(Outcome, LaneTrack)>, k: int)
    requires
        0 <= k <= steps.len(),
        forall|i: int| 0 <= i < k ==> (#[trigger] steps[i]).0 is Rows,
        k < steps.len() ==> !(steps[k].0 is Rows),
    ensures
        ready(steps) == k,
{
    lemma_ready(steps);
    if ready(steps) < k {
        assert(steps[ready(steps) as int].0 is Rows);
    }
    if ready(steps) > k {
        assert(steps[k].0 is Rows);
    }
}

/// The shortest of the next chunks of tracks is one of them, and none is shorter.
pub proof fn lemma_lanes_len(lanes: Seq<LaneTrack>)
    ensures
        match lanes_len(lanes) {
            Some(n) => {
                &&& lanes.len() > 0
                &&& forall|i: int|
                    0 <= i < lanes.len() ==> (lane_len(#[trigger] lanes[i]) matches Some(m) && n
                        <= m)
                &&& exists|i: int|
                    0 <= i < lanes.len() && lane_len(#[trigger] lanes[i]) == Some(n)
            },
            None => lanes.len() == 0 || exists|i: int|
                0 <= i < lanes.len() && lane_len(#[trigger] lanes[i]) is None,
        },
    decreases lanes.len(),
{
    if lanes.len() == 1 {
        assert(lane_len(lanes[0]) == lanes_len(lanes));
    } else if lanes.len() > 1 {
        let front = lanes.subrange(0, lanes.len() - 1);
        lemma_lanes_len(front);
        let last = lanes[lanes.len() - 1];
        match (lanes_len(front), lane_len(last)) {
            (Some(m), Some(n)) => {
                assert forall|i: int| 0 <= i < lanes.len() implies (lane_len(
                    #[trigger] lanes[i],
                ) matches Some(x) && lanes_len(lanes)->0 <= x) by {
                    if i < front.len() {
                        assert(front[i] == lanes[i]);
                    }
                }
                if n < m {
                    assert(lane_len(lanes[lanes.len() - 1]) == Some(n));
                } else {
                    let i = choose|i: int|
                        0 <= i < front.len() && lane_len(#[trigger] front[i]) == Some(m);
                    assert(lanes[i] == front[i]);
                }
            },
            (None, _) => {
                let i = choose|i: int|
                    0 <= i < front.len() && lane_len(#[trigger] front[i]) is None;
                assert(lanes[i] == front[i]);
            },
            (_, None) => {
                assert(lane_len(lanes[lanes.len() - 1]) is None);
            },
        }
    }
}

/// The ranges that are still to be opened are the first and the others.
pub proof fn lemma_pending_unfold(pending: Seq<Pending>)
    ensures
        pending_left(pending) == if pending.len() == 0 {
            0
        } else {
            range_left(pending[0]) + pending_left(pending.subrange(1, pending.len() as int))
        },
        pending_weight(pending) == if pending.len() == 0 {
            0
        } else {
            range_weight(pending[0]) + pending_weight(pending.subrange(1, pending.len() as int))
        },
        pending_len(pending) == if pending.len() == 0 {
            None
        } else {
            range_len(pending[0])
        },
        pending.len() > 0 ==> {
            &&& range_left(pending[0]) == match pending[0] {
                Pending::Opens(track) => rows_left(track),
                Pending::Fails { rows, .. } => rows,
            }
            &&& range_weight(pending[0]) == match pending[0] {
                Pending::Opens(track) => weight(track),
                Pending::Fails { rows, .. } => rows,
            }
        },
{
}

/// A track has a next chunk exactly where rows are left, and it is not longer than they are.
pub proof fn lemma_next_len(t: Track)
    requires
        solid(t),
    ensures
        next_len(t) is None <==> rows_left(t) == 0,
        next_len(t) matches Some(n) ==> 0 < n <= rows_left(t),
    decreases t,
{
    match t {
        Track::Run { chunks, .. } => {
            lemma_full_flat(chunks);
            if chunks.len() > 0 {
                assert(chunks[0].len() > 0);
            }
        },
        Track::Chain { open, pending } => {
            assert(pending_solid(pending));
            lemma_pending_unfold(pending);
            if pending.len() > 0 {
                assert(range_solid(pending[0]));
                lemma_range_len(pending[0]);
            }
            if let Some(current) = open {
                lemma_next_len(*current);
            }
        },
        Track::Side { lanes, .. } => {
            assert(lanes_solid(lanes));
            assert forall|i: int| 0 <= i < lanes.len() implies {
                &&& lane_len(#[trigger] lanes[i]) is None <==> lane_left(lanes[i]) == 0
                &&& lane_len(lanes[i]) matches Some(n) ==> 0 < n <= lane_left(lanes[i])
                &&& lanes_left(lanes)[i] == lane_left(lanes[i])
            } by {
                assert(lane_solid(lanes[i]));
                lemma_next_len(lanes[i].track);
            }
            lemma_lanes_len(lanes);
            lemma_least(lanes_left(lanes));
            if lanes.len() > 0 {
                let j = choose|j: int|
                    0 <= j < lanes_left(lanes).len() && least(lanes_left(lanes))
                        == #[trigger] lanes_left(lanes)[j];
                assert(lanes_left(lanes)[j] == lane_left(lanes[j]));
                match lanes_len(lanes) {
                    Some(n) => {
                        assert(lane_len(lanes[j]) matches Some(m) && n <= m);
                    },
                    None => {
                        let i = choose|i: int|
                            0 <= i < lanes.len() && lane_len(#[trigger] lanes[i]) is None;
                        assert(lanes_left(lanes)[i] == 0);
                    },
                }
            }
        },
        Track::Coded { codes, .. } => lemma_next_len(*codes),
    }
}

/// A range that is still to be opened has a next chunk.
pub proof fn lemma_range_len(p: Pending)
    requires
        range_solid(p),
    ensures
        range_len(p) matches Some(n) && 0 < n <= range_left(p),
    decreases p,
{
    match p {
        Pending::Opens(track) => lemma_next_len(track),
        Pending::Fails { .. } => {},
    }
}

/// How many rows stand on a track in all: side by side, on the tracks together.
pub open spec fn weight(t: Track) -> nat
    decreases t,
{
    match t {
        Track::Run { chunks, .. } => flat(chunks).len(),
        Track::Chain { open, pending } => match open {
            Some(current) => weight(*current) + pending_weight(pending),
            None => pending_weight(pending),
        },
        Track::Side { lanes, .. } => total(lane_weights(lanes)),
        Track::Coded { codes, .. } => weight(*codes),
    }
}

/// How many rows stand on ranges that are still to be opened.
pub open spec fn pending_weight(pending: Seq<Pending>) -> nat
    decreases pending,
{
    if pending.len() == 0 {
        0
    } else {
        range_weight(pending[0]) + pending_weight(pending.subrange(1, pending.len() as int))
    }
}

/// How many rows stand on a range that is still to be opened.
pub open spec fn range_weight(p: Pending) -> nat
    decreases p,
{
    match p {
        Pending::Opens(track) => weight(track),
        Pending::Fails { rows, .. } => rows,
    }
}

/// How many rows stand on a track and were read ahead of it.
pub open spec fn lane_weight(lane: LaneTrack) -> nat
    decreases lane,
{
    match lane.ahead {
        Some(chunk) => chunk.rows.len() + weight(lane.track),
        None => weight(lane.track),
    }
}

/// How many rows stand on each of the tracks.
pub open spec fn lane_weights(lanes: Seq<LaneTrack>) -> Seq<nat>
    decreases lanes,
{
    Seq::new(
        lanes.len(),
        |i: int|
            if 0 <= i < lanes.len() {
                lane_weight(lanes[i])
            } else {
                0
            },
    )
}

/// Numbers none of which is greater are together no more, and less where one of them is.
proof fn lemma_total_less(a: Seq<nat>, b: Seq<nat>)
    requires
        a.len() == b.len(),
        forall|i: int| 0 <= i < a.len() ==> #[trigger] a[i] <= b[i],
    ensures
        total(a) <= total(b),
        forall|i: int, d: nat|
            0 <= i < a.len() && #[trigger] (a[i] + d) <= b[i] ==> total(a) + d <= total(b),
    decreases a.len(),
{
    if a.len() > 0 {
        let (x, y) = (a.drop_last(), b.drop_last());
        lemma_total_less(x, y);
        assert(a[a.len() - 1] <= b[a.len() - 1]);
        assert forall|i: int, d: nat|
            0 <= i < a.len() && #[trigger] (a[i] + d) <= b[i] implies total(a) + d <= total(b) by {
            if i < x.len() {
                assert(x[i] + d <= y[i]);
            }
        }
    }
}

/// The least of numbers that are each less by `n` is less by `n`.
pub proof fn lemma_least_less(a: Seq<nat>, b: Seq<nat>, n: nat)
    requires
        a.len() == b.len(),
        a.len() > 0,
        forall|i: int| 0 <= i < a.len() ==> #[trigger] a[i] + n == b[i],
    ensures
        least(a) + n == least(b),
{
    lemma_least(a);
    lemma_least(b);
    let i = choose|i: int| 0 <= i < a.len() && least(a) == #[trigger] a[i];
    let j = choose|j: int| 0 <= j < b.len() && least(b) == #[trigger] b[j];
    assert(a[i] + n == b[i]);
    assert(a[j] + n == b[j]);
}

/// A step is one of a track.
pub open spec fn good_step(
    before: nat,
    len: Option<nat>,
    total: nat,
    outcome: Outcome,
    after: nat,
    rest: nat,
) -> bool {
    match outcome {
        Outcome::Rows(chunk) => {
            &&& chunk.rows.len() > 0
            &&& len == Some(chunk.rows.len())
            &&& after + chunk.rows.len() == before
            &&& rest + chunk.rows.len() <= total
        },
        Outcome::Failed(_) => after <= before && rest < total,
        Outcome::Ended => len is None && after <= before && rest <= total,
    }
}

/// Reading a track leaves no empty chunk. What is delivered has the length that was said, it is not
/// delivered again, and a track that has ended has no row left.
pub proof fn lemma_step(t: Track)
    requires
        solid(t),
    ensures
        solid(step(t).1),
        good_step(
            rows_left(t),
            next_len(t),
            weight(t),
            step(t).0,
            rows_left(step(t).1),
            weight(step(t).1),
        ),
    decreases t,
{
    match t {
        Track::Run { chunks, .. } => {
            if chunks.len() > 0 {
                lemma_full_tail(chunks);
            }
        },
        Track::Chain { open, pending } => {
            assert(pending_solid(pending));
            lemma_pending_step(pending);
            if let Some(current) = open {
                lemma_step(*current);
                lemma_next_len(*current);
            }
        },
        Track::Side { lanes, join } => {
            assert(lanes_solid(lanes));
            let steps = lane_steps(lanes);
            assert forall|i: int| 0 <= i < lanes.len() implies {
                &&& steps[i] == lane_step(#[trigger] lanes[i])
                &&& lane_solid(steps[i].1)
                &&& steps[i].1.ahead is None
                &&& good_step(
                    lane_left(lanes[i]),
                    lane_len(lanes[i]),
                    lane_weight(lanes[i]),
                    steps[i].0,
                    lane_left(steps[i].1),
                    lane_weight(steps[i].1),
                )
            } by {
                assert(lane_solid(lanes[i]));
                lemma_step(lanes[i].track);
            }
            lemma_side_step(lanes, join);
        },
        Track::Coded { codes, .. } => lemma_step(*codes),
    }
}

/// Reading ranges that are still to be opened.
proof fn lemma_pending_step(pending: Seq<Pending>)
    requires
        pending_solid(pending),
    ensures
        solid(pending_step(pending).1),
        good_step(
            pending_left(pending),
            pending_len(pending),
            pending_weight(pending),
            pending_step(pending).0,
            rows_left(pending_step(pending).1),
            weight(pending_step(pending).1),
        ),
    decreases pending,
{
    lemma_pending_unfold(pending);
    if pending.len() > 0 {
        let others = pending.subrange(1, pending.len() as int);
        assert(range_solid(pending[0]));
        assert(pending_solid(others)) by {
            assert forall|i: int| 0 <= i < others.len() implies range_solid(
                #[trigger] others[i],
            ) by {
                assert(range_solid(pending[i + 1]));
            }
        }
        if let Pending::Opens(track) = pending[0] {
            lemma_step(track);
            lemma_next_len(track);
        }
    }
}

/// Reading tracks side by side.
proof fn lemma_side_step(lanes: Seq<LaneTrack>, join: Join)
    requires
        lanes_solid(lanes),
        forall|i: int|
            0 <= i < lanes.len() ==> {
                &&& lane_steps(lanes)[i] == lane_step(#[trigger] lanes[i])
                &&& lane_solid(lane_steps(lanes)[i].1)
                &&& lane_steps(lanes)[i].1.ahead is None
                &&& good_step(
                    lane_left(lanes[i]),
                    lane_len(lanes[i]),
                    lane_weight(lanes[i]),
                    lane_steps(lanes)[i].0,
                    lane_left(lane_steps(lanes)[i].1),
                    lane_weight(lane_steps(lanes)[i].1),
                )
            },
    ensures
        ({
            let t = Track::Side { lanes, join };
            let (outcome, rest) = side_step(lanes, join, lane_steps(lanes));
            &&& solid(rest)
            &&& good_step(
                rows_left(t),
                next_len(t),
                weight(t),
                outcome,
                rows_left(rest),
                weight(rest),
            )
        }),
{
    let t = Track::Side { lanes, join };
    let steps = lane_steps(lanes);
    let rest = side_step(lanes, join, steps).1;
    let k = ready(steps);
    lemma_ready(steps);
    lemma_lanes_len(lanes);
    let after = rest->lanes;
    assert(rows_left(t) == least(lanes_left(lanes)));
    assert(next_len(t) == lanes_len(lanes));
    assert(weight(t) == total(lane_weights(lanes)));
    assert(rows_left(rest) == least(lanes_left(after)));
    assert(weight(rest) == total(lane_weights(after)));
    if lanes.len() == 0 {
        assert(after =~= lanes);
    } else if k < lanes.len() {
        assert forall|i: int| 0 <= i < lanes.len() implies {
            &&& lane_solid(#[trigger] after[i])
            &&& lanes_left(after)[i] <= lanes_left(lanes)[i]
            &&& lane_weights(after)[i] <= lane_weights(lanes)[i]
        } by {
            assert(lane_solid(lanes[i]));
            assert(steps[i] == lane_step(lanes[i]));
        }
        assert(lanes_solid(after));
        lemma_least(lanes_left(lanes));
        lemma_least(lanes_left(after));
        let j = choose|j: int|
            0 <= j < lanes_left(lanes).len() && least(lanes_left(lanes))
                == #[trigger] lanes_left(lanes)[j];
        assert(lane_solid(after[j]));
        assert(least(lanes_left(after)) <= lanes_left(after)[j]);
        assert forall|i: int| 0 <= i < lanes.len() implies #[trigger] lane_weights(after)[i]
            <= lane_weights(lanes)[i] by {
            assert(lane_solid(after[i]));
        }
        lemma_total_less(lane_weights(after), lane_weights(lanes));
        assert(steps[k as int] == lane_step(lanes[k as int]));
        if steps[k as int].0 is Failed {
            assert(lane_weights(after)[k as int] + 1nat <= lane_weights(lanes)[k as int]);
        } else {
            assert(lane_len(lanes[k as int]) is None);
        }
    } else {
        let n = least(lengths(steps));
        lemma_least(lengths(steps));
        let q = choose|q: int|
            0 <= q < lengths(steps).len() && n == #[trigger] lengths(steps)[q];
        assert(steps[q].0 is Rows);
        assert(steps[q] == lane_step(lanes[q]));
        assert forall|i: int| 0 <= i < lanes.len() implies {
            &&& lane_solid(#[trigger] after[i])
            &&& lanes_left(after)[i] + n == lanes_left(lanes)[i]
            &&& lane_weights(after)[i] + n <= lane_weights(lanes)[i]
        } by {
            assert(steps[i].0 is Rows);
            assert(lane_solid(lanes[i]));
            assert(steps[i] == lane_step(lanes[i]));
            assert(lengths(steps)[i] == steps[i].0->Rows_0.rows.len());
            assert(n <= lengths(steps)[i]);
        }
        assert(lanes_solid(after));
        assert forall|i: int| 0 <= i < lanes.len() implies #[trigger] lanes_left(after)[i] + n
            == lanes_left(lanes)[i] by {
            assert(lane_solid(after[i]));
        }
        lemma_least_less(lanes_left(after), lanes_left(lanes), n);
        assert forall|i: int| 0 <= i < lanes.len() implies #[trigger] lane_weights(after)[i]
            <= lane_weights(lanes)[i] by {
            assert(lane_solid(after[i]));
        }
        lemma_total_less(lane_weights(after), lane_weights(lanes));
        assert(lane_solid(after[q]));
        assert(lane_weights(after)[q] + n <= lane_weights(lanes)[q]);
        assert(lanes_len(lanes) == Some(n)) by {
            assert(lane_len(lanes[q]) == Some(n));
            match lanes_len(lanes) {
                Some(m) => {
                    let i = choose|i: int|
                        0 <= i < lanes.len() && lane_len(#[trigger] lanes[i]) == Some(m);
                    assert(steps[i].0 is Rows);
                    assert(steps[i] == lane_step(lanes[i]));
                    assert(lengths(steps)[i] == m);
                },
                None => {
                    let i = choose|i: int|
                        0 <= i < lanes.len() && lane_len(#[trigger] lanes[i]) is None;
                    assert(steps[i].0 is Rows);
                    assert(steps[i] == lane_step(lanes[i]));
                },
            }
        }
    }
}

/// Skipping rows leaves the others, and no empty chunk.
pub proof fn lemma_skipped(t: Track, n: nat)
    requires
        solid(t),
        n <= rows_left(t),
    ensures
        solid(skipped(t, n)),
        rows_left(skipped(t, n)) + n == rows_left(t),
    decreases t,
{
    if n > 0 {
        match t {
            Track::Run { chunks, .. } => lemma_dropped(chunks, n),
            Track::Chain { open, pending } => {
                assert(pending_solid(pending));
                match open {
                    Some(current) => if n <= rows_left(*current) {
                        lemma_skipped(*current, n);
                    } else {
                        lemma_pending_skipped(pending, (n - rows_left(*current)) as nat);
                    },
                    None => lemma_pending_skipped(pending, n),
                }
            },
            Track::Side { lanes, join } => {
                assert(lanes_solid(lanes));
                let after = lanes_skipped(lanes, n);
                lemma_least(lanes_left(lanes));
                assert forall|i: int| 0 <= i < lanes.len() implies {
                    &&& lane_solid(#[trigger] after[i])
                    &&& lanes_left(after)[i] + n == lanes_left(lanes)[i]
                } by {
                    assert(lane_solid(lanes[i]));
                    assert(n <= lanes_left(lanes)[i]);
                    assert(lanes_left(lanes)[i] == lane_left(lanes[i]));
                    match lanes[i].ahead {
                        Some(chunk) => if n >= chunk.rows.len() {
                            lemma_skipped(lanes[i].track, (n - chunk.rows.len()) as nat);
                        },
                        None => lemma_skipped(lanes[i].track, n),
                    }
                }
                assert(lanes_solid(after));
                assert forall|i: int| 0 <= i < lanes.len() implies #[trigger] lanes_left(after)[i]
                    + n == lanes_left(lanes)[i] by {
                    assert(lane_solid(after[i]));
                }
                lemma_least_less(lanes_left(after), lanes_left(lanes), n);
                assert(skipped(t, n) == Track::Side { lanes: after, join });
            },
            Track::Coded { codes, .. } => lemma_skipped(*codes, n),
        }
    }
}

/// Skipping rows of ranges that are still to be opened.
proof fn lemma_pending_skipped(pending: Seq<Pending>, n: nat)
    requires
        pending_solid(pending),
        n <= pending_left(pending),
    ensures
        solid(pending_skipped(pending, n)),
        rows_left(pending_skipped(pending, n)) + n == pending_left(pending),
    decreases pending,
{
    lemma_pending_unfold(pending);
    if n > 0 && pending.len() > 0 {
        let others = pending.subrange(1, pending.len() as int);
        let rows = range_left(pending[0]);
        assert(range_solid(pending[0]));
        assert(pending_solid(others)) by {
            assert forall|i: int| 0 <= i < others.len() implies range_solid(
                #[trigger] others[i],
            ) by {
                assert(range_solid(pending[i + 1]));
            }
        }
        if n >= rows {
            lemma_pending_skipped(others, (n - rows) as nat);
        } else {
            match pending[0] {
                Pending::Opens(track) => lemma_skipped(track, n),
                Pending::Fails { error, rows } => {
                    let shorter = Pending::Fails { error, rows: (rows - n) as nat };
                    let after = seq![shorter] + others;
                    assert(after.subrange(1, after.len() as int) =~= others);
                    lemma_pending_unfold(after);
                    assert(range_solid(shorter));
                    assert(pending_solid(after)) by {
                        assert forall|i: int| 0 <= i < after.len() implies range_solid(
                            #[trigger] after[i],
                        ) by {
                            if i > 0 {
                                assert(after[i] == others[i - 1]);
                            }
                        }
                    }
                },
            }
        }
    }
}

/// What stands on a track, in the chunks in which it is delivered: rows, or the errors of reading them.
pub open spec fn chunks_of(t: Track) -> Seq<Seq<Cell>>
    decreases t,
{
    match t {
        Track::Run { chunks, .. } => Seq::new(chunks.len(), |i: int| clean(chunks[i])),
        Track::Chain { open, pending } => match open {
            Some(current) => chunks_of(*current) + pending_chunks(pending),
            None => pending_chunks(pending),
        },
        Track::Side { lanes, join } => aligned(lanes_chunks(lanes), lifted(join.put, join.fault)),
        Track::Coded { codes, change, .. } => mapped(chunks_of(*codes), changed(change)),
    }
}

/// What stands on ranges that are still to be opened.
pub open spec fn pending_chunks(pending: Seq<Pending>) -> Seq<Seq<Cell>>
    decreases pending,
{
    if pending.len() == 0 {
        Seq::empty()
    } else {
        range_chunks(pending[0]) + pending_chunks(pending.subrange(1, pending.len() as int))
    }
}

/// What stands on a range that is still to be opened.
pub open spec fn range_chunks(p: Pending) -> Seq<Seq<Cell>>
    decreases p,
{
    match p {
        Pending::Opens(track) => chunks_of(track),
        Pending::Fails { error, rows } => unread(error, rows),
    }
}

/// What was read ahead of a track, and what stands on it.
pub open spec fn lane_chunks(lane: LaneTrack) -> Seq<Seq<Cell>>
    decreases lane,
{
    match lane.ahead {
        Some(chunk) => seq![clean(chunk.rows)] + chunks_of(lane.track),
        None => chunks_of(lane.track),
    }
}

/// What stands on each of the tracks.
pub open spec fn lanes_chunks(lanes: Seq<LaneTrack>) -> Seq<Seq<Seq<Cell>>>
    decreases lanes,
{
    Seq::new(
        lanes.len(),
        |i: int|
            if 0 <= i < lanes.len() {
                lane_chunks(lanes[i])
            } else {
                Seq::empty()
            },
    )
}

/// Tracks side by side have as many rows left each.
pub open spec fn even(t: Track) -> bool
    decreases t,
{
    match t {
        Track::Run { .. } => true,
        Track::Chain { open, pending } => {
            &&& match open {
                Some(current) => even(*current),
                None => true,
            }
            &&& pending_even(pending)
        },
        Track::Side { lanes, .. } => lanes_even(lanes),
        Track::Coded { codes, .. } => even(*codes),
    }
}

/// Tracks side by side have as many rows left each, in ranges that are still to be opened.
pub open spec fn pending_even(pending: Seq<Pending>) -> bool
    decreases pending,
{
    forall|i: int| 0 <= i < pending.len() ==> range_even(#[trigger] pending[i])
}

/// Tracks side by side have as many rows left each, in a range that is still to be opened.
pub open spec fn range_even(p: Pending) -> bool
    decreases p,
{
    match p {
        Pending::Opens(track) => even(track),
        Pending::Fails { .. } => true,
    }
}

/// The tracks have as many rows left each, and so have those that they are made of.
pub open spec fn lanes_even(lanes: Seq<LaneTrack>) -> bool
    decreases lanes,
{
    forall|i: int|
        0 <= i < lanes.len() ==> {
            &&& even((#[trigger] lanes[i]).track)
            &&& lane_left(lanes[i]) == lane_left(lanes[0])
        }
}

/// A first chunk before others.
proof fn lemma_ahead(chunk: Seq<Cell>, others: Seq<Seq<Cell>>)
    requires
        full(others),
        chunk.len() > 0,
    ensures
        full(seq![chunk] + others),
        flat(seq![chunk] + others) == chunk + flat(others),
        (seq![chunk] + others).drop_first() == others,
{
    let all = seq![chunk] + others;
    assert forall|i: int| 0 <= i < all.len() implies (#[trigger] all[i]).len() > 0 by {
        if i > 0 {
            assert(all[i] == others[i - 1]);
        }
    }
    assert(all.drop_first() =~= others);
}

/// The rows that chunks hold are those of the chunks.
pub proof fn lemma_clean_chunks(chunks: Seq<Seq<Row>>)
    ensures
        ({
            let cells = Seq::new(chunks.len(), |i: int| clean(chunks[i]));
            &&& flat(cells) == clean(flat(chunks))
            &&& full(chunks) ==> full(cells)
        }),
    decreases chunks.len(),
{
    let cells = Seq::new(chunks.len(), |i: int| clean(chunks[i]));
    if chunks.len() > 0 {
        let rest = chunks.drop_first();
        lemma_clean_chunks(rest);
        assert(cells.drop_first() =~= Seq::new(rest.len(), |i: int| clean(rest[i])));
        assert(cells.first() == clean(chunks.first()));
        assert(flat(cells) =~= clean(flat(chunks)));
        if full(chunks) {
            assert forall|i: int| 0 <= i < cells.len() implies (#[trigger] cells[i]).len() > 0 by {
                assert(chunks[i].len() > 0);
            }
        }
    } else {
        assert(flat(cells) =~= clean(flat(chunks)));
    }
}

/// Dropping rows of chunks.
proof fn lemma_clean_dropped(chunks: Seq<Seq<Row>>, n: nat)
    ensures
        ({
            let rest = dropped(chunks, n);
            dropped(Seq::new(chunks.len(), |i: int| clean(chunks[i])), n) == Seq::new(
                rest.len(),
                |i: int| clean(rest[i]),
            )
        }),
    decreases chunks.len(),
{
    let cells = Seq::new(chunks.len(), |i: int| clean(chunks[i]));
    if n > 0 && chunks.len() > 0 {
        let others = chunks.drop_first();
        assert(cells.drop_first() =~= Seq::new(others.len(), |i: int| clean(others[i])));
        assert(cells.first() == clean(chunks.first()));
        if n >= chunks.first().len() {
            lemma_clean_dropped(others, (n - chunks.first().len()) as nat);
        } else {
            let rest = dropped(chunks, n);
            assert(cells.first().skip(n as int) =~= clean(chunks.first().skip(n as int)));
            assert(dropped(cells, n) =~= Seq::new(rest.len(), |i: int| clean(rest[i])));
        }
    }
}

/// As many rows stand on a track as are left of it, in chunks that are not empty.
pub proof fn lemma_chunks_left(t: Track)
    requires
        solid(t),
    ensures
        full(chunks_of(t)),
        flat(chunks_of(t)).len() == rows_left(t),
    decreases t,
{
    match t {
        Track::Run { chunks, .. } => lemma_clean_chunks(chunks),
        Track::Chain { open, pending } => {
            assert(pending_solid(pending));
            lemma_pending_chunks(pending);
            if let Some(current) = open {
                lemma_chunks_left(*current);
                lemma_flat_concat(chunks_of(*current), pending_chunks(pending));
                lemma_full_concat(chunks_of(*current), pending_chunks(pending));
            }
        },
        Track::Side { lanes, join } => {
            assert(lanes_solid(lanes));
            let cells = lanes_chunks(lanes);
            assert forall|i: int| 0 <= i < lanes.len() implies {
                &&& full(#[trigger] cells[i])
                &&& flat(cells[i]).len() == lanes_left(lanes)[i]
            } by {
                assert(lane_solid(lanes[i]));
                lemma_chunks_left(lanes[i].track);
                if let Some(chunk) = lanes[i].ahead {
                    lemma_ahead(clean(chunk.rows), chunks_of(lanes[i].track));
                }
            }
            let whole = lifted(join.put, join.fault);
            lemma_aligned_full(cells, whole);
            lemma_aligned_len(cells, whole);
            lemma_least(lanes_left(lanes));
            if lanes.len() > 0 {
                let n = least(lanes_left(lanes));
                assert(all_hold(cells, n)) by {
                    assert forall|i: int| 0 <= i < cells.len() implies flat(
                        #[trigger] cells[i],
                    ).len() >= n by {
                        assert(n <= lanes_left(lanes)[i]);
                    }
                }
                lemma_aligned_least(cells, whole, n);
                let j = choose|j: int|
                    0 <= j < lanes_left(lanes).len() && n == #[trigger] lanes_left(lanes)[j];
                assert(flat(cells[j]).len() == n);
            }
        },
        Track::Coded { codes, change, .. } => {
            lemma_chunks_left(*codes);
            lemma_mapped(chunks_of(*codes), changed(change), 0);
        },
    }
}

proof fn lemma_full_concat(a: Seq<Seq<Cell>>, b: Seq<Seq<Cell>>)
    requires
        full(a),
        full(b),
    ensures
        full(a + b),
{
    assert forall|i: int| 0 <= i < (a + b).len() implies (#[trigger] (a + b)[i]).len() > 0 by {
        if i < a.len() {
            assert((a + b)[i] == a[i]);
        } else {
            assert((a + b)[i] == b[i - a.len()]);
        }
    }
}

/// As many rows stand on ranges that are still to be opened as are left of them.
proof fn lemma_pending_chunks(pending: Seq<Pending>)
    requires
        pending_solid(pending),
    ensures
        full(pending_chunks(pending)),
        flat(pending_chunks(pending)).len() == pending_left(pending),
    decreases pending,
{
    lemma_pending_unfold(pending);
    if pending.len() > 0 {
        let others = pending.subrange(1, pending.len() as int);
        assert(range_solid(pending[0]));
        lemma_others_solid(pending);
        lemma_pending_chunks(others);
        lemma_range_chunks(pending[0]);
        lemma_flat_concat(range_chunks(pending[0]), pending_chunks(others));
        lemma_full_concat(range_chunks(pending[0]), pending_chunks(others));
    }
}

proof fn lemma_range_chunks(p: Pending)
    requires
        range_solid(p),
    ensures
        full(range_chunks(p)),
        flat(range_chunks(p)).len() == range_left(p),
    decreases p,
{
    match p {
        Pending::Opens(track) => lemma_chunks_left(track),
        Pending::Fails { error, rows } => lemma_unread(error, rows, 0),
    }
}

proof fn lemma_others_solid(pending: Seq<Pending>)
    requires
        pending_solid(pending),
        pending.len() > 0,
    ensures
        pending_solid(pending.subrange(1, pending.len() as int)),
{
    let others = pending.subrange(1, pending.len() as int);
    assert forall|i: int| 0 <= i < others.len() implies range_solid(#[trigger] others[i]) by {
        assert(range_solid(pending[i + 1]));
    }
}

/// What is delivered from chunks: the first of them, the others being left. Where it fails, the first
/// row of the first chunk does, at least where tracks side by side have as many rows each.
pub open spec fn delivers(
    chunks: Seq<Seq<Cell>>,
    even: bool,
    outcome: Outcome,
    rest: Seq<Seq<Cell>>,
) -> bool {
    match outcome {
        Outcome::Rows(chunk) => {
            &&& chunks.len() > 0
            &&& chunks.first() == clean(chunk.rows)
            &&& rest == chunks.drop_first()
        },
        Outcome::Failed(error) => even ==> {
            &&& chunks.len() > 0
            &&& chunks.first().len() > 0
            &&& chunks.first()[0] == Err::<Row, SpecError>(error)
        },
        Outcome::Ended => chunks.len() == 0,
    }
}

/// What a track delivers is the first of its chunks, and the others are left. Where tracks side by side
/// have as many rows each, it fails where its first row does, and they have as many after rows that
/// can be read.
pub proof fn law_step(t: Track)
    requires
        solid(t),
    ensures
        delivers(chunks_of(t), even(t), step(t).0, chunks_of(step(t).1)),
        even(t) && step(t).0 is Rows ==> even(step(t).1),
        t matches Track::Side { lanes, .. } && lanes.len() > 0 && ready(lane_steps(lanes))
            == lanes.len() ==> {
            &&& chunks_of(t).len() > 0
            &&& chunks_of(step(t).1) == chunks_of(t).drop_first()
        },
    decreases t,
{
    lemma_step(t);
    lemma_next_len(t);
    lemma_chunks_left(t);
    lemma_full_flat(chunks_of(t));
    match t {
        Track::Run { chunks, .. } => {
            if chunks.len() > 0 {
                assert(chunks_of(step(t).1) =~= chunks_of(t).drop_first());
            }
        },
        Track::Chain { open, pending } => {
            assert(pending_solid(pending));
            if even(t) {
                assert(pending_even(pending));
            }
            law_pending_step(pending);
            if let Some(current) = open {
                law_step(*current);
                lemma_step(*current);
                lemma_next_len(*current);
                lemma_chunks_left(*current);
                lemma_full_flat(chunks_of(*current));
                let (a, b) = (chunks_of(*current), pending_chunks(pending));
                if a.len() == 0 {
                    assert(a + b =~= b);
                } else {
                    assert((a + b).first() == a.first());
                    assert((a + b).drop_first() =~= a.drop_first() + b);
                }
            }
        },
        Track::Side { lanes, join } => {
            assert(lanes_solid(lanes));
            if even(t) {
                assert(lanes_even(lanes));
            }
            let steps = lane_steps(lanes);
            assert forall|i: int| 0 <= i < lanes.len() implies {
                &&& steps[i] == lane_step(#[trigger] lanes[i])
                &&& lane_solid(steps[i].1)
                &&& lane_solid(lanes[i])
                &&& steps[i].1.ahead is None
                &&& good_step(
                    lane_left(lanes[i]),
                    lane_len(lanes[i]),
                    lane_weight(lanes[i]),
                    steps[i].0,
                    lane_left(steps[i].1),
                    lane_weight(steps[i].1),
                )
                &&& delivers(
                    lane_chunks(lanes[i]),
                    even(lanes[i].track),
                    steps[i].0,
                    lane_chunks(steps[i].1),
                )
                &&& even(lanes[i].track) && steps[i].0 is Rows ==> even(steps[i].1.track)
                &&& full(lane_chunks(lanes[i]))
                &&& flat(lane_chunks(lanes[i])).len() == lane_left(lanes[i])
            } by {
                assert(lane_solid(lanes[i]));
                lemma_step(lanes[i].track);
                law_step(lanes[i].track);
                lemma_chunks_left(lanes[i].track);
                if let Some(chunk) = lanes[i].ahead {
                    lemma_ahead(clean(chunk.rows), chunks_of(lanes[i].track));
                }
            }
            lemma_side_chunks(lanes, join);
        },
        Track::Coded { codes, change, .. } => {
            law_step(*codes);
            let (all, rest) = (chunks_of(*codes), chunks_of(step(*codes).1));
            if let Outcome::Rows(chunk) = step(*codes).0 {
                assert(chunks_of(t).first() =~= clean(chunk.rows.map_values(change)));
                assert(chunks_of(step(t).1) =~= chunks_of(t).drop_first());
            }
        },
    }
}

/// What ranges that are still to be opened deliver.
proof fn law_pending_step(pending: Seq<Pending>)
    requires
        pending_solid(pending),
    ensures
        delivers(
            pending_chunks(pending),
            pending_even(pending),
            pending_step(pending).0,
            chunks_of(pending_step(pending).1),
        ),
        pending_even(pending) && pending_step(pending).0 is Rows ==> even(pending_step(pending).1),
    decreases pending,
{
    if pending.len() > 0 {
        let others = pending.subrange(1, pending.len() as int);
        assert(range_solid(pending[0]));
        lemma_others_solid(pending);
        lemma_range_chunks(pending[0]);
        let (a, b) = (range_chunks(pending[0]), pending_chunks(others));
        lemma_full_flat(a);
        assert((a + b).first() == a.first());
        assert((a + b).drop_first() =~= a.drop_first() + b);
        if pending_even(pending) {
            assert(range_even(pending[0]));
            assert(pending_even(others)) by {
                assert forall|i: int| 0 <= i < others.len() implies range_even(
                    #[trigger] others[i],
                ) by {
                    assert(range_even(pending[i + 1]));
                }
            }
        }
        match pending[0] {
            Pending::Opens(track) => {
                law_step(track);
                lemma_step(track);
                lemma_next_len(track);
            },
            Pending::Fails { error, rows } => {
                assert(a.first() == broken(error, rows));
            },
        }
    }
}

/// What tracks side by side deliver.
#[verifier::rlimit(40)]
proof fn lemma_side_chunks(lanes: Seq<LaneTrack>, join: Join)
    requires
        forall|i: int|
            0 <= i < lanes.len() ==> {
                &&& lane_steps(lanes)[i] == lane_step(#[trigger] lanes[i])
                &&& lane_solid(lanes[i])
                &&& lane_steps(lanes)[i].1.ahead is None
                &&& good_step(
                    lane_left(lanes[i]),
                    lane_len(lanes[i]),
                    lane_weight(lanes[i]),
                    lane_steps(lanes)[i].0,
                    lane_left(lane_steps(lanes)[i].1),
                    lane_weight(lane_steps(lanes)[i].1),
                )
                &&& delivers(
                    lane_chunks(lanes[i]),
                    even(lanes[i].track),
                    lane_steps(lanes)[i].0,
                    lane_chunks(lane_steps(lanes)[i].1),
                )
                &&& even(lanes[i].track) && lane_steps(lanes)[i].0 is Rows ==> even(
                    lane_steps(lanes)[i].1.track,
                )
                &&& full(lane_chunks(lanes[i]))
                &&& flat(lane_chunks(lanes[i])).len() == lane_left(lanes[i])
            },
    ensures
        ({
            let t = Track::Side { lanes, join };
            let (outcome, rest) = side_step(lanes, join, lane_steps(lanes));
            &&& delivers(chunks_of(t), lanes_even(lanes), outcome, chunks_of(rest))
            &&& lanes_even(lanes) && outcome is Rows ==> even(rest)
            &&& lanes.len() > 0 && ready(lane_steps(lanes)) == lanes.len() ==> {
                &&& chunks_of(t).len() > 0
                &&& chunks_of(rest) == chunks_of(t).drop_first()
            }
        }),
{
    let t = Track::Side { lanes, join };
    let steps = lane_steps(lanes);
    let (outcome, rest) = side_step(lanes, join, steps);
    let after = rest->lanes;
    let cells = lanes_chunks(lanes);
    let whole = lifted(join.put, join.fault);
    let k = ready(steps);
    lemma_ready(steps);
    assert(chunks_of(t) == aligned(cells, whole));
    assert(chunks_of(rest) == aligned(lanes_chunks(after), whole));
    if lanes.len() == 0 {
    } else if k < lanes.len() {
        let kk = k as int;
        assert(steps[kk] == lane_step(lanes[kk]));
        assert(cells[kk] == lane_chunks(lanes[kk]));
        match steps[kk].0 {
            Outcome::Ended => {
                assert(cells[kk].len() == 0);
                assert(!all_ready(cells));
            },
            Outcome::Failed(error) => {
                if lanes_even(lanes) {
                    assert(even(lanes[kk].track));
                    assert(cells[kk].len() > 0);
                    assert(flat(cells[kk]).len() > 0);
                    assert forall|i: int| 0 <= i < cells.len() implies (
                    #[trigger] cells[i]).len() > 0 by {
                        assert(lane_left(lanes[i]) == lane_left(lanes[0]));
                        assert(lane_left(lanes[kk]) == lane_left(lanes[0]));
                        assert(cells[i] == lane_chunks(lanes[i]));
                        lemma_full_flat(cells[i]);
                    }
                    assert(all_ready(cells));
                    lemma_shortest(cells);
                    let q = choose|q: int|
                        0 <= q < cells.len() && shortest(cells) == (#[trigger] cells[q]).first().len();
                    assert(cells[q] == lane_chunks(lanes[q]));
                    assert(full(cells[q]) && cells[q][0].len() > 0);
                    let n = shortest(cells);
                    let row = across(cells, 0);
                    assert forall|j: int| 0 <= j < kk implies (#[trigger] row[j]) is Ok by {
                        assert(steps[j].0 is Rows);
                        assert(steps[j] == lane_step(lanes[j]));
                        assert(cells[j] == lane_chunks(lanes[j]));
                        assert(cells[j].first() == clean(steps[j].0->Rows_0.rows));
                    }
                    assert(row[kk] == Err::<Row, SpecError>(error));
                    lemma_failure_at(row, kk);
                    assert(joined(cells, n, whole)[0] == whole(row));
                    assert(chunks_of(t).first() == joined(cells, n, whole));
                }
            },
            Outcome::Rows(_) => {},
        }
    } else {
        let n = least(lengths(steps));
        lemma_least(lengths(steps));
        lemma_shortest(cells);
        let q = choose|q: int| 0 <= q < lengths(steps).len() && n == #[trigger] lengths(steps)[q];
        assert forall|i: int| 0 <= i < lanes.len() implies {
            let chunk = steps[i].0->Rows_0;
            &&& (#[trigger] cells[i]).len() > 0
            &&& cells[i].first() == clean(chunk.rows)
            &&& cells[i].first().len() == lengths(steps)[i]
            &&& n <= chunk.rows.len()
            &&& lanes_chunks(after)[i] == dropped(cells[i], n)
            &&& lane_left(after[i]) + n == lane_left(lanes[i])
            &&& even(lanes[i].track) ==> even(after[i].track)
        } by {
            assert(steps[i].0 is Rows);
            assert(steps[i] == lane_step(lanes[i]));
            assert(cells[i] == lane_chunks(lanes[i]));
            let chunk = steps[i].0->Rows_0;
            assert(n <= lengths(steps)[i]);
            lemma_dropped_first(cells[i]);
            let others = lane_chunks(steps[i].1);
            assert(after[i] == kept(steps[i], n));
            assert(others == chunks_of(steps[i].1.track));
            if n < chunk.rows.len() {
                reveal_with_fuel(dropped, 2);
                assert(clean(chunk.rows).skip(n as int) =~= clean(chunk.rows.skip(n as int)));
                if n > 0 {
                    assert(dropped(cells[i], n) =~= seq![clean(chunk.rows.skip(n as int))] + others);
                } else {
                    assert(chunk.rows.skip(0) =~= chunk.rows);
                    assert(cells[i] =~= seq![clean(chunk.rows)] + others);
                }
            }
        }
        assert(steps[q].0 is Rows);
        assert(cells[q].len() > 0);
        assert(shortest(cells) == n) by {
            let p = choose|p: int|
                0 <= p < cells.len() && shortest(cells) == (#[trigger] cells[p]).first().len();
            assert(cells[p].first().len() == lengths(steps)[p]);
            assert(cells[q].first().len() == lengths(steps)[q]);
        }
        assert(n > 0) by {
            assert(steps[q] == lane_step(lanes[q]));
        }
        assert(all_ready(cells));
        assert(lanes_chunks(after) =~= all_dropped(cells, n));
        assert(chunks_of(t).first() == joined(cells, n, whole));
        assert(chunks_of(t).drop_first() =~= chunks_of(rest));
        assert forall|i: int| 0 <= i < n implies {
            &&& first_failure(#[trigger] across(cells, i)) is None
            &&& rows_of(across(cells, i)) == rows_at(steps, i)
        } by {
            let row = across(cells, i);
            assert forall|j: int| 0 <= j < row.len() implies row[j] == Ok::<Row, SpecError>(
                rows_at(steps, i)[j],
            ) by {
                assert(cells[j].first() == clean(steps[j].0->Rows_0.rows));
                assert(n <= steps[j].0->Rows_0.rows.len());
            }
            lemma_first_failure(row);
            assert(rows_of(row) =~= rows_at(steps, i));
        }
        match join.fault {
            Some(error) => {
                assert(across(cells, 0).len() == lanes.len());
                assert(joined(cells, n, whole)[0] == whole(across(cells, 0)));
            },
            None => {
                let chunk = put_together(steps, join, n);
                assert forall|i: int| 0 <= i < n implies joined(cells, n, whole)[i] == clean(
                    chunk.rows,
                )[i] by {
                    assert(first_failure(across(cells, i)) is None);
                }
                assert(joined(cells, n, whole) =~= clean(chunk.rows));
            },
        }
        if lanes_even(lanes) {
            assert(lanes_even(after)) by {
                assert forall|i: int| 0 <= i < after.len() implies {
                    &&& even((#[trigger] after[i]).track)
                    &&& lane_left(after[i]) == lane_left(after[0])
                } by {
                    assert(even(lanes[i].track));
                    assert(lane_left(lanes[i]) == lane_left(lanes[0]));
                    assert(cells[i].len() > 0);
                    assert(cells[0].len() > 0);
                }
            }
        }
    }
}

/// Every row of a track can be read.
pub open spec fn certain(t: Track) -> bool
    decreases t,
{
    match t {
        Track::Run { .. } => true,
        Track::Chain { open, pending } => {
            &&& match open {
                Some(current) => certain(*current),
                None => true,
            }
            &&& pending_certain(pending)
        },
        Track::Side { lanes, join } => join.fault is None && lanes_certain(lanes),
        Track::Coded { codes, .. } => certain(*codes),
    }
}

/// Every row of ranges that are still to be opened can be read.
pub open spec fn pending_certain(pending: Seq<Pending>) -> bool
    decreases pending,
{
    forall|i: int| 0 <= i < pending.len() ==> range_certain(#[trigger] pending[i])
}

/// Every row of a range that is still to be opened can be read.
pub open spec fn range_certain(p: Pending) -> bool
    decreases p,
{
    match p {
        Pending::Opens(track) => certain(track),
        Pending::Fails { .. } => false,
    }
}

/// Every row of the tracks can be read.
pub open spec fn lanes_certain(lanes: Seq<LaneTrack>) -> bool
    decreases lanes,
{
    forall|i: int| 0 <= i < lanes.len() ==> certain((#[trigger] lanes[i]).track)
}

/// Every row of tracks that are read side by side can be read; others may fail.
pub open spec fn tidy(t: Track) -> bool
    decreases t,
{
    match t {
        Track::Run { .. } => true,
        Track::Chain { open, pending } => {
            &&& match open {
                Some(current) => tidy(*current),
                None => true,
            }
            &&& pending_tidy(pending)
        },
        Track::Side { lanes, .. } => lanes_certain(lanes),
        Track::Coded { codes, .. } => tidy(*codes),
    }
}

/// Every row of tracks that are read side by side can be read, in ranges that are still to be opened.
pub open spec fn pending_tidy(pending: Seq<Pending>) -> bool
    decreases pending,
{
    forall|i: int| 0 <= i < pending.len() ==> range_tidy(#[trigger] pending[i])
}

/// Every row of tracks that are read side by side can be read, in a range that is still to be opened.
pub open spec fn range_tidy(p: Pending) -> bool
    decreases p,
{
    match p {
        Pending::Opens(track) => tidy(track),
        Pending::Fails { .. } => true,
    }
}

/// A track every row of which can be read does not fail.
pub proof fn law_certain(t: Track)
    requires
        solid(t),
        certain(t),
    ensures
        !(step(t).0 is Failed),
        certain(step(t).1),
    decreases t,
{
    match t {
        Track::Run { .. } => {},
        Track::Chain { open, pending } => {
            assert(pending_solid(pending));
            assert(pending_certain(pending));
            lemma_pending_certain(pending);
            if let Some(current) = open {
                law_certain(*current);
            }
        },
        Track::Side { lanes, join } => {
            assert(lanes_solid(lanes));
            assert(lanes_certain(lanes));
            let steps = lane_steps(lanes);
            assert forall|i: int| 0 <= i < lanes.len() implies {
                &&& steps[i] == lane_step(#[trigger] lanes[i])
                &&& !(steps[i].0 is Failed)
                &&& certain(steps[i].1.track)
            } by {
                assert(lane_solid(lanes[i]));
                law_certain(lanes[i].track);
            }
            lemma_ready(steps);
            let after = side_left(lanes, steps);
            assert forall|i: int| 0 <= i < after.len() implies certain(
                (#[trigger] after[i]).track,
            ) by {
                assert(certain(lanes[i].track));
                assert(steps[i] == lane_step(lanes[i]));
            }
            assert(lanes_certain(after));
            assert(step(t).1 == Track::Side { lanes: after, join });
            if ready(steps) < lanes.len() {
                assert(steps[ready(steps) as int] == lane_step(lanes[ready(steps) as int]));
            }
        },
        Track::Coded { codes, .. } => law_certain(*codes),
    }
}

proof fn lemma_pending_certain(pending: Seq<Pending>)
    requires
        pending_solid(pending),
        pending_certain(pending),
    ensures
        !(pending_step(pending).0 is Failed),
        certain(pending_step(pending).1),
    decreases pending,
{
    if pending.len() > 0 {
        let others = pending.subrange(1, pending.len() as int);
        assert(range_solid(pending[0]));
        assert(range_certain(pending[0]));
        lemma_others_solid(pending);
        assert(pending_certain(others)) by {
            assert forall|i: int| 0 <= i < others.len() implies range_certain(
                #[trigger] others[i],
            ) by {
                assert(range_certain(pending[i + 1]));
            }
        }
        if let Pending::Opens(track) = pending[0] {
            law_certain(track);
            lemma_pending_certain(others);
        }
    }
}

/// What cannot be read of a track is passed over, and the chunks after it are left, where every row of
/// tracks that are read side by side can be read.
pub proof fn law_passed_over(t: Track)
    requires
        solid(t),
        tidy(t),
    ensures
        tidy(step(t).1),
        step(t).0 is Failed ==> {
            &&& chunks_of(t).len() > 0
            &&& chunks_of(step(t).1) == chunks_of(t).drop_first()
        },
    decreases t,
{
    match t {
        Track::Run { .. } => {},
        Track::Chain { open, pending } => {
            assert(pending_solid(pending));
            assert(pending_tidy(pending));
            lemma_pending_passed_over(pending);
            if let Some(current) = open {
                law_passed_over(*current);
                law_step(*current);
                let (a, b) = (chunks_of(*current), pending_chunks(pending));
                if a.len() == 0 {
                    assert(a + b =~= b);
                } else {
                    assert((a + b).drop_first() =~= a.drop_first() + b);
                }
            }
        },
        Track::Side { lanes, join } => {
            assert(lanes_solid(lanes));
            assert(lanes_certain(lanes));
            let steps = lane_steps(lanes);
            assert forall|i: int| 0 <= i < lanes.len() implies {
                &&& steps[i] == lane_step(#[trigger] lanes[i])
                &&& !(steps[i].0 is Failed)
                &&& certain(steps[i].1.track)
            } by {
                assert(lane_solid(lanes[i]));
                law_certain(lanes[i].track);
            }
            lemma_ready(steps);
            law_step(t);
            let after = side_left(lanes, steps);
            assert forall|i: int| 0 <= i < after.len() implies certain(
                (#[trigger] after[i]).track,
            ) by {
                assert(certain(lanes[i].track));
                assert(steps[i] == lane_step(lanes[i]));
            }
            assert(lanes_certain(after));
            assert(step(t).1 == Track::Side { lanes: after, join });
            if ready(steps) < lanes.len() {
                assert(steps[ready(steps) as int] == lane_step(lanes[ready(steps) as int]));
            }
        },
        Track::Coded { codes, change, .. } => {
            law_passed_over(*codes);
            if step(t).0 is Failed {
                assert(chunks_of(step(t).1) =~= chunks_of(t).drop_first());
            }
        },
    }
}

proof fn lemma_pending_passed_over(pending: Seq<Pending>)
    requires
        pending_solid(pending),
        pending_tidy(pending),
    ensures
        tidy(pending_step(pending).1),
        pending_step(pending).0 is Failed ==> {
            &&& pending_chunks(pending).len() > 0
            &&& chunks_of(pending_step(pending).1) == pending_chunks(pending).drop_first()
        },
    decreases pending,
{
    if pending.len() > 0 {
        let others = pending.subrange(1, pending.len() as int);
        assert(range_solid(pending[0]));
        assert(range_tidy(pending[0]));
        lemma_others_solid(pending);
        assert(pending_tidy(others)) by {
            assert forall|i: int| 0 <= i < others.len() implies range_tidy(
                #[trigger] others[i],
            ) by {
                assert(range_tidy(pending[i + 1]));
            }
        }
        let (a, b) = (range_chunks(pending[0]), pending_chunks(others));
        assert(pending_chunks(pending) == a + b);
        match pending[0] {
            Pending::Opens(track) => {
                law_passed_over(track);
                lemma_step(track);
                lemma_next_len(track);
                if a.len() > 0 {
                    assert((a + b).drop_first() =~= a.drop_first() + b);
                }
            },
            Pending::Fails { error, rows } => {
                assert(a =~= seq![broken(error, rows)]);
                assert((a + b).drop_first() =~= b);
            },
        }
    }
}

/// Skipping rows of a track drops them from what stands on it; tracks side by side that have as many
/// rows each have as many after it.
pub proof fn law_skipped(t: Track, n: nat)
    requires
        solid(t),
        n <= rows_left(t),
    ensures
        chunks_of(skipped(t, n)) == dropped(chunks_of(t), n),
        even(t) ==> even(skipped(t, n)),
    decreases t,
{
    if n > 0 {
        match t {
            Track::Run { chunks, .. } => lemma_clean_dropped(chunks, n),
            Track::Chain { open, pending } => {
                assert(pending_solid(pending));
                if even(t) {
                    assert(pending_even(pending));
                }
                match open {
                    Some(current) => {
                        let (a, b) = (chunks_of(*current), pending_chunks(pending));
                        lemma_chunks_left(*current);
                        lemma_dropped_concat(a, b, n);
                        if n <= rows_left(*current) {
                            law_skipped(*current, n);
                        } else {
                            law_pending_skipped(pending, (n - rows_left(*current)) as nat);
                        }
                    },
                    None => law_pending_skipped(pending, n),
                }
            },
            Track::Side { lanes, join } => {
                assert(lanes_solid(lanes));
                let after = lanes_skipped(lanes, n);
                let cells = lanes_chunks(lanes);
                lemma_least(lanes_left(lanes));
                assert forall|i: int| 0 <= i < lanes.len() implies {
                    &&& full(#[trigger] cells[i])
                    &&& flat(cells[i]).len() >= n
                    &&& lanes_chunks(after)[i] == dropped(cells[i], n)
                    &&& lane_left(after[i]) + n == lane_left(lanes[i])
                    &&& even(lanes[i].track) ==> even(after[i].track)
                } by {
                    assert(lane_solid(lanes[i]));
                    assert(n <= lanes_left(lanes)[i]);
                    lemma_lane_skipped(lanes[i], n);
                }
                if even(t) {
                    assert(lanes_even(lanes));
                    assert(lanes_even(after)) by {
                        assert forall|i: int| 0 <= i < after.len() implies {
                            &&& even((#[trigger] after[i]).track)
                            &&& lane_left(after[i]) == lane_left(after[0])
                        } by {
                            assert(even(lanes[i].track));
                            assert(lane_left(lanes[i]) == lane_left(lanes[0]));
                            assert(full(cells[i]) && full(cells[0]));
                        }
                    }
                }
                assert(lanes_chunks(after) =~= all_dropped(cells, n));
                assert(skipped(t, n) == Track::Side { lanes: after, join });
                lemma_aligned_dropped(cells, lifted(join.put, join.fault), n);
            },
            Track::Coded { codes, change, .. } => {
                law_skipped(*codes, n);
                lemma_mapped(chunks_of(*codes), changed(change), n);
            },
        }
    }
}

/// Skipping rows of a track, what was read ahead of it first.
pub proof fn lemma_lane_skipped(lane: LaneTrack, n: nat)
    requires
        lane_solid(lane),
        n <= lane_left(lane),
    ensures
        full(lane_chunks(lane)),
        flat(lane_chunks(lane)).len() == lane_left(lane),
        lane_chunks(lane_skipped(lane, n)) == dropped(lane_chunks(lane), n),
        lane_solid(lane_skipped(lane, n)),
        lane_left(lane_skipped(lane, n)) + n == lane_left(lane),
        even(lane.track) ==> even(lane_skipped(lane, n).track),
    decreases lane,
{
    lemma_chunks_left(lane.track);
    match lane.ahead {
        Some(chunk) => {
            let others = chunks_of(lane.track);
            let first = clean(chunk.rows);
            let all = seq![first] + others;
            lemma_ahead(first, others);
            assert(lane_chunks(lane) == all);
            assert(all.first() == first);
            if n < chunk.rows.len() {
                assert(first.skip(n as int) =~= clean(chunk.rows.skip(n as int)));
                if n == 0 {
                    assert(chunk.rows.skip(0) =~= chunk.rows);
                }
                assert(dropped(all, n) =~= lane_chunks(lane_skipped(lane, n)));
            } else {
                let m = (n - chunk.rows.len()) as nat;
                law_skipped(lane.track, m);
                lemma_skipped(lane.track, m);
                assert(dropped(all, n) == dropped(others, m));
            }
        },
        None => {
            law_skipped(lane.track, n);
            lemma_skipped(lane.track, n);
        },
    }
}

/// Skipping rows of ranges that are still to be opened.
proof fn law_pending_skipped(pending: Seq<Pending>, n: nat)
    requires
        pending_solid(pending),
        n <= pending_left(pending),
    ensures
        chunks_of(pending_skipped(pending, n)) == dropped(pending_chunks(pending), n),
        pending_even(pending) ==> even(pending_skipped(pending, n)),
    decreases pending,
{
    lemma_pending_unfold(pending);
    if n > 0 && pending.len() > 0 {
        let others = pending.subrange(1, pending.len() as int);
        let rows = range_left(pending[0]);
        assert(range_solid(pending[0]));
        lemma_others_solid(pending);
        lemma_range_chunks(pending[0]);
        lemma_dropped_concat(range_chunks(pending[0]), pending_chunks(others), n);
        if pending_even(pending) {
            assert(range_even(pending[0]));
            assert(pending_even(others)) by {
                assert forall|i: int| 0 <= i < others.len() implies range_even(
                    #[trigger] others[i],
                ) by {
                    assert(range_even(pending[i + 1]));
                }
            }
        }
        if n >= rows {
            law_pending_skipped(others, (n - rows) as nat);
        } else {
            match pending[0] {
                Pending::Opens(track) => law_skipped(track, n),
                Pending::Fails { error, rows } => {
                    let shorter = Pending::Fails { error, rows: (rows - n) as nat };
                    let after = seq![shorter] + others;
                    assert(after.subrange(1, after.len() as int) =~= others);
                    lemma_unread(error, rows, n);
                    if pending_even(others) {
                        assert forall|i: int| 0 <= i < after.len() implies range_even(
                            #[trigger] after[i],
                        ) by {
                            if i > 0 {
                                assert(after[i] == others[i - 1]);
                            }
                        }
                        assert(pending_even(after));
                    }
                    assert(pending_chunks(after) == range_chunks(shorter) + pending_chunks(others));
                },
            }
        }
    }
}

/// Reading a track, what was read ahead of it first.
pub proof fn lemma_lane(lane: LaneTrack)
    requires
        lane_solid(lane),
    ensures
        full(lane_chunks(lane)),
        flat(lane_chunks(lane)).len() == lane_left(lane),
        lane_len(lane) is None <==> lane_left(lane) == 0,
        lane_len(lane) matches Some(n) ==> 0 < n <= lane_left(lane),
        lane_solid(lane_step(lane).1),
        good_step(
            lane_left(lane),
            lane_len(lane),
            lane_weight(lane),
            lane_step(lane).0,
            lane_left(lane_step(lane).1),
            lane_weight(lane_step(lane).1),
        ),
        delivers(
            lane_chunks(lane),
            even(lane.track),
            lane_step(lane).0,
            lane_chunks(lane_step(lane).1),
        ),
        even(lane.track) && lane_step(lane).0 is Rows ==> even(lane_step(lane).1.track),
{
    lemma_step(lane.track);
    law_step(lane.track);
    lemma_next_len(lane.track);
    lemma_chunks_left(lane.track);
    if let Some(chunk) = lane.ahead {
        lemma_ahead(clean(chunk.rows), chunks_of(lane.track));
    }
}

/// Reading the first rows of a track leaves the others; where all rows can be read, so can these.
pub proof fn law_read(lane: LaneTrack, n: nat)
    requires
        lane_solid(lane),
        lane_len(lane) matches Some(len) && 0 < n <= len,
    ensures
        lane_solid(lane_read(lane, n).1),
        match lane_read(lane, n) {
            (Outcome::Rows(chunk), rest) => {
                &&& chunk.rows.len() == n
                &&& clean(chunk.rows) == flat(lane_chunks(lane)).take(n as int)
                &&& flat(lane_chunks(rest)) == flat(lane_chunks(lane)).skip(n as int)
                &&& lane_left(rest) + n == lane_left(lane)
                &&& even(lane.track) ==> even(rest.track)
            },
            (Outcome::Failed(error), _) => even(lane.track) ==> flat(lane_chunks(lane))[0] == Err::<
                Row,
                SpecError,
            >(error),
            (Outcome::Ended, _) => false,
        },
{
    lemma_lane(lane);
    let all = lane_chunks(lane);
    lemma_full_flat(all);
    if let (Outcome::Rows(chunk), rest) = lane_step(lane) {
        let after = lane_read(lane, n).1;
        let others = chunks_of(rest.track);
        assert(all.drop_first() == others);
        assert(clean(chunk.rows.take(n as int)) =~= flat(all).take(n as int));
        if n < chunk.rows.len() {
            lemma_chunks_left(rest.track);
            lemma_ahead(clean(chunk.rows.skip(n as int)), others);
        }
        assert(flat(lane_chunks(after)) =~= flat(all).skip(n as int));
    }
}

/// Reading all of a track gives its chunks, or the error of its first row that cannot be read.
pub proof fn law_drained(t: Track)
    requires
        solid(t),
        even(t),
    ensures
        match drained(t) {
            Ok(chunks) => {
                &&& flat(chunks_of(t)) == clean(flat(chunks))
                &&& chunks.len() == chunks_of(t).len()
            },
            Err(error) => first_failure(flat(chunks_of(t))) == Some(error),
        },
    decreases weight(t),
{
    let all = chunks_of(t);
    lemma_step(t);
    law_step(t);
    match step(t) {
        (Outcome::Rows(chunk), rest) => {
            law_drained(rest);
            lemma_clean(chunk.rows);
            lemma_failure_concat(clean(chunk.rows), flat(all.drop_first()));
            if let Ok(others) = drained(rest) {
                let chunks = seq![chunk.rows] + others;
                assert(chunks.drop_first() =~= others);
                assert(flat(all) =~= clean(flat(chunks)));
            }
        },
        (Outcome::Failed(error), _) => {
            lemma_failure_at(flat(all), 0);
        },
        (Outcome::Ended, _) => {
            assert(flat(all) =~= clean(flat(Seq::<Seq<Row>>::empty())));
        },
    }
}

} // verus!
