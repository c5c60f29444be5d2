//! Streams read side by side, with what was read ahead of each.
use vstd::prelude::*;
use std::ops::Range;
use crate::chunks::shortest;
use crate::error::{VortexError, VortexResult};
use crate::future::{all_rows, ArrayFuture, ArrayPlan};
use crate::layout::{
    accepts_range, first_error, lemma_tallest, open_error, readable, tallest, track, Layout,
};
use crate::reader::{
    chunk_of, lane_ok, lane_track, lane_tracks, lanes_ok, layout_of, layouts_of, lemma_lane_solid,
    outcome_of, says, stream_dtype, stream_height, stream_uniform, tallest_lane, up_to,
    Reader, ReaderRef, ReaderStream, ReaderStreamRef,
};
use crate::row::Row;
use crate::track::{
    head, kept, lane_left, lane_len, lane_read, lane_skipped, lane_step, lane_steps, lanes_left,
    lanes_len, lanes_skipped, least, lemma_lanes_len, lemma_least, lemma_ready, lemma_ready_at, lemma_step,
    lengths, put_together, ready, rows_at, side_left, tail, Join, LaneTrack, Outcome,
};

verus! {

/// A stream, and what was read ahead of it.
pub struct Lane {
    pub(crate) stream: ReaderStreamRef,
    pub(crate) buffer: Option<ArrayFuture>,
}

/// The arrays that a stream delivers, and what was read ahead of it, are all of its type.
pub(crate) open spec fn lane_uniform(lane: Lane) -> bool {
    &&& stream_uniform(lane.stream)
    &&& lane.buffer matches Some(future) ==> future.spec_dtype() == stream_dtype(lane.stream)
}

/// None of the streams is taller than the tallest.
pub(crate) proof fn lemma_tallest_lane(lanes: Seq<Lane>, i: int)
    requires
        0 <= i < lanes.len(),
    ensures
        stream_height(lanes[i].stream) <= tallest_lane(lanes),
    decreases lanes.len(),
{
    if i < lanes.len() - 1 {
        lemma_tallest_lane(lanes.drop_last(), i);
    }
}

/// The tallest of the streams is no taller than a bound on them all.
pub(crate) proof fn lemma_tallest_bound(lanes: Seq<Lane>, bound: nat)
    requires
        forall|i: int|
            0 <= i < lanes.len() ==> stream_height((#[trigger] lanes[i]).stream) <= bound,
    ensures
        tallest_lane(lanes) <= bound,
    decreases lanes.len(),
{
    if lanes.len() > 0 {
        lemma_tallest_bound(lanes.drop_last(), bound);
    }
}

/// The rows of an array from a position on.
fn rest_of(future: &ArrayFuture, n: usize) -> (result: ArrayFuture)
    requires
        n <= future.rows().len(),
    ensures
        chunk_of(result) == tail(chunk_of(*future), n as nat),
        result.spec_dtype() == future.spec_dtype(),
        result.spec_plan() == (ArrayPlan::Slice {
            parent: *future,
            start: n,
            end: future.spec_len(),
        }),
{
    let len = future.len();
    let result = future.slice(n..len);
    assert(chunk_of(result) =~= tail(chunk_of(*future), n as nat));
    result
}

/// The first rows of an array, or all of them.
fn first_of(future: ArrayFuture, n: usize) -> (result: ArrayFuture)
    requires
        n <= future.rows().len(),
    ensures
        chunk_of(result) == head(chunk_of(future), n as nat),
        result.spec_dtype() == future.spec_dtype(),
{
    let len = future.len();
    if n < len {
        let result = future.slice(0..n);
        assert(chunk_of(result) =~= head(chunk_of(future), n as nat));
        result
    } else {
        assert(chunk_of(future) =~= head(chunk_of(future), n as nat));
        future
    }
}

impl Lane {
    /// A stream that nothing was read ahead of.
    pub(crate) fn new(stream: ReaderStreamRef) -> (result: Lane)
        ensures
            result.stream == stream,
            result.buffer is None,
    {
        Lane { stream, buffer: None }
    }

    /// The next chunk, from what was read ahead first.
    pub(crate) fn next_for_child(&mut self) -> (result: VortexResult<Option<ArrayFuture>>)
        requires
            lane_ok(*old(self)),
        ensures
            lane_ok(*final(self)),
            stream_height(final(self).stream) <= stream_height(old(self).stream),
            stream_dtype(final(self).stream) == stream_dtype(old(self).stream),
            lane_uniform(*old(self)) ==> lane_uniform(*final(self)),
            old(self).buffer is Some ==> {
                &&& result == Ok::<Option<ArrayFuture>, VortexError>(old(self).buffer)
                &&& final(self).stream == old(self).stream
            },
            final(self).buffer is None,
            outcome_of(result) == lane_step(lane_track(*old(self))).0,
            lane_track(*final(self)) == lane_step(lane_track(*old(self))).1,
            result matches Ok(Some(future)) ==> {
                &&& future.rows().len() > 0
                &&& lane_uniform(*old(self)) ==> future.spec_dtype() == stream_dtype(
                    old(self).stream,
                )
            },
        decreases stream_height(old(self).stream), 3nat,
    {
        match self.buffer.take() {
            Some(buffered) => Ok(Some(buffered)),
            None => self.stream.next_chunk(),
        }
    }

    /// The length of the next chunk, or nothing where no row is left.
    pub(crate) fn next_chunk_len(&self) -> (result: Option<usize>)
        requires
            lane_ok(*self),
        ensures
            says(result, lane_len(lane_track(*self))),
        decreases stream_height(self.stream), 3nat,
    {
        match &self.buffer {
            Some(buffered) => Some(buffered.len()),
            None => self.stream.next_chunk_len(),
        }
    }

    /// How many rows are left, or `n` where there are more.
    pub(crate) fn remaining_up_to(&self, n: usize) -> (result: usize)
        requires
            lane_ok(*self),
        ensures
            result == up_to(lane_left(lane_track(*self)), n),
        decreases stream_height(self.stream), 3nat,
    {
        match &self.buffer {
            Some(buffered) => {
                let len = buffered.len();
                if len >= n {
                    n
                } else {
                    len + self.stream.remaining_up_to(n - len)
                }
            },
            None => self.stream.remaining_up_to(n),
        }
    }

    /// The first `n` rows of the next chunk, the others being kept for later, nothing where there is
    /// none, or the error of reading it.
    pub(crate) fn read(&mut self, n: usize) -> (result: VortexResult<Option<ArrayFuture>>)
        requires
            lane_ok(*old(self)),
            lane_len(lane_track(*old(self))) matches Some(len) && n <= len,
        ensures
            lane_ok(*final(self)),
            stream_dtype(final(self).stream) == stream_dtype(old(self).stream),
            lane_uniform(*old(self)) ==> lane_uniform(*final(self)),
            outcome_of(result) == lane_read(lane_track(*old(self)), n as nat).0,
            lane_track(*final(self)) == lane_read(lane_track(*old(self)), n as nat).1,
            result matches Ok(Some(future)) ==> {
                &&& future.rows().len() == n
                &&& lane_uniform(*old(self)) ==> future.spec_dtype() == stream_dtype(
                    old(self).stream,
                )
            },
    {
        proof {
            lemma_lane_solid(*self);
            lemma_step(lane_track(*self).track);
        }
        match self.next_for_child() {
            Ok(Some(future)) => {
                if n < future.len() {
                    self.buffer = Some(rest_of(&future, n));
                }
                Ok(Some(first_of(future, n)))
            },
            other => other,
        }
    }

    /// Passes over the next `n` rows, what was read ahead first.
    pub(crate) fn skip_child(&mut self, n: usize)
        requires
            lane_ok(*old(self)),
            n <= lane_left(lane_track(*old(self))),
        ensures
            lane_ok(*final(self)),
            stream_height(final(self).stream) <= stream_height(old(self).stream),
            stream_dtype(final(self).stream) == stream_dtype(old(self).stream),
            lane_uniform(*old(self)) ==> lane_uniform(*final(self)),
            lane_track(*final(self)) == lane_skipped(lane_track(*old(self)), n as nat),
            match old(self).buffer {
                Some(buffered) => if n < buffered.rows().len() {
                    &&& final(self).buffer matches Some(rest) && rest.spec_plan() == (
                    ArrayPlan::Slice { parent: buffered, start: n, end: buffered.spec_len() })
                    &&& final(self).stream == old(self).stream
                } else {
                    &&& final(self).buffer is None
                    &&& n == buffered.rows().len() ==> final(self).stream == old(self).stream
                },
                None => {
                    &&& final(self).buffer is None
                    &&& n == 0 ==> final(self).stream == old(self).stream
                },
            },
        decreases stream_height(old(self).stream), 3nat,
    {
        let mut remaining: usize = n;
        match self.buffer.take() {
            Some(buffered) => {
                let len = buffered.len();
                if remaining < len {
                    self.buffer = Some(rest_of(&buffered, remaining));
                    return;
                }
                remaining = remaining - len;
            },
            None => {},
        }
        if remaining > 0 {
            self.stream.skip(remaining);
        }
    }
}

/// Arrays cut from the next chunks of tracks hold the first rows of each, as many as the shortest has.
pub(crate) proof fn lemma_parts(parts: Seq<ArrayFuture>, lanes: Seq<LaneTrack>, n: nat)
    requires
        lanes.len() > 0,
        parts.len() == lanes.len(),
        ready(lane_steps(lanes)) == lanes.len(),
        n == least(lengths(lane_steps(lanes))),
        forall|j: int|
            0 <= j < parts.len() ==> chunk_of(#[trigger] parts[j]) == head(
                lane_steps(lanes)[j].0->Rows_0,
                n,
            ),
    ensures
        forall|j: int|
            #![trigger parts[j]]
            #![trigger lanes[j]]
            0 <= j < parts.len() ==> {
                &&& lane_step(lanes[j]).0 is Rows
                &&& n <= lane_step(lanes[j]).0->Rows_0.rows.len()
                &&& parts[j].rows() == lane_step(lanes[j]).0->Rows_0.rows.take(
                    n as int,
                )
            },
        exists|j: int|
            0 <= j < lanes.len() && n == lane_step(#[trigger] lanes[j]).0->Rows_0.rows.len(),
{
    let steps = lane_steps(lanes);
    lemma_least(lengths(steps));
    lemma_ready(steps);
    assert forall|j: int|
        #![trigger parts[j]]
        #![trigger lanes[j]]
        0 <= j < parts.len() implies {
        &&& lane_step(lanes[j]).0 is Rows
        &&& n <= lane_step(lanes[j]).0->Rows_0.rows.len()
        &&& parts[j].rows() == lane_step(lanes[j]).0->Rows_0.rows.take(n as int)
    } by {
        assert(steps[j] == lane_step(lanes[j]));
        assert(n <= lengths(steps)[j]);
        assert(chunk_of(parts[j]) == head(steps[j].0->Rows_0, n));
    }
    let q = choose|q: int| 0 <= q < lengths(steps).len() && n == #[trigger] lengths(steps)[q];
    assert(steps[q] == lane_step(lanes[q]));
}

/// The next chunk of every stream, cut to the length of the shortest, and that length. The streams are
/// read in order: nothing where one of them has ended, and an error where it cannot be read, so that
/// those after it are not read.
pub(crate) fn next_aligned(lanes: &mut Vec<Lane>) -> (result: VortexResult<
    Option<(Vec<ArrayFuture>, usize)>,
>)
    requires
        lanes_ok(old(lanes)@),
    ensures
        lanes_ok(final(lanes)@),
        tallest_lane(final(lanes)@) <= tallest_lane(old(lanes)@),
        ({
            let before = lane_tracks(old(lanes)@);
            let steps = lane_steps(before);
            let k = ready(steps);
            &&& lane_tracks(final(lanes)@) == side_left(before, steps)
            &&& match result {
                Ok(Some((parts, n))) => {
                    &&& before.len() > 0
                    &&& k == before.len()
                    &&& n == least(lengths(steps))
                    &&& n > 0
                    &&& parts@.len() == before.len()
                    &&& forall|j: int|
                        0 <= j < parts@.len() ==> chunk_of(#[trigger] parts@[j]) == head(
                            steps[j].0->Rows_0,
                            n as nat,
                        )
                    &&& forall|j: int|
                        0 <= j < parts@.len() ==> n <= (
                        #[trigger] steps[j]).0->Rows_0.rows.len()
                },
                Ok(None) => before.len() == 0 || k < before.len() && steps[k as int].0
                    == Outcome::Ended,
                Err(error) => k < before.len() && steps[k as int].0 == Outcome::Failed(error@),
            }
        }),
    decreases tallest_lane(old(lanes)@), 4nat,
{
    let ghost before = lane_tracks(lanes@);
    let ghost steps = lane_steps(before);
    let ghost count = lanes@.len();
    let ghost bound = tallest_lane(lanes@);
    proof {
        assert forall|j: int| 0 <= j < count implies stream_height(
            (#[trigger] lanes@[j]).stream,
        ) <= bound by {
            lemma_tallest_lane(lanes@, j);
        }
    }
    let mut futures: Vec<ArrayFuture> = Vec::new();
    let mut n: usize = 0;
    let mut i: usize = 0;
    while i < lanes.len()
        invariant
            lanes@.len() == count,
            before.len() == count,
            steps == lane_steps(before),
            i <= count,
            futures@.len() == i,
            lanes_ok(lanes@),
            bound == tallest_lane(old(lanes)@),
            before == lane_tracks(old(lanes)@),
            n == least(lengths(steps).take(i as int)),
            forall|j: int|
                0 <= j < count ==> stream_height((#[trigger] lanes@[j]).stream) <= bound,
            forall|j: int|
                0 <= j < i ==> {
                    &&& (#[trigger] steps[j]).0 == Outcome::Rows(chunk_of(futures@[j]))
                    &&& futures@[j].rows().len() > 0
                },
            forall|j: int| 0 <= j < i ==> lane_track(#[trigger] lanes@[j]) == steps[j].1,
            forall|j: int| i <= j < count ==> lane_track(#[trigger] lanes@[j]) == before[j],
        decreases count - i,
    {
        let ghost others = lanes@;
        proof {
            assert(lane_ok(lanes@[i as int]));
            assert(lane_track(lanes@[i as int]) == before[i as int]);
            assert(steps[i as int] == lane_step(before[i as int]));
        }
        let next = lanes[i].next_for_child();
        proof {
            assert(lanes@ =~= others.update(i as int, lanes@[i as int]));
            assert(lanes_ok(lanes@));
            lemma_tallest_bound(lanes@, bound);
        }
        match next {
            Ok(Some(future)) => {
                let len = future.len();
                proof {
                    let longer = lengths(steps).take(i + 1);
                    assert(longer.drop_last() =~= lengths(steps).take(i as int));
                    assert(longer.last() == len);
                }
                if i == 0 || len < n {
                    n = len;
                }
                futures.push(future);
            },
            Ok(None) => {
                proof {
                    lemma_ready_at(steps, i as int);
                    assert(lane_tracks(lanes@) =~= side_left(before, steps));
                }
                return Ok(None);
            },
            Err(error) => {
                proof {
                    lemma_ready_at(steps, i as int);
                    assert(lane_tracks(lanes@) =~= side_left(before, steps));
                }
                return Err(error);
            },
        }
        i = i + 1;
    }
    proof {
        assert(lengths(steps).take(count as int) =~= lengths(steps));
        lemma_ready_at(steps, count as int);
        lemma_least(lengths(steps));
    }
    if lanes.len() == 0 {
        assert(lane_tracks(lanes@) =~= side_left(before, steps));
        return Ok(None);
    }
    proof {
        let q = choose|q: int| 0 <= q < lengths(steps).len() && n == #[trigger] lengths(steps)[q];
        assert(steps[q].0 == Outcome::Rows(chunk_of(futures@[q])));
        assert forall|j: int| 0 <= j < count implies {
            &&& n <= (#[trigger] futures@[j]).rows().len()
            &&& steps[j].0 == Outcome::Rows(chunk_of(futures@[j]))
        } by {
            assert(steps[j].0 == Outcome::Rows(chunk_of(futures@[j])));
            assert(n <= lengths(steps)[j]);
        }
    }
    let mut parts: Vec<ArrayFuture> = Vec::new();
    i = 0;
    while i < lanes.len()
        invariant
            i <= count,
            before.len() == count,
            lanes@.len() == count,
            futures@.len() == count,
            parts@.len() == i,
            lanes_ok(lanes@),
            n > 0,
            n == least(lengths(steps)),
            forall|j: int|
                0 <= j < count ==> stream_height((#[trigger] lanes@[j]).stream) <= bound,
            forall|j: int|
                0 <= j < count ==> {
                    &&& n <= (#[trigger] futures@[j]).rows().len()
                    &&& steps[j].0 == Outcome::Rows(chunk_of(futures@[j]))
                },
            forall|j: int|
                0 <= j < i ==> lane_track(#[trigger] lanes@[j]) == kept(steps[j], n as nat),
            forall|j: int| i <= j < count ==> lane_track(#[trigger] lanes@[j]) == steps[j].1,
            forall|j: int| 0 <= j < count ==> (#[trigger] steps[j]).1.ahead is None,
            forall|j: int|
                0 <= j < i ==> chunk_of(#[trigger] parts@[j]) == head(
                    steps[j].0->Rows_0,
                    n as nat,
                ),
        decreases count - i,
    {
        let ghost others = lanes@;
        let future = futures[i].clone();
        assert(n <= futures@[i as int].rows().len());
        assert(lane_track(lanes@[i as int]) == steps[i as int].1);
        assert(lane_ok(lanes@[i as int]));
        if n < future.len() {
            let mut lane = &mut lanes[i];
            lane.buffer = Some(rest_of(&future, n));
        }
        parts.push(first_of(future, n));
        assert(lanes@ =~= others.update(i as int, lanes@[i as int]));
        assert(lanes_ok(lanes@));
        i = i + 1;
    }
    proof {
        lemma_tallest_bound(lanes@, bound);
        assert(lane_tracks(lanes@) =~= side_left(before, steps));
        assert forall|j: int| 0 <= j < parts@.len() implies n <= (
        #[trigger] steps[j]).0->Rows_0.rows.len() by {
            assert(n <= futures@[j].rows().len());
        }
    }
    Ok(Some((parts, n)))
}

/// Passes over the next `n` rows of every stream.
pub(crate) fn skip_aligned(lanes: &mut Vec<Lane>, n: usize)
    requires
        lanes_ok(old(lanes)@),
        old(lanes)@.len() > 0 ==> n <= least(lanes_left(lane_tracks(old(lanes)@))),
    ensures
        lanes_ok(final(lanes)@),
        tallest_lane(final(lanes)@) <= tallest_lane(old(lanes)@),
        lane_tracks(final(lanes)@) == lanes_skipped(lane_tracks(old(lanes)@), n as nat),
    decreases tallest_lane(old(lanes)@), 4nat,
{
    let ghost before = lane_tracks(lanes@);
    let ghost count = lanes@.len();
    let ghost bound = tallest_lane(lanes@);
    proof {
        lemma_least(lanes_left(before));
        assert forall|j: int| 0 <= j < count implies {
            &&& stream_height((#[trigger] lanes@[j]).stream) <= bound
            &&& n <= lane_left(before[j])
        } by {
            lemma_tallest_lane(lanes@, j);
            assert(n <= lanes_left(before)[j]);
        }
    }
    let mut i: usize = 0;
    while i < lanes.len()
        invariant
            lanes@.len() == count,
            before.len() == count,
            i <= count,
            lanes_ok(lanes@),
            bound == tallest_lane(old(lanes)@),
            forall|j: int|
                0 <= j < count ==> {
                    &&& stream_height((#[trigger] lanes@[j]).stream) <= bound
                    &&& n <= lane_left(before[j])
                },
            forall|j: int|
                0 <= j < i ==> lane_track(#[trigger] lanes@[j]) == lane_skipped(
                    before[j],
                    n as nat,
                ),
            forall|j: int| i <= j < count ==> lane_track(#[trigger] lanes@[j]) == before[j],
        decreases count - i,
    {
        let ghost others = lanes@;
        proof {
            assert(lane_ok(lanes@[i as int]));
            assert(lane_track(lanes@[i as int]) == before[i as int]);
        }
        lanes[i].skip_child(n);
        assert(lanes@ =~= others.update(i as int, lanes@[i as int]));
        assert(lanes_ok(lanes@));
        i = i + 1;
    }
    proof {
        lemma_tallest_bound(lanes@, bound);
        assert(lane_tracks(lanes@) =~= lanes_skipped(before, n as nat));
    }
}

/// The length of the shortest of the next chunks of the streams, or nothing where one of them has no
/// row left.
pub(crate) fn aligned_len(lanes: &Vec<Lane>) -> (result: Option<usize>)
    requires
        lanes_ok(lanes@),
    ensures
        says(result, lanes_len(lane_tracks(lanes@))),
    decreases tallest_lane(lanes@), 4nat,
{
    let ghost all = lane_tracks(lanes@);
    let mut shortest: Option<usize> = None;
    let mut i: usize = 0;
    assert(all.subrange(0, 0) =~= Seq::<LaneTrack>::empty());
    while i < lanes.len()
        invariant
            i <= lanes@.len(),
            lanes_ok(lanes@),
            all == lane_tracks(lanes@),
            i > 0 ==> shortest is Some,
            says(shortest, lanes_len(all.subrange(0, i as int))),
        decreases lanes.len() - i,
    {
        let ghost longer = all.subrange(0, i + 1);
        proof {
            assert(lane_ok(lanes@[i as int]));
            lemma_tallest_lane(lanes@, i as int);
            assert(longer.subrange(0, longer.len() - 1) =~= all.subrange(0, i as int));
            assert(longer[longer.len() - 1] == lane_track(lanes@[i as int]));
        }
        match (lanes[i].next_chunk_len(), shortest) {
            (Some(len), Some(least)) => {
                if len < least {
                    shortest = Some(len);
                }
            },
            (Some(len), None) => {
                shortest = Some(len);
            },
            (None, _) => {
                proof {
                    lemma_lanes_len(all);
                    assert(lane_len(all[i as int]) is None);
                }
                return None;
            },
        }
        i = i + 1;
    }
    assert(all.subrange(0, all.len() as int) =~= all);
    shortest
}

/// How many rows are left of the stream that has the fewest, or `n` where there are more.
pub(crate) fn aligned_up_to(lanes: &Vec<Lane>, n: usize) -> (result: usize)
    requires
        lanes_ok(lanes@),
    ensures
        result == up_to(least(lanes_left(lane_tracks(lanes@))), n),
    decreases tallest_lane(lanes@), 4nat,
{
    let ghost all = lanes_left(lane_tracks(lanes@));
    if lanes.len() == 0 {
        return 0;
    }
    let mut fewest: usize = n;
    let mut i: usize = 0;
    while i < lanes.len()
        invariant
            i <= lanes@.len(),
            lanes_ok(lanes@),
            all == lanes_left(lane_tracks(lanes@)),
            fewest <= n,
            fewest == n || exists|j: int| 0 <= j < i && #[trigger] all[j] == fewest,
            forall|j: int| 0 <= j < i ==> fewest <= #[trigger] all[j],
        decreases lanes.len() - i,
    {
        proof {
            assert(lane_ok(lanes@[i as int]));
            lemma_tallest_lane(lanes@, i as int);
            assert(all[i as int] == lane_left(lane_track(lanes@[i as int])));
        }
        fewest = lanes[i].remaining_up_to(fewest);
        i = i + 1;
    }
    proof {
        lemma_least(all);
    }
    fewest
}

/// Streams of the rows of a range of each of the readers, after the streams that are there.
pub(crate) fn open_lanes(
    readers: &Vec<ReaderRef>,
    row_range: Range<u64>,
    lanes: Vec<Lane>,
) -> (result: VortexResult<Vec<Lane>>)
    requires
        lanes_ok(lanes@),
        forall|i: int|
            0 <= i < readers@.len() ==> {
                &&& readable(#[trigger] layouts_of(readers@)[i])
                &&& accepts_range(layouts_of(readers@)[i], row_range.start, row_range.end)
            },
    ensures
        match result {
            Ok(all) => {
                &&& first_error(layouts_of(readers@), row_range.start, row_range.end) is None
                &&& lanes_ok(all@)
                &&& all@.len() == lanes@.len() + readers@.len()
                &&& forall|i: int| 0 <= i < lanes@.len() ==> #[trigger] all@[i] == lanes@[i]
                &&& forall|i: int|
                    lanes@.len() <= i < all@.len() ==> {
                        &&& lane_track(#[trigger] all@[i]) == LaneTrack {
                            ahead: None,
                            track: track(
                                layouts_of(readers@)[i - lanes@.len()],
                                row_range.start as nat,
                                row_range.end as nat,
                            ),
                        }
                        &&& stream_height(all@[i].stream) <= tallest(layouts_of(readers@))
                    }
            },
            Err(error) => first_error(layouts_of(readers@), row_range.start, row_range.end) == Some(
                error@,
            ),
        },
    decreases tallest(layouts_of(readers@)), 2nat,
{
    let ghost layouts = layouts_of(readers@);
    let ghost count = lanes@.len();
    let ghost bound = tallest(layouts);
    let mut all: Vec<Lane> = lanes;
    let mut i: usize = 0;
    assert(layouts.take(0) =~= Seq::empty());
    while i < readers.len()
        invariant
            i <= readers@.len(),
            layouts == layouts_of(readers@),
            bound == tallest(layouts),
            count == lanes@.len(),
            all@.len() == count + i,
            lanes_ok(all@),
            forall|j: int|
                0 <= j < readers@.len() ==> {
                    &&& readable(#[trigger] layouts[j])
                    &&& accepts_range(layouts[j], row_range.start, row_range.end)
                },
            first_error(layouts.take(i as int), row_range.start, row_range.end) is None,
            forall|j: int| 0 <= j < count ==> #[trigger] all@[j] == lanes@[j],
            forall|j: int|
                count <= j < count + i ==> {
                    &&& lane_track(#[trigger] all@[j]) == LaneTrack {
                        ahead: None,
                        track: track(
                            layouts[j - count],
                            row_range.start as nat,
                            row_range.end as nat,
                        ),
                    }
                    &&& stream_height(all@[j].stream) <= bound
                },
        decreases readers.len() - i,
    {
        proof {
            let next = layouts.take(i + 1);
            assert(next.drop_last() =~= layouts.take(i as int));
            assert(next.last() == layouts[i as int]);
            assert(layouts[i as int] == layout_of(readers@[i as int]));
            lemma_tallest(layouts, i as int);
        }
        match readers[i].open(row_range.start..row_range.end) {
            Ok(stream) => {
                all.push(Lane::new(stream));
            },
            Err(error) => {
                proof {
                    lemma_first_error(layouts, row_range.start, row_range.end, i as int);
                }
                return Err(error);
            },
        }
        i = i + 1;
    }
    assert(layouts.take(layouts.len() as int) =~= layouts);
    Ok(all)
}

/// The first error among the layouts is the error of them all.
proof fn lemma_first_error(layouts: Seq<Layout>, start: u64, end: u64, i: int)
    requires
        0 <= i < layouts.len(),
        first_error(layouts.take(i), start, end) is None,
        open_error(layouts[i], start, end) is Some,
    ensures
        first_error(layouts, start, end) == open_error(layouts[i], start, end),
    decreases layouts.len(),
{
    let front = layouts.drop_last();
    if i == layouts.len() - 1 {
        assert(front =~= layouts.take(i));
    } else {
        assert(front.take(i) =~= layouts.take(i));
        lemma_first_error(front, start, end, i);
    }
}

/// The rows put together from the parts are those put together from the chunks that the parts are cut
/// from.
pub(crate) proof fn lemma_put_together(
    rows: Seq<Row>,
    parts: Seq<ArrayFuture>,
    steps: Seq<(Outcome, LaneTrack)>,
    join: Join,
    n: nat,
)
    requires
        parts.len() == steps.len(),
        rows.len() == n,
        forall|i: int|
            0 <= i < n ==> #[trigger] rows[i] == (join.put)(
                Seq::new(all_rows(parts).len(), |j: int| all_rows(parts)[j][i]),
            ),
        forall|j: int|
            0 <= j < parts.len() ==> {
                &&& chunk_of(#[trigger] parts[j]) == head(steps[j].0->Rows_0, n)
                &&& n <= steps[j].0->Rows_0.rows.len()
            },
    ensures
        rows == put_together(steps, join, n).rows,
{
    let goal = put_together(steps, join, n).rows;
    assert forall|i: int| 0 <= i < n implies rows[i] == goal[i] by {
        let row = Seq::new(all_rows(parts).len(), |j: int| all_rows(parts)[j][i]);
        assert forall|j: int| 0 <= j < parts.len() implies row[j] == rows_at(steps, i)[j] by {
            assert(chunk_of(parts[j]) == head(steps[j].0->Rows_0, n));
            assert(parts[j].rows()[i] == steps[j].0->Rows_0.rows[i]);
        }
        assert(row =~= rows_at(steps, i));
    }
    assert(rows =~= goal);
}

} // verus!
