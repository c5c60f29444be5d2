//! A reader of chunks one after the other.
use vstd::prelude::*;
use std::collections::VecDeque;
use std::ops::Range;
use std::sync::Arc;
use crate::apply::{
    accepts_expression, all_applied, applied, highest, lemma_applied_error, lemma_highest, rank,
};
use crate::display::{describe_chunked, DisplayTree};
use crate::dtype::{DType, SpecDType};
use crate::error::{SpecError, VortexResult};
use crate::expr::{size, valid_expression, Expression};
use crate::future::ArrayFuture;
use crate::layout::{
    accepts_range, counted, dtype_of, height, law_skip, lemma_accepts_range, lemma_readable,
    lemma_tallest, lemma_unopened_left, open_error, overlapping, readable, row_count, tallest,
    track, uniform, Layout,
};
use crate::reader::{
    chunked_layout, layout_of, layout_result, layouts_of, lemma_stream_solid, opened, pending_ok,
    pending_track, pending_tracks, says, stream_dtype, stream_height, stream_ok, stream_uniform,
    tallest_pending, track_of, up_to, Reader, ReaderRef, ReaderStream, ReaderStreamRef,
};
use crate::track::{
    lemma_next_len, lemma_pending_unfold, lemma_step, next_len, pending_left, pending_skipped,
    pending_step, range_left, range_solid, rows_left, skipped, step, Outcome, Pending, Track,
};

verus! {

/// A reader of chunks one after the other.
pub struct ChunkedReader {
    pub(crate) row_count: u64,
    pub(crate) dtype: DType,
    pub(crate) chunks: Vec<ReaderRef>,
}

impl View for ChunkedReader {
    type V = Layout;

    open spec fn view(&self) -> Layout {
        chunked_layout(*self)
    }
}

impl ChunkedReader {
    /// A reader of chunks of `row_count` rows together.
    pub fn new(row_count: u64, dtype: DType, chunks: Vec<ReaderRef>) -> (result: ChunkedReader)
        ensures
            result@ == (Layout::Chunked { row_count, dtype: dtype@, chunks: layouts_of(chunks@) }),
    {
        ChunkedReader { row_count, dtype, chunks }
    }
}

/// A range of a chunk that is still to be opened.
pub struct PendingChunk {
    pub(crate) reader: ReaderRef,
    pub(crate) row_range: Range<u64>,
}

/// One more range is no taller than it is.
proof fn lemma_pending_push(pending: Seq<PendingChunk>, last: PendingChunk)
    ensures
        tallest_pending(pending.push(last)) <= if tallest_pending(pending) > height(
            layout_of(last.reader),
        ) {
            tallest_pending(pending)
        } else {
            height(layout_of(last.reader))
        },
    decreases pending.len(),
{
    let all = pending.push(last);
    if pending.len() == 0 {
        reveal_with_fuel(tallest_pending, 2);
        assert(all.drop_first() =~= pending);
    } else {
        let rest = pending.drop_first();
        lemma_pending_push(rest, last);
        assert(all.drop_first() =~= rest.push(last));
    }
}

impl ChunkedReader {
    /// A reader of an expression over the rows.
    pub(crate) fn with_expression(&self, expression: &Expression) -> (result: VortexResult<
        ReaderRef,
    >)
        requires
            accepts_expression(chunked_layout(*self)),
            valid_expression(expression@),
        ensures
            layout_result(result) == applied(chunked_layout(*self), expression@),
        decreases rank(chunked_layout(*self)), size(expression@), 1nat,
    {
        let ghost layouts = layouts_of(self.chunks@);
        let mut chunks: Vec<ReaderRef> = Vec::new();
        let mut i: usize = 0;
        proof {
            assert(chunked_layout(*self)->chunks == layouts);
            assert(accepts_expression(chunked_layout(*self)));
            assert(layouts.take(0) =~= Seq::empty());
            assert(layouts_of(chunks@) =~= Seq::empty());
        }
        while i < self.chunks.len()
            invariant
                i <= self.chunks@.len(),
                layouts == layouts_of(self.chunks@),
                forall|j: int| 0 <= j < layouts.len() ==> accepts_expression(#[trigger] layouts[j]),
                highest(layouts) < rank(chunked_layout(*self)),
                valid_expression(expression@),
                all_applied(layouts.take(i as int), expression@) == Ok::<Seq<Layout>, SpecError>(
                    layouts_of(chunks@),
                ),
            decreases self.chunks.len() - i,
        {
            proof {
                let next = layouts.take(i + 1);
                assert(next.drop_last() =~= layouts.take(i as int));
                assert(next.last() == layouts[i as int]);
                assert(layouts[i as int] == layout_of(self.chunks@[i as int]));
                lemma_highest(layouts, i as int);
            }
            let ghost before = layouts_of(chunks@);
            match self.chunks[i].with_expression(expression) {
                Ok(chunk) => {
                    chunks.push(chunk);
                    assert(layouts_of(chunks@) =~= before.push(chunk@));
                },
                Err(error) => {
                    proof {
                        lemma_applied_error(layouts, expression@, i as int);
                    }
                    return Err(error);
                },
            }
            i = i + 1;
        }
        assert(layouts.take(layouts.len() as int) =~= layouts);
        match expression.return_dtype(&self.dtype) {
            Ok(dtype) => Ok(
                ReaderRef::Chunked(
                    Arc::new(ChunkedReader { row_count: self.row_count, dtype, chunks }),
                ),
            ),
            Err(error) => Err(error),
        }
    }

    /// A stream of the rows of a range: no chunk is open, and those that the range overlaps are still
    /// to be opened.
    pub(crate) fn open(&self, row_range: Range<u64>) -> (result: VortexResult<ReaderStreamRef>)
        requires
            readable(chunked_layout(*self)),
            accepts_range(chunked_layout(*self), row_range.start, row_range.end),
        ensures
            opened(chunked_layout(*self), row_range.start, row_range.end, result),
            result matches Ok(ReaderStreamRef::Chunked(stream)) && {
                &&& stream.active_stream is None
                &&& pending_tracks(stream.pending_chunks@) == overlapping(
                    layouts_of(self.chunks@),
                    row_range.start as nat,
                    row_range.end as nat,
                )
            },
        decreases height(chunked_layout(*self)), 0nat,
    {
        let ghost chunks = layouts_of(self.chunks@);
        let ghost goal = overlapping(chunks, row_range.start as nat, row_range.end as nat);
        let mut remaining_start: u64 = row_range.start;
        let mut remaining_end: u64 = row_range.end;
        let mut pending_chunks: VecDeque<PendingChunk> = VecDeque::new();
        let mut i: usize = 0;
        proof {
            assert(chunked_layout(*self)->chunks == chunks);
            assert(readable(chunked_layout(*self)));
            assert(chunks.subrange(0, chunks.len() as int) =~= chunks);
            assert(pending_tracks(pending_chunks@) + goal =~= goal);
        }
        while i < self.chunks.len() && remaining_start < remaining_end
            invariant_except_break
                remaining_start <= remaining_end,
                pending_tracks(pending_chunks@) + overlapping(
                    chunks.subrange(i as int, chunks.len() as int),
                    remaining_start as nat,
                    remaining_end as nat,
                ) == goal,
            invariant
                i <= self.chunks@.len(),
                chunks == layouts_of(self.chunks@),
                forall|j: int| 0 <= j < chunks.len() ==> counted(#[trigger] chunks[j]),
                uniform(chunked_layout(*self)) ==> forall|j: int|
                    0 <= j < pending_chunks@.len() ==> {
                        let l = layout_of((#[trigger] pending_chunks@[j]).reader);
                        uniform(l) && dtype_of(l) == self.dtype@
                    },
                forall|j: int|
                    0 <= j < pending_chunks@.len() ==> pending_ok(#[trigger] pending_chunks@[j]),
                tallest_pending(pending_chunks@) <= tallest(chunks),
            ensures
                pending_tracks(pending_chunks@) == goal,
            decreases self.chunks.len() - i,
        {
            let ghost rest = chunks.subrange(i as int, chunks.len() as int);
            let ghost before = pending_tracks(pending_chunks@);
            proof {
                assert(rest.subrange(1, rest.len() as int) =~= chunks.subrange(
                    i + 1,
                    chunks.len() as int,
                ));
                assert(rest[0] == chunks[i as int]);
                assert(chunks[i as int] == layout_of(self.chunks@[i as int]));
                lemma_tallest(chunks, i as int);
            }
            let chunk_row_count = self.chunks[i].count();
            if remaining_start >= chunk_row_count {
                remaining_start = remaining_start - chunk_row_count;
                remaining_end = remaining_end - chunk_row_count;
                i = i + 1;
                continue;
            }
            let end_in_chunk: u64 = if remaining_end < chunk_row_count {
                remaining_end
            } else {
                chunk_row_count
            };
            let pending = PendingChunk {
                reader: self.chunks[i].clone(),
                row_range: remaining_start..end_in_chunk,
            };
            proof {
                lemma_pending_push(pending_chunks@, pending);
                assert(pending_ok(pending));
            }
            pending_chunks.push_back(pending);
            assert(pending_tracks(pending_chunks@) =~= before + seq![pending_track(pending)]);
            if remaining_end <= chunk_row_count {
                break;
            }
            proof {
                let own = seq![pending_track(pending)];
                let others = overlapping(
                    chunks.subrange(i + 1, chunks.len() as int),
                    0,
                    (remaining_end - chunk_row_count) as nat,
                );
                assert(before + (own + others) =~= (before + own) + others);
            }
            remaining_start = 0;
            remaining_end = remaining_end - chunk_row_count;
            i = i + 1;
        }
        let stream = ReaderStreamRef::Chunked(
            ChunkedReaderStream {
                dtype: self.dtype.clone(),
                pending_chunks,
                active_stream: None,
            },
        );
        Ok(stream)
    }
}

impl Reader for ChunkedReader {
    open spec fn layout(&self) -> Layout {
        chunked_layout(*self)
    }

    fn dtype(&self) -> &DType {
        &self.dtype
    }

    fn row_count(&self) -> u64 {
        self.row_count
    }

    fn apply(&self, expression: &Expression) -> VortexResult<ReaderRef> {
        self.with_expression(expression)
    }

    fn execute(&self, row_range: Range<u64>) -> (result: VortexResult<ReaderStreamRef>)
        ensures
            result matches Ok(stream) && stream.track() == (Track::Chain {
                open: None,
                pending: overlapping(
                    self.layout()->chunks,
                    row_range.start as nat,
                    row_range.end as nat,
                ),
            }),
    {
        self.open(row_range)
    }

    fn display_tree(&self) -> DisplayTree {
        describe_chunked(self)
    }
}

/// A stream of chunks one after the other, each opened when it is reached.
pub struct ChunkedReaderStream {
    pub(crate) dtype: DType,
    pub(crate) pending_chunks: VecDeque<PendingChunk>,
    pub(crate) active_stream: Option<Box<ReaderStreamRef>>,
}

/// A range that is still to be opened may be asked for, and has its rows to read.
proof fn lemma_pending_ok(pending: PendingChunk)
    requires
        pending_ok(pending),
    ensures
        readable(layout_of(pending.reader)),
        accepts_range(
            layout_of(pending.reader),
            pending.row_range.start,
            pending.row_range.end,
        ),
        range_solid(pending_track(pending)),
        range_left(pending_track(pending)) == pending.row_range.end - pending.row_range.start,
        pending_track(pending) == match open_error(
            layout_of(pending.reader),
            pending.row_range.start,
            pending.row_range.end,
        ) {
            Some(error) => Pending::Fails {
                error,
                rows: (pending.row_range.end - pending.row_range.start) as nat,
            },
            None => Pending::Opens(
                track(
                    layout_of(pending.reader),
                    pending.row_range.start as nat,
                    pending.row_range.end as nat,
                ),
            ),
        },
{
    let l = layout_of(pending.reader);
    let (start, end) = (pending.row_range.start, pending.row_range.end);
    lemma_readable(l);
    lemma_accepts_range(l, start, end);
    lemma_unopened_left(l, start as nat, end as nat);
}

/// The ranges after the first that is still to be opened.
proof fn lemma_popped(pending: Seq<PendingChunk>)
    requires
        pending.len() > 0,
        forall|i: int| 0 <= i < pending.len() ==> pending_ok(#[trigger] pending[i]),
    ensures
        ({
            let others = pending.drop_first();
            &&& forall|i: int| 0 <= i < others.len() ==> pending_ok(#[trigger] others[i])
            &&& pending_tracks(others) == pending_tracks(pending).subrange(
                1,
                pending.len() as int,
            )
            &&& pending_tracks(pending)[0] == pending_track(pending[0])
            &&& tallest_pending(others) <= tallest_pending(pending)
            &&& height(layout_of(pending[0].reader)) <= tallest_pending(pending)
        }),
{
    let others = pending.drop_first();
    assert forall|i: int| 0 <= i < others.len() implies pending_ok(#[trigger] others[i]) by {
        assert(pending_ok(pending[i + 1]));
    }
    assert(pending_tracks(others) =~= pending_tracks(pending).subrange(1, pending.len() as int));
}

impl ChunkedReaderStream {
    /// Opens the next chunk where none is open that rows are left of, and says whether one is. A
    /// chunk that cannot be opened is passed over.
    fn ensure_active_stream(&mut self) -> (result: VortexResult<bool>)
        requires
            old(self).valid(),
        ensures
            final(self).valid(),
            final(self).spec_dtype() == old(self).spec_dtype(),
            old(self).uniform() ==> final(self).uniform(),
            final(self).rank() <= old(self).rank(),
            match result {
                Ok(open) => {
                    &&& open == (rows_left(final(self).track()) > 0)
                    &&& open == (rows_left(old(self).track()) > 0)
                    &&& open ==> final(self).active_stream is Some && rows_left(
                        track_of(*final(self).active_stream->0),
                    ) > 0
                    &&& open ==> step(final(self).track()) == step(old(self).track())
                    &&& !open ==> step(old(self).track()) == (
                        Outcome::Ended,
                        final(self).track(),
                    )
                },
                Err(error) => step(old(self).track()) == (
                    Outcome::Failed(error@),
                    final(self).track(),
                ),
            },
        decreases old(self).rank(), 0nat,
    {
        let ghost pending_before = self.pending_chunks@;
        let ghost all = pending_tracks(pending_before);
        proof {
            lemma_stream_solid(ReaderStreamRef::Chunked(*self));
            lemma_pending_unfold(all);
        }
        match self.active_stream.take() {
            Some(mut stream) => {
                let ghost current = stream.track();
                proof {
                    lemma_stream_solid(*stream);
                    lemma_step(current);
                    lemma_next_len(current);
                }
                if stream.remaining_up_to(1) == 1 {
                    self.active_stream = Some(stream);
                    return Ok(true);
                }
                match stream.next_chunk() {
                    Ok(_) => {
                        assert(step(current).0 is Ended);
                    },
                    Err(error) => {
                        self.active_stream = Some(stream);
                        return Err(error);
                    },
                }
            },
            None => {},
        }
        assert(step(old(self).track()) == pending_step(all));
        match self.pending_chunks.pop_front() {
            Some(pending) => {
                proof {
                    assert(pending_ok(pending_before[0]));
                    lemma_pending_ok(pending);
                    lemma_popped(pending_before);
                    assert(self.pending_chunks@ =~= pending_before.drop_first());
                }
                match pending.reader.open(pending.row_range.start..pending.row_range.end) {
                    Ok(stream) => {
                        proof {
                            lemma_stream_solid(stream);
                            lemma_step(stream.track());
                            lemma_next_len(stream.track());
                        }
                        self.active_stream = Some(Box::new(stream));
                        Ok(true)
                    },
                    Err(error) => Err(error),
                }
            },
            None => Ok(false),
        }
    }

    /// The length of the next chunk, or nothing where no row is left.
    pub(crate) fn next_chunk_len(&self) -> (result: Option<usize>)
        requires
            self.valid(),
        ensures
            says(result, next_len(self.track())),
        decreases self.rank(), 1nat,
    {
        proof {
            lemma_pending_unfold(pending_tracks(self.pending_chunks@));
        }
        if let Some(active) = &self.active_stream {
            let len = active.next_chunk_len();
            if len.is_some() {
                return len;
            }
        }
        if self.pending_chunks.len() == 0 {
            return None;
        }
        let pending = &self.pending_chunks[0];
        let ghost all = pending_tracks(self.pending_chunks@);
        proof {
            assert(pending_ok(self.pending_chunks@[0]));
            lemma_pending_ok(*pending);
            lemma_popped(self.pending_chunks@);
        }
        let rows: u64 = pending.row_range.end - pending.row_range.start;
        match pending.reader.open(pending.row_range.start..pending.row_range.end) {
            Ok(stream) => stream.next_chunk_len(),
            Err(_) => if rows > usize::MAX as u64 {
                Some(usize::MAX)
            } else {
                Some(rows as usize)
            },
        }
    }

    /// How many rows are left, or `n` where there are more.
    pub(crate) fn remaining_up_to(&self, n: usize) -> (result: usize)
        requires
            self.valid(),
        ensures
            result == up_to(rows_left(self.track()), n),
        decreases self.rank(), 1nat,
    {
        let ghost all = pending_tracks(self.pending_chunks@);
        let mut rows: usize = match &self.active_stream {
            Some(active) => active.remaining_up_to(n),
            None => 0,
        };
        let mut i: usize = 0;
        assert(all.subrange(0, all.len() as int) =~= all);
        while i < self.pending_chunks.len() && rows < n
            invariant
                i <= self.pending_chunks@.len(),
                self.valid(),
                all == pending_tracks(self.pending_chunks@),
                rows <= n,
                rows < n ==> rows + pending_left(all.subrange(i as int, all.len() as int))
                    == rows_left(self.track()),
                rows == n ==> rows_left(self.track()) >= n,
            decreases self.pending_chunks.len() - i,
        {
            let pending = &self.pending_chunks[i];
            proof {
                let rest = all.subrange(i as int, all.len() as int);
                assert(pending_ok(self.pending_chunks@[i as int]));
                lemma_pending_ok(*pending);
                assert(rest[0] == pending_track(*pending));
                assert(rest.subrange(1, rest.len() as int) =~= all.subrange(
                    i + 1,
                    all.len() as int,
                ));
                assert(pending_left(rest) == range_left(rest[0]) + pending_left(
                    rest.subrange(1, rest.len() as int),
                ));
            }
            let own: u64 = pending.row_range.end - pending.row_range.start;
            if own >= (n - rows) as u64 {
                rows = n;
            } else {
                rows = rows + own as usize;
            }
            i = i + 1;
        }
        assert(i == all.len() ==> pending_left(all.subrange(i as int, all.len() as int)) == 0);
        rows
    }
}

impl ReaderStream for ChunkedReaderStream {
    open spec fn track(&self) -> Track {
        track_of(ReaderStreamRef::Chunked(*self))
    }

    open spec fn spec_dtype(&self) -> SpecDType {
        stream_dtype(ReaderStreamRef::Chunked(*self))
    }

    open spec fn uniform(&self) -> bool {
        stream_uniform(ReaderStreamRef::Chunked(*self))
    }

    open spec fn valid(&self) -> bool {
        stream_ok(ReaderStreamRef::Chunked(*self))
    }

    open spec fn rank(&self) -> nat {
        stream_height(ReaderStreamRef::Chunked(*self))
    }

    fn dtype(&self) -> &DType {
        &self.dtype
    }

    fn skip(&mut self, n: usize)
        decreases old(self).rank(), 1nat,
    {
        if n == 0 {
            return;
        }
        let mut left: usize = n;
        match self.active_stream.take() {
            Some(mut stream) => {
                let rows = stream.remaining_up_to(left);
                if rows == left {
                    stream.skip(left);
                    self.active_stream = Some(stream);
                    return;
                }
                left = left - rows;
            },
            None => {},
        }
        let ghost goal = pending_skipped(pending_tracks(self.pending_chunks@), left as nat);
        assert(goal == skipped(old(self).track(), n as nat));
        while left > 0
            invariant
                self.valid(),
                self.active_stream is None,
                left <= pending_left(pending_tracks(self.pending_chunks@)),
                pending_skipped(pending_tracks(self.pending_chunks@), left as nat) == goal,
                goal == skipped(old(self).track(), n as nat),
                self.spec_dtype() == old(self).spec_dtype(),
                old(self).uniform() ==> self.uniform(),
                self.rank() <= old(self).rank(),
            decreases self.pending_chunks@.len(),
        {
            let ghost pending = self.pending_chunks@;
            let ghost all = pending_tracks(pending);
            proof {
                assert(all.len() > 0) by {
                    if all.len() == 0 {
                        assert(pending_left(all) == 0);
                    }
                }
                assert(pending_ok(pending[0]));
                lemma_pending_ok(pending[0]);
                lemma_popped(pending);
                assert(pending_left(all) == range_left(all[0]) + pending_left(
                    all.subrange(1, all.len() as int),
                ));
            }
            match self.pending_chunks.pop_front() {
                Some(chunk) => {
                    assert(self.pending_chunks@ =~= pending.drop_first());
                    let (start, end) = (chunk.row_range.start, chunk.row_range.end);
                    let rows: u64 = end - start;
                    if left as u64 >= rows {
                        left = left - rows as usize;
                    } else {
                        match chunk.reader.open(start..end) {
                            Ok(mut stream) => {
                                stream.skip(left);
                                self.active_stream = Some(Box::new(stream));
                            },
                            Err(_) => {
                                let rest = PendingChunk {
                                    reader: chunk.reader,
                                    row_range: start + left as u64..end,
                                };
                                let ghost others = self.pending_chunks@;
                                self.pending_chunks.push_front(rest);
                                proof {
                                    law_skip(layout_of(rest.reader), start, end, left as u64);
                                    assert(self.pending_chunks@ =~= seq![rest] + others);
                                    assert(self.pending_chunks@.drop_first() =~= others);
                                    assert(pending_ok(rest));
                                    lemma_pending_ok(rest);
                                    assert(pending_tracks(self.pending_chunks@) =~= seq![
                                        pending_track(rest),
                                    ] + pending_tracks(others));
                                }
                            },
                        }
                        return;
                    }
                },
                None => {
                    return;
                },
            }
        }
    }

    fn next_chunk(&mut self) -> VortexResult<Option<ArrayFuture>>
        decreases old(self).rank(), 1nat,
    {
        match self.ensure_active_stream() {
            Ok(true) => {},
            Ok(false) => {
                return Ok(None);
            },
            Err(error) => {
                return Err(error);
            },
        }
        match self.active_stream.take() {
            Some(mut stream) => {
                proof {
                    lemma_stream_solid(*stream);
                    lemma_step(stream.track());
                    lemma_next_len(stream.track());
                }
                let next = stream.next_chunk();
                self.active_stream = Some(stream);
                next
            },
            None => Ok(None),
        }
    }
}

} // verus!
