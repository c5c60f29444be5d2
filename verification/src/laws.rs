//! What the rows of a layout are, and what reading a range of it delivers.
use vstd::prelude::*;
use crate::cells::{clean, lemma_clean};
use crate::chunks::{flat, lemma_flat_concat, lemma_flat_one, lemma_full_flat};
use crate::dtype::SpecDType;
use crate::error::SpecError;
use crate::estimate::{capped, decoded_size};
use crate::expr::{SpecExpression, SpecScalarFn};
use crate::future::{cut, law_share, lemma_share, share, total};
use crate::layout::{
    all_rows, at, dtype_of, first_error, law_openable, law_pieces, law_range, law_row_count, law_track, lemma_counted,
    lemma_first_run, open_error, openable, overlapping, pieces, repeated, row_count, rows, total_rows, track, tracks, unopened, well_formed, Layout,
};
use crate::row::{call, evaluated, Row, SpecSegment};
use crate::scalar::Scalar;
use crate::track::{
    call_side, chunks_of, even, head, lane_chunks, lane_len, lane_read, lane_skipped, lane_solid, lane_step, lane_steps, law_drained, law_read, law_step, lemma_lane, lemma_least, lemma_ready_at, lengths, least,
    pending_step, skipped, step, struct_side, LaneTrack, Outcome, Pending, Track,
};

verus! {

/// The rows of a stored segment are its elements, in order, and the expression over each where there
/// is one.
pub proof fn law_flat_rows(
    dtype: SpecDType,
    segment: SpecSegment,
    expression: Option<SpecExpression>,
    i: int,
)
    requires
        0 <= i < segment.len,
    ensures
        rows(Layout::Flat { dtype, segment, expression }).len() == segment.len,
        rows(Layout::Flat { dtype, segment, expression })[i] == match expression {
            Some(e) => evaluated(e, Row::Stored { segment, index: i as nat }),
            None => Row::Stored { segment, index: i as nat },
        },
{
}

/// The rows of a constant are all that constant, and the expression over it where there is one.
pub proof fn law_constant_rows(
    scalar: Scalar,
    dtype: SpecDType,
    count: u64,
    expression: Option<SpecExpression>,
    i: int,
)
    requires
        0 <= i < count,
    ensures
        rows(Layout::Constant { scalar, dtype, row_count: count, expression }).len() == count,
        rows(Layout::Constant { scalar, dtype, row_count: count, expression })[i] == match expression {
            Some(e) => evaluated(e, Row::Constant(scalar)),
            None => Row::Constant(scalar),
        },
{
}

/// Layouts one after the other have the rows of the first, then those of the second, and so on: no
/// layouts have no rows, and one more at the end adds its rows at the end.
pub proof fn law_chunked_rows(
    count: u64,
    dtype: SpecDType,
    chunks: Seq<Layout>,
    last: Layout,
    longer: u64,
)
    ensures
        rows(Layout::Chunked { row_count: count, dtype, chunks: Seq::empty() }) == Seq::<Row>::empty(),
        rows(Layout::Chunked { row_count: longer, dtype, chunks: chunks.push(last) }) == rows(
            Layout::Chunked { row_count: count, dtype, chunks },
        ) + rows(last),
{
    assert(all_rows(Seq::empty()) =~= Seq::<Seq<Row>>::empty());
    assert(all_rows(chunks.push(last)) =~= all_rows(chunks) + seq![rows(last)]);
    lemma_flat_concat(all_rows(chunks), seq![rows(last)]);
    lemma_flat_one(rows(last));
}

/// A row of a struct has in each field the row of that field's layout at the same position, and says
/// whether it is present by the row of the layout that stores it, where there is one.
pub proof fn law_struct_rows(
    count: u64,
    dtype: SpecDType,
    validity: Option<Box<Layout>>,
    fields: Seq<Layout>,
    i: int,
)
    requires
        0 <= i < count,
    ensures
        rows(Layout::Struct { row_count: count, dtype, validity, fields }).len() == count,
        rows(Layout::Struct { row_count: count, dtype, validity, fields })[i] matches Row::Struct {
            dtype: own,
            validity: present,
            fields: values,
        } && {
            &&& own == dtype
            &&& values.len() == fields.len()
            &&& forall|j: int|
                0 <= j < values.len() ==> #[trigger] values[j] == rows(fields[j])[i]
            &&& match (validity, present) {
                (Some(v), Some(row)) => *row == rows(*v)[i],
                (None, None) => true,
                _ => false,
            }
        },
{
    let own = all_rows(fields);
    assert forall|j: int| 0 <= j < fields.len() implies #[trigger] own[j] == rows(fields[j]) by {}
    match validity {
        Some(v) => {
            let lanes = seq![rows(*v)] + own;
            assert(at(lanes, i).drop_first() =~= at(own, i)) by {
                assert forall|j: int| 0 <= j < own.len() implies at(lanes, i).drop_first()[j] == at(
                    own,
                    i,
                )[j] by {
                    assert(lanes[j + 1] == own[j]);
                }
            }
            assert(at(lanes, i).first() == rows(*v)[i]);
        },
        None => {},
    }
}

/// A row of a function's results is the function of the rows of its arguments' layouts at the same
/// position, in the order of the arguments.
pub proof fn law_function_rows(
    function: SpecScalarFn,
    dtype: SpecDType,
    count: u64,
    children: Seq<Layout>,
    i: int,
)
    requires
        0 <= i < count,
    ensures
        rows(Layout::ScalarFn { function, dtype, row_count: count, children }).len() == count,
        function is Bound ==> (rows(
            Layout::ScalarFn { function, dtype, row_count: count, children },
        )[i] matches Row::Call { function: called, args } && {
            &&& called == function
            &&& args.len() == children.len()
            &&& forall|j: int|
                0 <= j < args.len() ==> #[trigger] args[j] == rows(children[j])[i]
        }),
        function is GetItem && children.len() == 1 ==> rows(
            Layout::ScalarFn { function, dtype, row_count: count, children },
        )[i] == call(function, seq![rows(children[0])[i]]),
{
    let lanes = all_rows(children);
    assert forall|j: int| 0 <= j < children.len() implies #[trigger] lanes[j] == rows(
        children[j],
    ) by {}
    if children.len() == 1 {
        assert(at(lanes, i) =~= seq![rows(children[0])[i]]);
    }
}

/// A row of a dictionary's codes stands for a value of the dictionary: the rows of its values, looked
/// up by the row of the codes at the same position, and the expression over it where there is one.
pub proof fn law_dict_rows(
    dtype: SpecDType,
    values: Box<Layout>,
    codes: Box<Layout>,
    expression: Option<SpecExpression>,
    i: int,
)
    requires
        0 <= i < rows(*codes).len(),
    ensures
        rows(Layout::Dict { dtype, values, codes, expression }).len() == rows(*codes).len(),
        ({
            let value = Row::Decoded {
                dictionary: rows(*values),
                code: Box::new(rows(*codes)[i]),
            };
            rows(Layout::Dict { dtype, values, codes, expression })[i] == match expression {
                Some(e) => evaluated(e, value),
                None => value,
            }
        }),
{
}

/// Statistics of zones change nothing of the rows.
pub proof fn law_zoned_rows(l: Layout)
    requires
        l is Zoned,
    ensures
        rows(l) == rows(*l->data),
        row_count(l) == row_count(*l->data),
{
}

/// What is to be read of a range of structs is what is to be read of it of each part, side by side: of
/// the layout that says which are present first, where there is one, and then of the fields in order.
pub proof fn law_struct_lanes(
    count: u64,
    dtype: SpecDType,
    validity: Option<Box<Layout>>,
    fields: Seq<Layout>,
    start: nat,
    end: nat,
)
    ensures
        track(
            Layout::Struct { row_count: count, dtype, validity, fields },
            start,
            end,
        ) matches Track::Side { lanes, .. } && {
            let first: int = if validity is Some {
                1
            } else {
                0
            };
            &&& lanes.len() == fields.len() + first
            &&& forall|j: int|
                0 <= j < fields.len() ==> lanes[first + j] == (LaneTrack {
                    ahead: None,
                    track: track(#[trigger] fields[j], start, end),
                })
            &&& validity matches Some(v) ==> lanes[0] == (LaneTrack {
                ahead: None,
                track: track(*v, start, end),
            })
        },
{
    let own = tracks(fields, start, end);
    assert forall|j: int| 0 <= j < fields.len() implies #[trigger] own[j] == (LaneTrack {
        ahead: None,
        track: track(fields[j], start, end),
    }) by {}
    let lanes = track(Layout::Struct { row_count: count, dtype, validity, fields }, start, end)->lanes;
    if validity is Some {
        assert forall|j: int| 0 <= j < fields.len() implies lanes[1 + j] == (LaneTrack {
            ahead: None,
            track: track(#[trigger] fields[j], start, end),
        }) by {
            assert(lanes[1 + j] == own[j]);
        }
    } else {
        assert forall|j: int| 0 <= j < fields.len() implies lanes[0 + j] == (LaneTrack {
            ahead: None,
            track: track(#[trigger] fields[j], start, end),
        }) by {
            assert(lanes[0 + j] == own[j]);
        }
    }
}

/// What is to be read of a range of a function's results is what is to be read of it of each argument,
/// side by side, in order.
pub proof fn law_function_lanes(
    function: SpecScalarFn,
    dtype: SpecDType,
    count: u64,
    children: Seq<Layout>,
    start: nat,
    end: nat,
)
    ensures
        track(
            Layout::ScalarFn { function, dtype, row_count: count, children },
            start,
            end,
        ) matches Track::Side { lanes, .. } && {
            &&& lanes.len() == children.len()
            &&& forall|j: int|
                0 <= j < children.len() ==> lanes[j] == (LaneTrack {
                    ahead: None,
                    track: track(#[trigger] children[j], start, end),
                })
        },
{
    let own = tracks(children, start, end);
    assert forall|j: int| 0 <= j < children.len() implies own[j] == (LaneTrack {
        ahead: None,
        track: track(#[trigger] children[j], start, end),
    }) by {}
}

/// What a range of a layout delivers first is rows of the range from its start on, at least one.
pub proof fn law_next_rows(l: Layout, start: u64, end: u64)
    requires
        well_formed(l),
        openable(l),
        start < end <= row_count(l),
    ensures
        step(track(l, start as nat, end as nat)).0 matches Outcome::Rows(chunk) && {
            &&& 0 < chunk.rows.len() <= end - start
            &&& forall|i: int|
                0 <= i < chunk.rows.len() ==> #[trigger] chunk.rows[i] == rows(l)[start + i]
        },
{
    let t = track(l, start as nat, end as nat);
    lemma_counted(l);
    law_row_count(l);
    law_openable(l, start, end);
    law_range(l, start, end);
    law_pieces(l, start as nat, end as nat);
    law_track(l, start as nat, end as nat);
    law_step(t);
    let all = chunks_of(t);
    let goal = rows(l).subrange(start as int, end as int);
    assert(flat(all) == clean(goal));
    assert(flat(all)[0] == clean(goal)[0]);
    let chunk = step(t).0->Rows_0;
    assert(all[0] == clean(chunk.rows));
    assert forall|i: int| 0 <= i < chunk.rows.len() implies #[trigger] chunk.rows[i] == rows(
        l,
    )[start + i] by {
        assert(flat(all)[i] == all[0][i]);
        assert(clean(chunk.rows)[i] == Ok::<Row, SpecError>(chunk.rows[i]));
        assert(clean(goal)[i] == Ok::<Row, SpecError>(goal[i]));
    }
}

/// The structs that a range delivers first have in field `j` the rows of the layout of field `j`, from
/// the range's start on, and are present where the layout that stores it says so.
pub proof fn law_struct_reads(
    count: u64,
    dtype: SpecDType,
    validity: Option<Box<Layout>>,
    fields: Seq<Layout>,
    start: u64,
    end: u64,
    i: int,
)
    requires
        well_formed(Layout::Struct { row_count: count, dtype, validity, fields }),
        openable(Layout::Struct { row_count: count, dtype, validity, fields }),
        start < end <= count,
        0 <= i < step(
            track(
                Layout::Struct { row_count: count, dtype, validity, fields },
                start as nat,
                end as nat,
            ),
        ).0->Rows_0.rows.len(),
    ensures
        step(
            track(
                Layout::Struct { row_count: count, dtype, validity, fields },
                start as nat,
                end as nat,
            ),
        ).0 matches Outcome::Rows(chunk) && chunk.rows[i] matches Row::Struct {
            dtype: own,
            validity: present,
            fields: values,
        } && {
            &&& own == dtype
            &&& values.len() == fields.len()
            &&& forall|j: int|
                0 <= j < values.len() ==> #[trigger] values[j] == rows(fields[j])[start + i]
            &&& match (validity, present) {
                (Some(v), Some(row)) => *row == rows(*v)[start + i],
                (None, None) => true,
                _ => false,
            }
        },
{
    let l = Layout::Struct { row_count: count, dtype, validity, fields };
    law_next_rows(l, start, end);
    law_struct_rows(count, dtype, validity, fields, start + i);
    let chunk = step(track(l, start as nat, end as nat)).0->Rows_0;
    assert(chunk.rows[i] == rows(l)[start + i]);
}

/// The results of a function that a range delivers first are calls of the function: argument `j` is
/// the row of the layout of argument `j`, from the range's start on.
pub proof fn law_function_reads(
    function: SpecScalarFn,
    dtype: SpecDType,
    count: u64,
    children: Seq<Layout>,
    start: u64,
    end: u64,
    i: int,
)
    requires
        function is Bound,
        well_formed(Layout::ScalarFn { function, dtype, row_count: count, children }),
        openable(Layout::ScalarFn { function, dtype, row_count: count, children }),
        start < end <= count,
        0 <= i < step(
            track(
                Layout::ScalarFn { function, dtype, row_count: count, children },
                start as nat,
                end as nat,
            ),
        ).0->Rows_0.rows.len(),
    ensures
        step(
            track(
                Layout::ScalarFn { function, dtype, row_count: count, children },
                start as nat,
                end as nat,
            ),
        ).0 matches Outcome::Rows(chunk) && chunk.rows[i] matches Row::Call {
            function: called,
            args,
        } && {
            &&& called == function
            &&& args.len() == children.len()
            &&& forall|j: int|
                0 <= j < args.len() ==> #[trigger] args[j] == rows(children[j])[start + i]
        },
{
    let l = Layout::ScalarFn { function, dtype, row_count: count, children };
    law_next_rows(l, start, end);
    law_function_rows(function, dtype, count, children, start + i);
    let chunk = step(track(l, start as nat, end as nat)).0->Rows_0;
    assert(chunk.rows[i] == rows(l)[start + i]);
}

/// A range of a stored segment can be opened exactly where it is one of the segment's rows and its
/// ends can be counted; otherwise the error says which of these fails first.
pub proof fn law_flat_range(
    dtype: SpecDType,
    segment: SpecSegment,
    expression: Option<SpecExpression>,
    start: u64,
    end: u64,
)
    ensures
        match open_error(Layout::Flat { dtype, segment, expression }, start, end) {
            None => start <= end <= segment.len,
            Some(SpecError::RowRangeStartTooLarge) => start > usize::MAX,
            Some(SpecError::RowRangeEndTooLarge) => start <= usize::MAX && end > usize::MAX,
            Some(SpecError::RowRangeOutOfBounds { start: from, end: to, len }) => {
                &&& from == start && to == end && len == segment.len
                &&& !(start <= end <= segment.len)
            },
            Some(_) => false,
        },
{
}

/// Constants and layouts one after the other can always be opened, and zones change nothing.
pub proof fn law_always_opens(l: Layout, start: u64, end: u64)
    ensures
        l is Constant || l is Chunked ==> open_error(l, start, end) is None,
        l is Zoned ==> open_error(l, start, end) == open_error(*l->data, start, end),
{
}

/// A range of a function's results can be opened where it can be of all arguments; otherwise the error
/// is that of the first argument that it cannot be opened of.
pub proof fn law_function_opens(
    function: SpecScalarFn,
    dtype: SpecDType,
    count: u64,
    children: Seq<Layout>,
    start: u64,
    end: u64,
)
    ensures
        match open_error(
            Layout::ScalarFn { function, dtype, row_count: count, children },
            start,
            end,
        ) {
            None => forall|k: int|
                0 <= k < children.len() ==> open_error(#[trigger] children[k], start, end) is None,
            Some(error) => exists|k: int|
                0 <= k < children.len() && open_error(#[trigger] children[k], start, end) == Some(
                    error,
                ) && forall|h: int|
                    0 <= h < k ==> open_error(#[trigger] children[h], start, end) is None,
        },
{
    lemma_first(children, start, end);
}

/// A range of structs can be opened where it can be of all parts: of the layout that says which are
/// present, where there is one, and of the fields. Otherwise the error is that of the first part, in
/// this order, that it cannot be opened of.
pub proof fn law_struct_opens(
    count: u64,
    dtype: SpecDType,
    validity: Option<Box<Layout>>,
    fields: Seq<Layout>,
    start: u64,
    end: u64,
)
    ensures
        match open_error(Layout::Struct { row_count: count, dtype, validity, fields }, start, end) {
            None => {
                &&& validity matches Some(v) ==> open_error(*v, start, end) is None
                &&& forall|k: int|
                    0 <= k < fields.len() ==> open_error(#[trigger] fields[k], start, end) is None
            },
            Some(error) => {
                ||| validity matches Some(v) && open_error(*v, start, end) == Some(error)
                ||| {
                    &&& validity matches Some(v) ==> open_error(*v, start, end) is None
                    &&& exists|k: int|
                        0 <= k < fields.len() && open_error(#[trigger] fields[k], start, end) == Some(
                            error,
                        ) && forall|h: int|
                            0 <= h < k ==> open_error(#[trigger] fields[h], start, end) is None
                }
            },
        },
{
    lemma_first(fields, start, end);
}

proof fn lemma_first(layouts: Seq<Layout>, start: u64, end: u64)
    ensures
        match first_error(layouts, start, end) {
            None => forall|k: int|
                0 <= k < layouts.len() ==> open_error(#[trigger] layouts[k], start, end) is None,
            Some(error) => exists|k: int|
                0 <= k < layouts.len() && open_error(#[trigger] layouts[k], start, end) == Some(error)
                    && forall|h: int|
                    0 <= h < k ==> open_error(#[trigger] layouts[h], start, end) is None,
        },
    decreases layouts.len(),
{
    if layouts.len() > 0 {
        let front = layouts.drop_last();
        lemma_first(front, start, end);
        match first_error(front, start, end) {
            None => {
                assert forall|k: int| 0 <= k < front.len() implies open_error(
                    #[trigger] layouts[k],
                    start,
                    end,
                ) is None by {
                    assert(front[k] == layouts[k]);
                }
                assert(layouts[layouts.len() - 1] == layouts.last());
            },
            Some(error) => {
                let k = choose|k: int|
                    0 <= k < front.len() && open_error(#[trigger] front[k], start, end) == Some(error)
                        && forall|h: int|
                        0 <= h < k ==> open_error(#[trigger] front[h], start, end) is None;
                assert(open_error(layouts[k], start, end) == Some(error));
                assert forall|h: int| 0 <= h < k implies open_error(
                    #[trigger] layouts[h],
                    start,
                    end,
                ) is None by {
                    assert(front[h] == layouts[h]);
                }
            },
        }
    }
}

/// A dictionary without values cannot be opened.
pub proof fn law_empty_dictionary(l: Layout, start: u64, end: u64)
    requires
        l matches Layout::Dict { values, .. } && well_formed(*values) && openable(*values) && row_count(
            *values,
        ) == 0,
    ensures
        open_error(l, start, end) == Some(SpecError::EmptyDictionary),
{
    let values = *l->values;
    lemma_counted(values);
    law_openable(values, 0, 0);
    law_range(values, 0, 0);
    law_pieces(values, 0, 0);
    law_track(values, 0, 0);
    law_drained(track(values, 0, 0));
    lemma_full_flat(pieces(values, 0, 0));
}

/// Where one of the tracks side by side has ended or cannot be read, and those before it have rows next,
/// that is what comes. Those before it and itself are read once, and those after it are not read.
pub proof fn law_side_stops(lanes: Seq<LaneTrack>, t: Track, k: int)
    requires
        t matches Track::Side { lanes: own, .. } && own == lanes,
        0 <= k < lanes.len(),
        forall|j: int| 0 <= j < k ==> lane_step(#[trigger] lanes[j]).0 is Rows,
        !(lane_step(lanes[k]).0 is Rows),
    ensures
        step(t).0 == lane_step(lanes[k]).0,
        step(t).1 matches Track::Side { lanes: after, join } && {
            &&& join == t->join
            &&& after.len() == lanes.len()
            &&& forall|j: int|
                0 <= j < lanes.len() ==> #[trigger] after[j] == if j <= k {
                    lane_step(lanes[j]).1
                } else {
                    lanes[j]
                }
        },
{
    let steps = lane_steps(lanes);
    assert forall|j: int| 0 <= j < lanes.len() implies #[trigger] steps[j] == lane_step(lanes[j]) by {}
    lemma_ready_at(steps, k);
}

/// Where all tracks side by side have rows next, as many are delivered as the shortest of their chunks
/// has, and each track keeps the rows that its chunk has more, to be delivered next.
pub proof fn law_side_keeps(lanes: Seq<LaneTrack>, t: Track)
    requires
        t matches Track::Side { lanes: own, .. } && own == lanes,
        lanes.len() > 0,
        forall|j: int| 0 <= j < lanes.len() ==> lane_step(#[trigger] lanes[j]).0 is Rows,
        t->join.fault is None,
    ensures
        step(t) matches (Outcome::Rows(chunk), Track::Side { lanes: after, join }) && {
            let n = chunk.rows.len();
            &&& join == t->join
            &&& after.len() == lanes.len()
            &&& forall|j: int|
                #![trigger lanes[j]]
                #![trigger after[j]]
                0 <= j < lanes.len() ==> {
                    let own = lane_step(lanes[j]).0->Rows_0.rows;
                    &&& n <= own.len()
                    &&& after[j].track == lane_step(lanes[j]).1.track
                    &&& match after[j].ahead {
                        Some(rest) => {
                            &&& n < own.len()
                            &&& rest.rows == own.skip(n as int)
                            &&& rest.bytes == share(
                                lane_step(lanes[j]).0->Rows_0.bytes,
                                (own.len() - n) as nat,
                                own.len(),
                            )
                        },
                        None => n == own.len(),
                    }
                }
            &&& exists|j: int|
                0 <= j < lanes.len() && n == lane_step(#[trigger] lanes[j]).0->Rows_0.rows.len()
        },
{
    let steps = lane_steps(lanes);
    assert forall|j: int| 0 <= j < lanes.len() implies #[trigger] steps[j] == lane_step(lanes[j]) by {}
    lemma_ready_at(steps, lanes.len() as int);
    lemma_least(lengths(steps));
    let n = least(lengths(steps));
    let q = choose|q: int| 0 <= q < lengths(steps).len() && n == #[trigger] lengths(steps)[q];
    assert(steps[q] == lane_step(lanes[q]));
    let after = step(t).1->lanes;
    assert forall|j: int| #![trigger lanes[j]] #![trigger after[j]] 0 <= j < lanes.len() implies {
        let own = lane_step(lanes[j]).0->Rows_0.rows;
        &&& n <= own.len()
        &&& after[j].track == lane_step(lanes[j]).1.track
        &&& match after[j].ahead {
            Some(rest) => {
                &&& n < own.len()
                &&& rest.rows == own.skip(n as int)
                &&& rest.bytes == share(
                    lane_step(lanes[j]).0->Rows_0.bytes,
                    (own.len() - n) as nat,
                    own.len(),
                )
            },
            None => n == own.len(),
        }
    } by {
        assert(n <= lengths(steps)[j]);
        assert(steps[j] == lane_step(lanes[j]));
    }
}

/// A range that cannot be opened gives its error when it is reached, and the ranges after it are still to
/// be opened. One that can be is then read.
pub proof fn law_pending(first: Pending, others: Seq<Pending>)
    ensures
        ({
            let t = Track::Chain { open: None, pending: seq![first] + others };
            match first {
                Pending::Fails { error, .. } => step(t) == (
                    Outcome::Failed(error),
                    Track::Chain { open: None, pending: others },
                ),
                Pending::Opens(own) => !(step(own).0 is Ended) ==> step(t) == (
                    step(own).0,
                    Track::Chain { open: Some(Box::new(step(own).1)), pending: others },
                ),
            }
        }),
{
    let pending = seq![first] + others;
    assert(pending.subrange(1, pending.len() as int) =~= others);
    assert(pending[0] == first);
    assert(step(Track::Chain { open: None, pending }) == pending_step(pending));
}

/// A stored segment delivers a range in one piece, and a constant too where an array can be as long. The
/// values that codes stand for come in the pieces of the codes. An empty range has no pieces.
pub proof fn law_whole_pieces(l: Layout, start: nat, end: nat)
    ensures
        l is Flat && start < end ==> pieces(l, start, end).len() == 1,
        l is Constant && start < end && end - start <= usize::MAX ==> pieces(l, start, end).len() == 1,
        l is Flat || l is Constant ==> (start >= end ==> pieces(l, start, end).len() == 0),
        l matches Layout::Dict { codes, .. } ==> {
            &&& pieces(l, start, end).len() == pieces(*codes, start, end).len()
            &&& forall|k: int|
                0 <= k < pieces(l, start, end).len() ==> (#[trigger] pieces(l, start, end)[k]).len()
                    == pieces(*codes, start, end)[k].len()
        },
        l is Zoned ==> pieces(l, start, end) == pieces(*l->data, start, end),
{
    if let Layout::Constant { scalar, expression, .. } = l {
        if start < end && end - start <= usize::MAX {
            let n = (end - start) as nat;
            lemma_first_run(n);
            reveal_with_fuel(repeated, 2);
        }
    }
}

/// Chunks that are there are delivered one after the other, each estimated at the decoded size of its
/// rows. Codes are delivered as the values they stand for, estimated so too.
pub proof fn law_estimates(t: Track)
    ensures
        t matches Track::Run { chunks, dtype } ==> if chunks.len() == 0 {
            step(t).0 is Ended
        } else {
            &&& step(t).0 matches Outcome::Rows(chunk) && chunk.rows == chunks[0] && chunk.bytes
                == capped(decoded_size(dtype, chunks[0].len()))
            &&& step(t).1 == (Track::Run { chunks: chunks.skip(1), dtype })
        },
        t matches Track::Coded { codes, change, dtype } ==> match step(*codes).0 {
            Outcome::Rows(own) => step(t).0 matches Outcome::Rows(chunk) && {
                &&& chunk.rows.len() == own.rows.len()
                &&& forall|i: int|
                    0 <= i < chunk.rows.len() ==> #[trigger] chunk.rows[i] == change(own.rows[i])
                &&& chunk.bytes == capped(decoded_size(dtype, own.rows.len()))
            },
            outcome => step(t).0 == outcome,
        },
{
    if let Track::Run { chunks, .. } = t {
        if chunks.len() > 0 {
            assert(chunks.drop_first() =~= chunks.skip(1));
        }
    }
}

/// Structs that tracks side by side deliver are estimated at what the parts of them are together, each at
/// its share of its chunk. Results of a function are at the decoded size of as many of their type.
pub proof fn law_side_estimates(lanes: Seq<LaneTrack>, t: Track, shares: Seq<nat>)
    requires
        t matches Track::Side { lanes: own, .. } && own == lanes,
        lanes.len() > 0,
        forall|j: int| 0 <= j < lanes.len() ==> lane_step(#[trigger] lanes[j]).0 is Rows,
        t->join.fault is None,
        shares.len() == lanes.len(),
        forall|j: int|
            0 <= j < lanes.len() ==> #[trigger] shares[j] == cut(
                lane_step(lanes[j]).0->Rows_0.bytes,
                step(t).0->Rows_0.rows.len(),
                lane_step(lanes[j]).0->Rows_0.rows.len(),
            ),
    ensures
        step(t).0 matches Outcome::Rows(chunk) && match t->join.dtype {
            Some(dtype) => chunk.bytes == capped(decoded_size(dtype, chunk.rows.len())),
            None => chunk.bytes == capped(total(shares)),
        },
{
    let steps = lane_steps(lanes);
    assert forall|j: int| 0 <= j < lanes.len() implies #[trigger] steps[j] == lane_step(lanes[j]) by {}
    lemma_ready_at(steps, lanes.len() as int);
    let n = least(lengths(steps));
    assert(Seq::new(steps.len(), |j: int| head(steps[j].0->Rows_0, n).bytes) =~= shares);
}

/// How rows of structs and of function results are put together: structs of a type that is none of
/// structs cannot be, and are estimated by their parts; results are estimated by their type.
pub proof fn law_joins(dtype: SpecDType, has_validity: bool, function: SpecScalarFn)
    ensures
        struct_side(dtype, has_validity).dtype is None,
        dtype is Struct ==> struct_side(dtype, has_validity).fault is None,
        !(dtype is Struct) ==> struct_side(dtype, has_validity).fault == Some(
            SpecError::ExpectedStruct,
        ),
        call_side(function, dtype).dtype == Some(dtype),
        call_side(function, dtype).fault is None,
{
}

/// The type of a layout's rows is the one that it says, and that of the data for zones. So is the number of
/// rows, and that of the codes for a dictionary.
pub proof fn law_says(l: Layout)
    ensures
        match l {
            Layout::Flat { dtype, segment, .. } => dtype_of(l) == dtype && row_count(l)
                == segment.len as u64,
            Layout::Constant { dtype, row_count: count, .. } => dtype_of(l) == dtype && row_count(l)
                == count,
            Layout::Chunked { dtype, row_count: count, .. } => dtype_of(l) == dtype && row_count(l)
                == count,
            Layout::Struct { dtype, row_count: count, .. } => dtype_of(l) == dtype && row_count(l)
                == count,
            Layout::ScalarFn { dtype, row_count: count, .. } => dtype_of(l) == dtype && row_count(l)
                == count,
            Layout::Dict { dtype, codes, .. } => dtype_of(l) == dtype && row_count(l) == row_count(
                *codes,
            ),
            Layout::Zoned { data, .. } => dtype_of(l) == dtype_of(*data) && row_count(l) == row_count(
                *data,
            ),
        },
{
}

/// Stored segments and constants are well formed. Chunks are where each is, and can be opened, and they
/// have the rows together that are said. Structs are where their parts are and have as many rows each, and
/// their type has as many names as there are fields. So are function results with arguments that are and
/// have as many rows each, dictionaries with values and codes that are, and zones of data that is.
pub proof fn law_well_formed(l: Layout)
    ensures
        match l {
            Layout::Flat { .. } | Layout::Constant { .. } => well_formed(l) && openable(l),
            Layout::Chunked { row_count: count, chunks, .. } => {
                &&& openable(l)
                &&& total_rows(chunks) == count && (forall|i: int|
                    0 <= i < chunks.len() ==> well_formed(#[trigger] chunks[i]) && openable(chunks[i]))
                    ==> well_formed(l)
            },
            Layout::Struct { row_count: count, dtype, validity, fields } => {
                let ready = match validity {
                    Some(v) => well_formed(*v) && row_count(*v) == count && openable(*v),
                    None => fields.len() > 0,
                };
                ready && dtype is Struct && dtype->names.len() == fields.len() && (forall|i: int|
                    0 <= i < fields.len() ==> well_formed(#[trigger] fields[i]) && openable(fields[i])
                        && row_count(fields[i]) == count) ==> well_formed(l) && openable(l)
            },
            Layout::ScalarFn { row_count: count, children, .. } => children.len() > 0 && (forall|i: int|
                0 <= i < children.len() ==> well_formed(#[trigger] children[i]) && openable(
                    children[i],
                ) && row_count(children[i]) == count) ==> well_formed(l) && openable(l),
            Layout::Dict { values, codes, .. } => well_formed(*values) && well_formed(*codes)
                && openable(*values) && openable(*codes) && row_count(*values) > 0 ==> well_formed(l)
                && openable(l),
            Layout::Zoned { data, .. } => well_formed(*data) && openable(*data) ==> well_formed(l)
                && openable(l),
        },
{
}

/// No layouts have no rows together, and one more adds as many as it says.
pub proof fn law_total_rows(chunks: Seq<Layout>, last: Layout)
    ensures
        total_rows(Seq::empty()) == 0,
        total_rows(chunks.push(last)) == total_rows(chunks) + row_count(last),
    decreases chunks.len(),
{
    let longer = chunks.push(last);
    let rest = longer.subrange(1, longer.len() as int);
    if chunks.len() > 0 {
        let others = chunks.subrange(1, chunks.len() as int);
        law_total_rows(others, last);
        assert(rest =~= others.push(last));
        assert(longer[0] == chunks[0]);
    } else {
        assert(rest =~= Seq::<Layout>::empty());
        assert(longer[0] == last);
    }
}

/// What was read ahead of a track comes first, as it is. Reading its first rows gives these, estimated at
/// their share, and keeps the others, estimated at theirs. The length that is said of the next chunk is
/// the one that it has.
pub proof fn law_lane(lane: LaneTrack, n: nat)
    requires
        lane_solid(lane),
    ensures
        lane.ahead matches Some(chunk) ==> lane_step(lane) == (
            Outcome::Rows(chunk),
            LaneTrack { ahead: None, track: lane.track },
        ),
        lane.ahead is None ==> lane_step(lane).0 == step(lane.track).0 && lane_step(lane).1 == (
        LaneTrack { ahead: None, track: step(lane.track).1 }),
        lane_step(lane).0 matches Outcome::Rows(chunk) ==> {
            let len = chunk.rows.len();
            &&& lane_len(lane) == Some(len)
            &&& n <= len ==> (lane_read(lane, n).0 matches Outcome::Rows(own) && own.rows
                == chunk.rows.take(n as int) && own.bytes == cut(chunk.bytes, n, len))
            &&& lane_read(lane, n).1.track == lane_step(lane).1.track
            &&& n < len ==> (lane_read(lane, n).1.ahead matches Some(rest) && rest.rows
                == chunk.rows.skip(n as int) && rest.bytes == share(
                chunk.bytes,
                (len - n) as nat,
                len,
            ))
            &&& n == len ==> lane_read(lane, n).1.ahead is None
        },
        !(lane_step(lane).0 is Rows) ==> lane_read(lane, n) == lane_step(lane),
        lane_skipped(lane, 0) == lane || lane.ahead is None,
        lane.ahead matches Some(chunk) ==> {
            &&& n < chunk.rows.len() ==> (lane_skipped(lane, n).ahead matches Some(rest) && rest.rows
                == chunk.rows.skip(n as int) && rest.bytes == share(
                chunk.bytes,
                (chunk.rows.len() - n) as nat,
                chunk.rows.len(),
            ) && lane_skipped(lane, n).track == lane.track)
            &&& n >= chunk.rows.len() ==> lane_skipped(lane, n) == (LaneTrack {
                ahead: None,
                track: skipped(lane.track, (n - chunk.rows.len()) as nat),
            })
        },
{
    lemma_lane(lane);
    if let Some(chunk) = lane.ahead {
        law_share(chunk.bytes, chunk.rows.len(), chunk.rows.len());
        lemma_share(chunk.bytes, chunk.rows.len(), chunk.rows.len());
        assert(chunk.rows.skip(0) =~= chunk.rows);
    }
}

/// What is left of the range that is open comes before the ranges that are still to be opened, and these
/// when it has ended. Where there are none, the stream has ended.
pub proof fn law_open_range(current: Track, pending: Seq<Pending>)
    ensures
        ({
            let t = Track::Chain { open: Some(Box::new(current)), pending };
            &&& !(step(current).0 is Ended) ==> step(t) == (
                step(current).0,
                Track::Chain { open: Some(Box::new(step(current).1)), pending },
            )
            &&& step(current).0 is Ended ==> step(t) == step(Track::Chain { open: None, pending })
        }),
        step(Track::Chain { open: None, pending: Seq::empty() }).0 is Ended,
{
    assert(step(Track::Chain { open: None, pending }) == pending_step(pending));
    let none = Seq::<Pending>::empty();
    assert(step(Track::Chain { open: None, pending: none }) == pending_step(none));
}

/// A range that opens to nothing gives way to the one after it.
pub proof fn law_empty_range(own: Track, others: Seq<Pending>)
    requires
        step(own).0 is Ended,
    ensures
        step(Track::Chain { open: None, pending: seq![Pending::Opens(own)] + others }) == step(
            Track::Chain { open: None, pending: others },
        ),
{
    let pending = seq![Pending::Opens(own)] + others;
    assert(pending.subrange(1, pending.len() as int) =~= others);
    assert(pending[0] == Pending::Opens(own));
    assert(step(Track::Chain { open: None, pending }) == pending_step(pending));
    assert(step(Track::Chain { open: None, pending: others }) == pending_step(others));
}

/// A range of chunks is the ranges of those that it overlaps, in their order, each counted from the start of
/// its chunk: a chunk that ends before the range is left out, and one that the range goes beyond is read
/// to its end. Each is opened when it is reached, or fails then with the reason why it cannot be.
pub proof fn law_chunk_ranges(
    count: u64,
    dtype: SpecDType,
    first: Layout,
    rest: Seq<Layout>,
    start: nat,
    end: nat,
)
    requires
        start < end <= u64::MAX,
    ensures
        ({
            let len = row_count(first) as nat;
            let own = |from: nat, to: nat|
                match open_error(first, from as u64, to as u64) {
                    Some(error) => Pending::Fails { error, rows: (to - from) as nat },
                    None => Pending::Opens(track(first, from, to)),
                };
            let all = track(
                Layout::Chunked { row_count: count, dtype, chunks: seq![first] + rest },
                start,
                end,
            );
            let others = |from: nat, to: nat|
                track(Layout::Chunked { row_count: count, dtype, chunks: rest }, from, to)->pending;
            &&& all matches Track::Chain { open: None, .. }
            &&& all->pending == if start >= len {
                others((start - len) as nat, (end - len) as nat)
            } else if end <= len {
                seq![own(start, end)]
            } else {
                seq![own(start, len)] + others(0, (end - len) as nat)
            }
        }),
        track(Layout::Chunked { row_count: count, dtype, chunks: Seq::empty() }, start, end) == (
        Track::Chain { open: None, pending: Seq::empty() }),
{
    let chunks = seq![first] + rest;
    assert(chunks.subrange(1, chunks.len() as int) =~= rest);
    assert(chunks[0] == first);
    assert(overlapping(Seq::empty(), start, end) == Seq::<Pending>::empty());
    let len = row_count(first) as nat;
    assert(overlapping(chunks, start, end) == if start >= len {
        overlapping(rest, (start - len) as nat, (end - len) as nat)
    } else if end <= len {
        seq![unopened(first, start, end)]
    } else {
        seq![unopened(first, start, len)] + overlapping(rest, 0, (end - len) as nat)
    });
}

/// A range of a dictionary's codes can be opened where that of the values can be and can be read, there are
/// some, and that of the codes can be opened.
pub proof fn law_dict_opens(l: Layout, start: u64, end: u64)
    requires
        l is Dict,
        well_formed(*l->values),
        openable(*l->values),
        row_count(*l->values) > 0,
    ensures
        open_error(l, start, end) == open_error(*l->codes, start, end),
{
    let values = *l->values;
    let count = row_count(values);
    lemma_counted(values);
    law_row_count(values);
    law_openable(values, 0, count);
    law_range(values, 0, count);
    law_pieces(values, 0, count as nat);
    law_track(values, 0, count as nat);
    law_drained(track(values, 0, count as nat));
    let all = pieces(values, 0, count as nat);
    lemma_full_flat(all);
    lemma_clean(rows(values).subrange(0, count as int));
}

/// A dictionary's values that cannot be opened are why it cannot be.
pub proof fn law_dict_values_fail(l: Layout, start: u64, end: u64)
    requires
        l is Dict,
        open_error(*l->values, 0, row_count(*l->values)) is Some,
    ensures
        open_error(l, start, end) == open_error(*l->values, 0, row_count(*l->values)),
{
}

/// Tracks side by side are still to read the rows of their layouts from a position on.
pub open spec fn lanes_at(lanes: Seq<LaneTrack>, layouts: Seq<Layout>, position: nat, end: nat) -> bool {
    &&& lanes.len() == layouts.len()
    &&& forall|j: int|
        0 <= j < lanes.len() ==> {
            &&& lane_solid(#[trigger] lanes[j])
            &&& even(lanes[j].track)
            &&& flat(lane_chunks(lanes[j])) == clean(
                rows(layouts[j]).subrange(position as int, end as int),
            )
        }
}

/// A range of well-formed layouts side by side that can be opened is to be read from its start on: track
/// `j` is of layout `j`.
pub proof fn law_lanes_start(
    lanes: Seq<LaneTrack>,
    layouts: Seq<Layout>,
    start: u64,
    end: u64,
    count: u64,
)
    requires
        start <= end <= count,
        lanes.len() == layouts.len(),
        forall|j: int|
            0 <= j < layouts.len() ==> {
                &&& well_formed(#[trigger] layouts[j])
                &&& openable(layouts[j])
                &&& row_count(layouts[j]) == count
                &&& lanes[j] == (LaneTrack {
                    ahead: None,
                    track: track(layouts[j], start as nat, end as nat),
                })
            },
    ensures
        lanes_at(lanes, layouts, start as nat, end as nat),
{
    assert forall|j: int| 0 <= j < lanes.len() implies {
        &&& lane_solid(#[trigger] lanes[j])
        &&& even(lanes[j].track)
        &&& flat(lane_chunks(lanes[j])) == clean(
            rows(layouts[j]).subrange(start as int, end as int),
        )
    } by {
        let l = layouts[j];
        lemma_counted(l);
        law_openable(l, start, end);
        law_range(l, start, end);
        law_pieces(l, start as nat, end as nat);
        law_track(l, start as nat, end as nat);
    }
}

/// Every chunk of layouts side by side is, of each of them, the next rows of the range, the same of all. What
/// is left of each are the rows after them. So part `j` of what is put together is always of layout `j`,
/// and of the same rows as the other parts.
pub proof fn law_lanes_go_on(
    lanes: Seq<LaneTrack>,
    layouts: Seq<Layout>,
    t: Track,
    position: nat,
    end: nat,
)
    requires
        lanes_at(lanes, layouts, position, end),
        lanes.len() > 0,
        position < end,
        forall|j: int| 0 <= j < layouts.len() ==> end <= rows(#[trigger] layouts[j]).len(),
        t matches Track::Side { lanes: own, .. } && own == lanes,
        t->join.fault is None,
    ensures
        step(t) matches (Outcome::Rows(chunk), Track::Side { lanes: after, .. }) && {
            let n = chunk.rows.len();
            &&& 0 < n <= end - position
            &&& lanes_at(after, layouts, position + n, end)
            &&& forall|j: int|
                0 <= j < lanes.len() ==> {
                    &&& lane_step(#[trigger] lanes[j]).0 is Rows
                    &&& lane_step(lanes[j]).0->Rows_0.rows.take(n as int) == rows(
                        layouts[j],
                    ).subrange(position as int, (position + n) as int)
                }
        },
{
    assert forall|j: int| 0 <= j < lanes.len() implies lane_step(#[trigger] lanes[j]).0 is Rows by {
        lemma_lane_rows(lanes[j], rows(layouts[j]), position, end);
    }
    law_side_keeps(lanes, t);
    let chunk = step(t).0->Rows_0;
    let n = chunk.rows.len();
    let after = step(t).1->lanes;
    let shortest = choose|j: int|
        0 <= j < lanes.len() && n == lane_step(#[trigger] lanes[j]).0->Rows_0.rows.len();
    lemma_lane_rows(lanes[shortest], rows(layouts[shortest]), position, end);
    assert forall|j: int| 0 <= j < lanes.len() implies {
        &&& lane_solid(#[trigger] after[j])
        &&& even(after[j].track)
        &&& flat(lane_chunks(after[j])) == clean(
            rows(layouts[j]).subrange((position + n) as int, end as int),
        )
        &&& lane_step(lanes[j]).0->Rows_0.rows.take(n as int) == rows(layouts[j]).subrange(
            position as int,
            (position + n) as int,
        )
    } by {
        let lane = lanes[j];
        let all = rows(layouts[j]).subrange(position as int, end as int);
        lemma_lane_rows(lane, rows(layouts[j]), position, end);
        lemma_lane(lane);
        law_read(lane, n);
        let own = lane_step(lane).0->Rows_0.rows;
        assert(lane_read(lane, n).1.track == after[j].track);
        assert(lane_read(lane, n).1.ahead == after[j].ahead);
        assert(clean(all).skip(n as int) =~= clean(
            rows(layouts[j]).subrange((position + n) as int, end as int),
        ));
        assert forall|i: int| 0 <= i < n implies own.take(n as int)[i] == rows(layouts[j]).subrange(
            position as int,
            (position + n) as int,
        )[i] by {
            assert(clean(own.take(n as int))[i] == clean(all).take(n as int)[i]);
            assert(clean(all)[i] == Ok::<Row, SpecError>(all[i]));
        }
        assert(own.take(n as int) =~= rows(layouts[j]).subrange(position as int, (position + n) as int));
    }
    assert forall|j: int| 0 <= j < lanes.len() implies {
        &&& lane_step(#[trigger] lanes[j]).0 is Rows
        &&& lane_step(lanes[j]).0->Rows_0.rows.take(n as int) == rows(layouts[j]).subrange(
            position as int,
            (position + n) as int,
        )
    } by {
        assert(lane_solid(after[j]));
    }
}

/// A track that is still to read rows that can all be read has some next, no more than are left.
proof fn lemma_lane_rows(lane: LaneTrack, all: Seq<Row>, position: nat, end: nat)
    requires
        lane_solid(lane),
        even(lane.track),
        position < end <= all.len(),
        flat(lane_chunks(lane)) == clean(all.subrange(position as int, end as int)),
    ensures
        lane_step(lane).0 matches Outcome::Rows(chunk) && 0 < chunk.rows.len() <= end - position
            && lane_len(lane) == Some(chunk.rows.len()),
{
    lemma_lane(lane);
    let cells = clean(all.subrange(position as int, end as int));
    assert(cells[0] is Ok);
    lemma_full_flat(lane_chunks(lane));
    if lane_step(lane).0 is Failed {
        let first = lane_chunks(lane)[0];
        assert(flat(lane_chunks(lane))[0] == first[0]);
    }
}

} // verus!
