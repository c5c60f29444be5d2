//! What a scan delivers, row by row.
use vstd::prelude::*;
use crate::apply::{evaluation, has_arguments};
use crate::error::SpecError;
use crate::expr::valid_expression;
use crate::layout::{law_row_count, lemma_counted, row_count, rows, well_formed};
use crate::mask::count_true;
use crate::row::{evaluated, Row};
use crate::scan::{
    chosen, chunk_len, delivered, initial, law_scan_delivers, limited, masked, next_request,
    scan_error, wanted, ScanPlan, ScanState, SpecRequest,
};
use crate::selection::{buffer_items, law_selected, selected, Selection};
use crate::track::{lane_len, lane_read, LaneTrack, Outcome};

verus! {

/// No rows are wanted of none, and one more row counts where it is wanted.
pub proof fn law_count_true(mask: Seq<bool>, last: bool)
    ensures
        count_true(Seq::empty()) == 0,
        count_true(mask.push(last)) == count_true(mask) + if last {
            1int
        } else {
            0int
        },
{
    assert(mask.push(last).drop_last() =~= mask);
}

/// The rows that a mask wants are as many as it counts, and stand in the order of the rows: each row
/// that is wanted comes after those that are wanted before it.
pub proof fn law_masked(all: Seq<Row>, mask: Seq<bool>)
    requires
        all.len() == mask.len(),
    ensures
        masked(all, mask).len() == count_true(mask),
        forall|i: int|
            0 <= i < all.len() && #[trigger] mask[i] ==> count_true(mask.take(i)) < count_true(mask)
                && masked(all, mask)[count_true(mask.take(i)) as int] == all[i],
    decreases all.len(),
{
    if all.len() > 0 {
        let (front, shorter) = (all.drop_last(), mask.drop_last());
        law_masked(front, shorter);
        lemma_masked_front(front, mask, shorter);
        assert forall|i: int| 0 <= i < all.len() && #[trigger] mask[i] implies count_true(mask.take(i))
            < count_true(mask) && masked(all, mask)[count_true(mask.take(i)) as int] == all[i] by {
            if i < front.len() {
                assert(shorter[i] == mask[i]);
                assert(shorter.take(i) =~= mask.take(i));
                assert(masked(front, shorter)[count_true(mask.take(i)) as int] == front[i]);
            } else {
                assert(mask.take(i) =~= shorter);
            }
        }
    } else {
        assert(mask =~= Seq::empty());
    }
}

proof fn lemma_masked_front(all: Seq<Row>, a: Seq<bool>, b: Seq<bool>)
    requires
        b.len() >= all.len(),
        forall|i: int| 0 <= i < all.len() ==> a[i] == b[i],
    ensures
        masked(all, a) == masked(all, b),
    decreases all.len(),
{
    if all.len() > 0 {
        lemma_masked_front(all.drop_last(), a, b);
    }
}

/// A limit keeps the first rows: all of them where it leaves as many, and otherwise as many as it leaves.
pub proof fn law_limited(all: Seq<Row>, limit: Option<u64>, produced: nat)
    requires
        limit matches Some(limit) ==> produced <= limit,
    ensures
        limited(all, limit, produced).len() <= all.len(),
        forall|i: int|
            0 <= i < limited(all, limit, produced).len() ==> #[trigger] limited(
                all,
                limit,
                produced,
            )[i] == all[i],
        match limit {
            Some(limit) => if produced + all.len() <= limit {
                limited(all, Some(limit), produced).len() == all.len()
            } else {
                limited(all, Some(limit), produced).len() + produced == limit
            },
            None => limited(all, limit, produced).len() == all.len(),
        },
{
}

/// A scan of rows that can all be read delivers the projection of each row of its range that is selected
/// and of which the filter is true, in order, up to the limit: positions are counted from the start of
/// the range, and a position is selected where all are or where it is among the indices.
pub proof fn law_scan_rows(plan: ScanPlan, holds: spec_fn(Row) -> bool, mask: Seq<bool>)
    requires
        well_formed(plan.layout),
        plan.start <= plan.end <= row_count(plan.layout),
        valid_expression(plan.projection),
        has_arguments(plan.projection),
        plan.filter matches Some(filter) ==> valid_expression(filter) && has_arguments(filter),
        scan_error(plan) is None,
        mask.len() == plan.end - plan.start,
        forall|i: int|
            0 <= i < mask.len() ==> (#[trigger] mask[i] <==> {
                &&& match plan.selection {
                    Selection::All => true,
                    Selection::IncludeByIndex(indices) => buffer_items(indices).contains(i as u64),
                }
                &&& match plan.filter {
                    Some(filter) => holds(evaluated(filter, rows(plan.layout)[plan.start + i])),
                    None => true,
                }
            }),
    ensures
        ({
            let out = delivered(initial(plan), holds);
            &&& match plan.limit {
                Some(limit) => if count_true(mask) <= limit {
                    out.len() == count_true(mask)
                } else {
                    out.len() == limit
                },
                None => out.len() == count_true(mask),
            }
            &&& forall|i: int|
                0 <= i < mask.len() && #[trigger] mask[i] && count_true(mask.take(i)) < out.len()
                    ==> out[count_true(mask.take(i)) as int] == evaluated(
                    plan.projection,
                    rows(plan.layout)[plan.start + i],
                )
        }),
{
    let all = rows(plan.layout);
    let base = all.subrange(plan.start as int, plan.end as int);
    lemma_counted(plan.layout);
    law_row_count(plan.layout);
    law_scan_delivers(plan, holds);
    let own = chosen(base, plan.selection, 0, plan.filter, holds);
    assert forall|i: int| 0 <= i < mask.len() implies own[i] == #[trigger] mask[i] by {
        law_selected(plan.selection, i);
        assert(base[i] == all[plan.start + i]);
        assert(own[i] == (selected(plan.selection, 0 + i) && (plan.filter matches Some(f) ==> holds(
            evaluated(f, base[i]),
        ))));
    }
    assert(own =~= mask);
    let projected = base.map_values(evaluation(plan.projection));
    law_masked(projected, mask);
    law_limited(masked(projected, mask), plan.limit, 0);
    let out = delivered(initial(plan), holds);
    assert forall|i: int|
        0 <= i < mask.len() && #[trigger] mask[i] && count_true(mask.take(i)) < out.len() implies out[
    count_true(mask.take(i)) as int] == evaluated(
        plan.projection,
        rows(plan.layout)[plan.start + i],
    ) by {
        assert(projected[i] == evaluated(plan.projection, base[i]));
        assert(masked(projected, mask)[count_true(mask.take(i)) as int] == projected[i]);
    }
}

/// A scan by indices, without a filter and a limit, delivers every row of its range whose position is
/// among the indices, and no other.
pub proof fn law_scan_by_indices(plan: ScanPlan, holds: spec_fn(Row) -> bool)
    requires
        well_formed(plan.layout),
        plan.start <= plan.end <= row_count(plan.layout),
        valid_expression(plan.projection),
        has_arguments(plan.projection),
        plan.filter is None,
        plan.limit is None,
        plan.selection is IncludeByIndex,
        scan_error(plan) is None,
    ensures
        forall|i: int|
            0 <= i < plan.end - plan.start && buffer_items(plan.selection->IncludeByIndex_0).contains(
                i as u64,
            ) ==> delivered(initial(plan), holds).contains(
                evaluated(plan.projection, #[trigger] rows(plan.layout)[plan.start + i]),
            ),
        forall|k: int|
            0 <= k < delivered(initial(plan), holds).len() ==> exists|i: int|
                {
                    &&& 0 <= i < plan.end - plan.start
                    &&& buffer_items(plan.selection->IncludeByIndex_0).contains(i as u64)
                    &&& #[trigger] delivered(initial(plan), holds)[k] == evaluated(
                        plan.projection,
                        #[trigger] rows(plan.layout)[plan.start + i],
                    )
                },
{
    let indices = buffer_items(plan.selection->IncludeByIndex_0);
    let mask = Seq::new((plan.end - plan.start) as nat, |i: int| indices.contains(i as u64));
    law_scan_rows(plan, holds, mask);
    let out = delivered(initial(plan), holds);
    assert forall|i: int|
        0 <= i < plan.end - plan.start && indices.contains(i as u64) implies out.contains(
        evaluated(plan.projection, #[trigger] rows(plan.layout)[plan.start + i]),
    ) by {
        assert(mask[i]);
        lemma_count_before(mask, i);
        assert(out[count_true(mask.take(i)) as int] == evaluated(
            plan.projection,
            rows(plan.layout)[plan.start + i],
        ));
    }
    assert forall|k: int| 0 <= k < out.len() implies exists|i: int|
        {
            &&& 0 <= i < plan.end - plan.start
            &&& indices.contains(i as u64)
            &&& #[trigger] out[k] == evaluated(
                plan.projection,
                #[trigger] rows(plan.layout)[plan.start + i],
            )
        } by {
        let i = lemma_nth(mask, k as nat);
        assert(mask[i]);
        assert(out[k] == evaluated(plan.projection, rows(plan.layout)[plan.start + i]));
    }
}

proof fn lemma_count_before(mask: Seq<bool>, i: int)
    requires
        0 <= i < mask.len(),
        mask[i],
    ensures
        count_true(mask.take(i)) < count_true(mask),
    decreases mask.len(),
{
    let shorter = mask.drop_last();
    if i < shorter.len() {
        assert(shorter[i] == mask[i]);
        assert(shorter.take(i) =~= mask.take(i));
        lemma_count_before(shorter, i);
    } else {
        assert(mask.take(i) =~= shorter);
    }
}

proof fn lemma_nth(mask: Seq<bool>, k: nat) -> (i: int)
    requires
        k < count_true(mask),
    ensures
        0 <= i < mask.len(),
        mask[i],
        count_true(mask.take(i)) == k,
    decreases mask.len(),
{
    let shorter = mask.drop_last();
    if k < count_true(shorter) {
        let i = lemma_nth(shorter, k);
        assert(shorter.take(i) =~= mask.take(i));
        i
    } else {
        let i = mask.len() - 1;
        assert(mask.take(i) =~= shorter);
        i
    }
}

/// The next rows of a scan are as many as the shorter of the next chunks of the projection and of the
/// filter has, but no more than the limit leaves or than can be counted. There are none where either has
/// no row left, or the limit is reached.
pub proof fn law_chunk_len(state: ScanState)
    requires
        state.offset <= u64::MAX,
    ensures
        match chunk_len(state) {
            Some(n) => {
                &&& lane_len(state.projection) matches Some(len) && n <= len
                &&& state.filter matches Some(filter) ==> (lane_len(filter) matches Some(len) && n
                    <= len)
                &&& state.limit matches Some(limit) ==> state.produced < limit && state.produced + n
                    <= limit
                &&& state.offset + n <= u64::MAX
                &&& {
                    ||| lane_len(state.projection) == Some(n)
                    ||| state.filter matches Some(filter) && lane_len(filter) == Some(n)
                    ||| state.limit matches Some(limit) && state.produced + n == limit
                    ||| state.offset + n == u64::MAX
                }
            },
            None => {
                ||| lane_len(state.projection) is None
                ||| state.filter matches Some(filter) && lane_len(filter) is None
                ||| state.limit matches Some(limit) && state.produced >= limit
            },
        },
{
}

/// Where the filter of the next rows cannot be read, the request is its error, and the projection and
/// the positions are left where they were.
pub proof fn law_filter_fails(state: ScanState, n: nat, lane: LaneTrack, error: SpecError)
    requires
        chunk_len(state) == Some(n),
        n > 0,
        exists|i: int| 0 <= i < n && #[trigger] selected(state.selection, state.offset + i),
        state.filter == Some(lane),
        lane_read(lane, n).0 == Outcome::Failed(error),
    ensures
        next_request(state).0 == Err::<Option<SpecRequest>, SpecError>(error),
        next_request(state).1.projection == state.projection,
        next_request(state).1.offset == state.offset,
        next_request(state).1.produced == state.produced,
        next_request(state).1.limit == state.limit,
        next_request(state).1.selection == state.selection,
{
    let i = choose|i: int| 0 <= i < n && #[trigger] selected(state.selection, state.offset + i);
    assert(wanted(state, n)[i]);
}

/// Where the projection of the next rows cannot be read, and their filter can, the request is its error,
/// and the rows are passed over in the positions.
pub proof fn law_projection_fails(state: ScanState, n: nat, error: SpecError)
    requires
        chunk_len(state) == Some(n),
        n > 0,
        exists|i: int| 0 <= i < n && #[trigger] selected(state.selection, state.offset + i),
        state.filter matches Some(lane) ==> lane_read(lane, n).0 is Rows,
        lane_read(state.projection, n).0 == Outcome::Failed(error),
    ensures
        next_request(state).0 == Err::<Option<SpecRequest>, SpecError>(error),
        next_request(state).1.offset == state.offset + n,
        next_request(state).1.produced == state.produced,
        next_request(state).1.limit == state.limit,
        next_request(state).1.selection == state.selection,
{
    let i = choose|i: int| 0 <= i < n && #[trigger] selected(state.selection, state.offset + i);
    assert(wanted(state, n)[i]);
}

} // verus!
