//! Selections of rows.
use vstd::prelude::*;
use std::ops::Range;
use crate::mask::Mask;

verus! {

/// `vortex_buffer::Buffer`, an immutable run of values in memory.
#[verifier::external_type_specification]
#[verifier::external_body]
#[verifier::reject_recursive_types(T)]
pub struct ExBuffer<T>(vortex_buffer::Buffer<T>);

/// The values that a `vortex_buffer::Buffer` holds, in order.
pub uninterp spec fn buffer_items(buffer: vortex_buffer::Buffer<u64>) -> Seq<u64>;

/// `vortex_buffer::Buffer::as_slice`: the values that the buffer holds, in order.
#[verifier::external_body]
fn buffer_slice(buffer: &vortex_buffer::Buffer<u64>) -> (result: &[u64])
    ensures
        result@ == buffer_items(*buffer),
{
    buffer.as_slice()
}

/// A selection of rows.
pub enum Selection {
    /// Every row.
    All,
    /// The rows at the given positions.
    IncludeByIndex(vortex_buffer::Buffer<u64>),
}

/// Whether a selection has the row at a position.
pub open spec fn selected(selection: Selection, i: int) -> bool {
    match selection {
        Selection::All => true,
        Selection::IncludeByIndex(indices) => exists|k: int|
            0 <= k < buffer_items(indices).len() && #[trigger] buffer_items(indices)[k] == i,
    }
}

/// A selection by positions has the row at each of the positions, wherever in the list it stands, and
/// no row at any other. A selection of all rows has every row.
pub proof fn law_selected(selection: Selection, i: int)
    ensures
        match selection {
            Selection::All => selected(selection, i),
            Selection::IncludeByIndex(indices) => {
                &&& forall|k: int|
                    0 <= k < buffer_items(indices).len() ==> selected(
                        selection,
                        (#[trigger] buffer_items(indices)[k]) as int,
                    )
                &&& selected(selection, i) ==> 0 <= i <= u64::MAX && buffer_items(indices).contains(
                    i as u64,
                )
                &&& 0 <= i <= u64::MAX && buffer_items(indices).contains(i as u64) ==> selected(
                    selection,
                    i,
                )
            },
        },
{
    if let Selection::IncludeByIndex(indices) = selection {
        let items = buffer_items(indices);
        assert forall|k: int| 0 <= k < items.len() implies selected(
            selection,
            (#[trigger] items[k]) as int,
        ) by {
            assert(buffer_items(indices)[k] == items[k] as int);
        }
        if 0 <= i <= u64::MAX && items.contains(i as u64) {
            let k = choose|k: int| 0 <= k < items.len() && items[k] == i as u64;
            assert(buffer_items(indices)[k] == i);
        }
    }
}

impl Selection {
    /// The mask of the rows of a range that the selection has.
    pub fn row_mask(&self, range: &Range<u64>) -> (result: Mask)
        requires
            range.start <= range.end,
            range.end - range.start <= usize::MAX,
        ensures
            result@ == Seq::new(
                (range.end - range.start) as nat,
                |i: int| selected(*self, range.start + i),
            ),
            result@.len() == range.end - range.start,
            forall|i: int|
                0 <= i < result@.len() ==> (#[trigger] result@[i] <==> match *self {
                    Selection::All => true,
                    Selection::IncludeByIndex(indices) => buffer_items(indices).contains(
                        (range.start + i) as u64,
                    ),
                }),
    {
        let len: usize = (range.end - range.start) as usize;
        let ghost goal = Seq::new(len as nat, |i: int| selected(*self, range.start + i));
        assert forall|i: int| 0 <= i < len implies #[trigger] goal[i] == match *self {
            Selection::All => true,
            Selection::IncludeByIndex(indices) => buffer_items(indices).contains(
                (range.start + i) as u64,
            ),
        } by {
            law_selected(*self, range.start + i);
        }
        match self {
            Selection::All => {
                let mask = Mask::new_true(len);
                assert(mask@ =~= goal);
                mask
            },
            Selection::IncludeByIndex(indices) => {
                let items = buffer_slice(indices);
                let mut values: Vec<bool> = Vec::new();
                let mut i: usize = 0;
                while i < len
                    invariant
                        i <= len,
                        values@.len() == i,
                        forall|j: int| 0 <= j < i ==> !#[trigger] values@[j],
                    decreases len - i,
                {
                    values.push(false);
                    i = i + 1;
                }
                let mut k: usize = 0;
                while k < items.len()
                    invariant
                        k <= items@.len(),
                        values@.len() == len,
                        len == range.end - range.start,
                        range.start <= range.end,
                        forall|j: int|
                            0 <= j < len ==> (#[trigger] values@[j] <==> exists|h: int|
                                0 <= h < k && #[trigger] items@[h] == range.start + j),
                    decreases items.len() - k,
                {
                    let index = items[k];
                    let ghost before = values@;
                    if range.start <= index && index < range.end {
                        values.set((index - range.start) as usize, true);
                    }
                    assert forall|j: int| 0 <= j < len implies (#[trigger] values@[j]
                        <==> exists|h: int|
                        0 <= h < k + 1 && #[trigger] items@[h] == range.start + j) by {
                        if index == range.start + j {
                            assert(items@[k as int] == range.start + j);
                        } else {
                            assert(values@[j] == before[j]);
                            if before[j] {
                                let h = choose|h: int|
                                    0 <= h < k && #[trigger] items@[h] == range.start + j;
                                assert(0 <= h < k + 1 && items@[h] == range.start + j);
                            }
                        }
                    }
                    k = k + 1;
                }
                let mask = Mask::new(values);
                assert(mask@ =~= goal) by {
                    assert forall|j: int| 0 <= j < len implies mask@[j] == goal[j] by {
                        assert(items@ == buffer_items(*indices));
                    }
                }
                mask
            },
        }
    }
}

} // verus!
