//! What stands at the positions of a range: a row, or the error of reading it.
use vstd::prelude::*;
use crate::chunks::{dropped, flat, full, lemma_flat_one};
use crate::dtype::SpecDType;
use crate::error::SpecError;
use crate::row::Row;

verus! {

/// A row, or the error of reading it.
pub type Cell = Result<Row, SpecError>;

/// Rows that can be read.
pub open spec fn clean(rows: Seq<Row>) -> Seq<Cell> {
    rows.map_values(|row: Row| Ok::<Row, SpecError>(row))
}

/// Rows that cannot be read, all for the same reason.
pub open spec fn broken(error: SpecError, n: nat) -> Seq<Cell> {
    Seq::new(n, |i: int| Err::<Row, SpecError>(error))
}

/// The rows, where all of them can be read.
pub open spec fn rows_of(cells: Seq<Cell>) -> Seq<Row> {
    cells.map_values(|cell: Cell| cell->Ok_0)
}

/// Every row can be read.
pub open spec fn all_ok(cells: Seq<Cell>) -> bool {
    forall|i: int| 0 <= i < cells.len() ==> (#[trigger] cells[i]) is Ok
}

/// The error of the first row that cannot be read.
pub open spec fn first_failure(cells: Seq<Cell>) -> Option<SpecError>
    decreases cells.len(),
{
    if cells.len() == 0 {
        None
    } else {
        match cells.first() {
            Err(error) => Some(error),
            Ok(_) => first_failure(cells.drop_first()),
        }
    }
}

/// The rows that can be read are those of a list.
pub open spec fn agrees(cells: Seq<Cell>, rows: Seq<Row>) -> bool {
    &&& cells.len() == rows.len()
    &&& forall|i: int|
        0 <= i < cells.len() ==> ((#[trigger] cells[i]) matches Ok(row) ==> row == rows[i])
}

/// Rows put together; they cannot be where one of them cannot be read, or for the fault where there is
/// one.
pub open spec fn lifted(
    join: spec_fn(Seq<Row>) -> Row,
    fault: Option<SpecError>,
) -> spec_fn(Seq<Cell>) -> Cell {
    |cells: Seq<Cell>|
        match (first_failure(cells), fault) {
            (Some(error), _) => Err(error),
            (None, Some(error)) => Err(error),
            (None, None) => Ok(join(rows_of(cells))),
        }
}

/// Why parts cannot be put together to structs of a type: it is none of structs.
pub open spec fn struct_fault(dtype: SpecDType) -> Option<SpecError> {
    if dtype is Struct {
        None
    } else {
        Some(SpecError::ExpectedStruct)
    }
}

/// Rows that cannot be read, in one piece where there are any.
pub open spec fn unread(error: SpecError, n: nat) -> Seq<Seq<Cell>> {
    if n == 0 {
        Seq::empty()
    } else {
        seq![broken(error, n)]
    }
}

/// A row changed, where it can be read.
pub open spec fn changed(change: spec_fn(Row) -> Row) -> spec_fn(Cell) -> Cell {
    |cell: Cell|
        match cell {
            Ok(row) => Ok(change(row)),
            Err(error) => Err(error),
        }
}

/// There is a first row that cannot be read exactly where not all can.
pub proof fn lemma_first_failure(cells: Seq<Cell>)
    ensures
        first_failure(cells) is None <==> all_ok(cells),
    decreases cells.len(),
{
    if cells.len() > 0 {
        let rest = cells.drop_first();
        lemma_first_failure(rest);
        if all_ok(rest) && cells.first() is Ok {
            assert forall|i: int| 0 <= i < cells.len() implies (#[trigger] cells[i]) is Ok by {
                if i > 0 {
                    assert(rest[i - 1] is Ok);
                }
            }
        }
        if all_ok(cells) {
            assert forall|i: int| 0 <= i < rest.len() implies (#[trigger] rest[i]) is Ok by {
                assert(cells[i + 1] is Ok);
            }
            assert(cells[0] is Ok);
        }
    }
}

/// The first row that cannot be read after rows that can.
pub proof fn lemma_failure_at(cells: Seq<Cell>, i: int)
    requires
        0 <= i < cells.len(),
        cells[i] is Err,
        forall|j: int| 0 <= j < i ==> (#[trigger] cells[j]) is Ok,
    ensures
        first_failure(cells) == Some(cells[i]->Err_0),
    decreases cells.len(),
{
    if i > 0 {
        let rest = cells.drop_first();
        assert forall|j: int| 0 <= j < i - 1 implies (#[trigger] rest[j]) is Ok by {
            assert(cells[j + 1] is Ok);
        }
        assert(cells[0] is Ok);
        lemma_failure_at(rest, i - 1);
    }
}

/// Rows that can be read come before others.
pub proof fn lemma_failure_concat(a: Seq<Cell>, b: Seq<Cell>)
    ensures
        all_ok(a) ==> first_failure(a + b) == first_failure(b),
        first_failure(a) is Some ==> first_failure(a + b) == first_failure(a),
    decreases a.len(),
{
    if a.len() == 0 {
        assert(a + b =~= b);
    } else {
        assert((a + b).drop_first() =~= a.drop_first() + b);
        lemma_failure_concat(a.drop_first(), b);
        if all_ok(a) {
            assert(a[0] is Ok);
            assert forall|i: int| 0 <= i < a.drop_first().len() implies (
            #[trigger] a.drop_first()[i]) is Ok by {
                assert(a[i + 1] is Ok);
            }
        }
    }
}

/// Rows that can be read are themselves.
pub proof fn lemma_clean(rows: Seq<Row>)
    ensures
        all_ok(clean(rows)),
        first_failure(clean(rows)) is None,
        rows_of(clean(rows)) == rows,
{
    lemma_first_failure(clean(rows));
    assert(rows_of(clean(rows)) =~= rows);
}

/// Where all rows can be read and are those of a list, they are the list.
pub proof fn lemma_agrees(cells: Seq<Cell>, rows: Seq<Row>)
    requires
        agrees(cells, rows),
        all_ok(cells),
    ensures
        cells == clean(rows),
{
    assert forall|i: int| 0 <= i < cells.len() implies cells[i] == clean(rows)[i] by {
        assert(cells[i] is Ok);
    }
    assert(cells =~= clean(rows));
}

/// Dropping some of the rows that cannot be read leaves the others.
pub proof fn lemma_unread(error: SpecError, n: nat, k: nat)
    requires
        k <= n,
    ensures
        flat(unread(error, n)) == broken(error, n),
        full(unread(error, n)),
        dropped(unread(error, n), k) == unread(error, (n - k) as nat),
{
    let all = unread(error, n);
    if n == 0 {
        assert(flat(all) =~= broken(error, n));
    } else {
        lemma_flat_one(broken(error, n));
        reveal_with_fuel(dropped, 2);
        assert(all.drop_first() =~= Seq::<Seq<Cell>>::empty());
        if 0 < k < n {
            assert(broken(error, n).skip(k as int) =~= broken(error, (n - k) as nat));
            assert(dropped(all, k) =~= unread(error, (n - k) as nat));
        }
    }
}

} // verus!
