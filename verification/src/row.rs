//! Rows: where the value at a position of a layout comes from.
use vstd::prelude::*;
use crate::array::Array;
use crate::dtype::{lemma_position, position, DType, Nullability, SpecDType};
use crate::expr::{all_substituted, substituted, SpecExpression, SpecScalarFn};
use crate::scalar::Scalar;

verus! {

/// The name of a stored segment.
#[derive(Debug, Clone, Copy, PartialEq, Eq, Structural)]
pub struct SegmentId(pub u32);

/// A stored segment: its name, how many elements it holds, and their type.
#[derive(Debug)]
pub struct Segment {
    pub id: SegmentId,
    pub len: usize,
    pub dtype: DType,
}

/// The mathematical value of a [`Segment`].
pub struct SpecSegment {
    pub id: SegmentId,
    pub len: usize,
    pub dtype: SpecDType,
}

impl View for Segment {
    type V = SpecSegment;

    open spec fn view(&self) -> SpecSegment {
        SpecSegment { id: self.id, len: self.len, dtype: self.dtype@ }
    }
}

impl Clone for Segment {
    fn clone(&self) -> (result: Segment)
        ensures
            result == *self,
    {
        Segment { id: self.id, len: self.len, dtype: self.dtype.clone() }
    }
}

/// The value at one position, as the computation that gives it.
pub enum Row {
    /// An element of a stored segment.
    Stored { segment: SpecSegment, index: nat },
    /// An element of an array in memory.
    Element { array: Array, index: nat },
    /// A constant.
    Constant(Scalar),
    /// A struct of values, with whether it is present where that is stored.
    Struct { dtype: SpecDType, validity: Option<Box<Row>>, fields: Seq<Row> },
    /// A function of other values.
    Call { function: SpecScalarFn, args: Seq<Row> },
    /// The value that a code stands for in a dictionary.
    Decoded { dictionary: Seq<Row>, code: Box<Row> },
}

/// The place of a field in the value of a struct that is present.
pub open spec fn field_place(row: Row, name: Seq<char>) -> Option<nat> {
    match row {
        Row::Struct {
            dtype: SpecDType::Struct { names, .. },
            validity: None,
            fields,
        } => match position(
            names,
            name,
        ) {
            Some(i) => if i < fields.len() {
                Some(i)
            } else {
                None
            },
            None => None,
        },
        _ => None,
    }
}

/// A scalar function applied to values. A field of a struct that is put together from its fields and
/// cannot be null is that field, and a literal is its constant.
pub open spec fn call(function: SpecScalarFn, args: Seq<Row>) -> Row {
    match function {
        SpecScalarFn::Literal(scalar) => Row::Constant(scalar),
        SpecScalarFn::GetItem(name) => if args.len() == 1 && field_place(args[0], name) is Some {
            args[0]->fields[field_place(args[0], name)->0 as int]
        } else {
            Row::Call { function, args }
        },
        _ => Row::Call { function, args },
    }
}

/// An expression over the value at a row.
pub open spec fn evaluated(e: SpecExpression, row: Row) -> Row
    decreases e,
{
    if e.function is Root {
        row
    } else {
        call(e.function, all_evaluated(e.children, row))
    }
}

/// Expressions over the value at a row.
pub open spec fn all_evaluated(children: Seq<SpecExpression>, row: Row) -> Seq<Row>
    decreases children,
{
    Seq::new(
        children.len(),
        |i: int|
            if 0 <= i < children.len() {
                evaluated(children[i], row)
            } else {
                row
            },
    )
}

/// An expression over the value at a row, where there is one.
pub open spec fn finished(expression: Option<SpecExpression>, row: Row) -> Row {
    match expression {
        Some(e) => evaluated(e, row),
        None => row,
    }
}

/// An expression in place of the row of another is evaluated first.
pub proof fn law_substitution(e: SpecExpression, inner: SpecExpression, row: Row)
    ensures
        evaluated(substituted(e, inner), row) == evaluated(e, evaluated(inner, row)),
    decreases e,
{
    if !(e.function is Root) {
        let replaced = all_substituted(e.children, inner);
        let value = evaluated(inner, row);
        assert(all_evaluated(replaced, row) =~= all_evaluated(e.children, value)) by {
            assert forall|i: int| 0 <= i < e.children.len() implies all_evaluated(replaced, row)[i]
                == all_evaluated(e.children, value)[i] by {
                law_substitution(e.children[i], inner, row);
            }
        }
    }
}

/// The expression of the row itself gives the row, and a literal its constant. Any other function is
/// called with what its arguments give for the row, in their order.
pub proof fn law_evaluated(e: SpecExpression, row: Row)
    ensures
        e.function is Root ==> evaluated(e, row) == row,
        e.function matches SpecScalarFn::Literal(scalar) ==> evaluated(e, row) == Row::Constant(scalar),
        e.function is Bound ==> (evaluated(e, row) matches Row::Call { function, args } && {
            &&& function == e.function
            &&& args.len() == e.children.len()
            &&& forall|j: int|
                0 <= j < args.len() ==> #[trigger] args[j] == evaluated(e.children[j], row)
        }),
        finished(Some(e), row) == evaluated(e, row),
        finished(None, row) == row,
{
}

/// A field asked for by name of a struct that is put together from its fields, and is present where
/// it is, is the field at the first place of the name. Of any other value it is still to be taken.
pub proof fn law_field(
    name: Seq<char>,
    names: Seq<Seq<char>>,
    dtypes: Seq<SpecDType>,
    nullability: Nullability,
    fields: Seq<Row>,
    i: int,
)
    requires
        0 <= i < names.len(),
        i < fields.len(),
        names[i] == name,
        forall|j: int| 0 <= j < i ==> #[trigger] names[j] != name,
    ensures
        call(
            SpecScalarFn::GetItem(name),
            seq![
                Row::Struct {
                    dtype: SpecDType::Struct { names, dtypes, nullability },
                    validity: None,
                    fields,
                },
            ],
        ) == fields[i],
        forall|present: Box<Row>|
            #[trigger] call(
                SpecScalarFn::GetItem(name),
                seq![
                    Row::Struct {
                        dtype: SpecDType::Struct { names, dtypes, nullability },
                        validity: Some(present),
                        fields,
                    },
                ],
            ) is Call,
{
    lemma_position(names, name);
    let k = position(names, name)->0;
    if (k as int) < i {
        assert(names[k as int] == name);
    }
}

/// A function other than a literal or a field is called with the values as they stand.
pub proof fn law_call(function: SpecScalarFn, args: Seq<Row>)
    ensures
        function is Bound || function is Root ==> call(function, args) == (Row::Call {
            function,
            args,
        }),
        function matches SpecScalarFn::Literal(scalar) ==> call(function, args) == Row::Constant(scalar),
        function is GetItem && !(args.len() == 1 && args[0] is Struct) ==> call(function, args) == (
        Row::Call { function, args }),
{
}

/// The values of a struct's parts put together: the first part says whether the struct is present
/// where that is stored.
pub open spec fn struct_join(dtype: SpecDType, has_validity: bool) -> spec_fn(Seq<Row>) -> Row {
    |parts: Seq<Row>|
        if has_validity {
            Row::Struct {
                dtype,
                validity: Some(Box::new(parts.first())),
                fields: parts.drop_first(),
            }
        } else {
            Row::Struct { dtype, validity: None, fields: parts }
        }
}

/// The function of the values.
pub open spec fn call_join(function: SpecScalarFn) -> spec_fn(Seq<Row>) -> Row {
    |args: Seq<Row>| call(function, args)
}

/// The value that a code stands for, and the expression over it.
pub open spec fn decode(
    dictionary: Seq<Row>,
    expression: Option<SpecExpression>,
) -> spec_fn(Row) -> Row {
    |code: Row| finished(expression, Row::Decoded { dictionary, code: Box::new(code) })
}

/// The value of a segment is its name, how many elements it holds, and the value of their type.
pub proof fn law_segment_view(segment: Segment)
    ensures
        segment@.id == segment.id,
        segment@.len == segment.len,
        segment@.dtype == segment.dtype@,
{
}

} // verus!
