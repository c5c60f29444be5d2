//! Expressions pushed into layouts.
use vstd::prelude::*;
use crate::cells::clean;
use crate::chunks::{flat, lemma_mapped, mapped};
use crate::dtype::{lemma_position, nullable, position, Nullability, SpecDType};
use crate::error::SpecError;
use crate::expr::{
    argument_types, expression_type, field_expression, field_type, law_substitution_valid,
    root_expression, substituted, typing, valid_expression, SpecExpression, SpecScalarFn,
};
use crate::layout::{
    all_rows, at, dtype_of, law_range, law_row_count, lemma_counted, open_error, openable, pieces,
    row_count, rows, total_rows, uniform, well_formed, Layout,
};
use crate::row::{all_evaluated, call, evaluated, field_place, finished, law_substitution, Row};
use crate::scalar::Scalar;

verus! {

/// An expression over what another gives, where there is one.
pub open spec fn composed(existing: Option<SpecExpression>, e: SpecExpression) -> Option<
    SpecExpression,
> {
    match existing {
        Some(inner) => Some(substituted(e, inner)),
        None => Some(e),
    }
}

/// The types of the layouts' rows.
pub open spec fn dtypes_of(layouts: Seq<Layout>) -> Seq<SpecDType> {
    Seq::new(layouts.len(), |i: int| dtype_of(layouts[i]))
}

/// The layout of one value.
pub open spec fn literal_layout(scalar: Scalar, count: u64) -> Layout {
    Layout::Constant { scalar, dtype: scalar.dtype@, row_count: count, expression: None }
}

/// The layout of a function of other layouts' rows.
pub open spec fn called(function: SpecScalarFn, children: Seq<Layout>, count: u64) -> Result<
    Layout,
    SpecError,
> {
    match typing(function, dtypes_of(children)) {
        Ok(dtype) => Ok(Layout::ScalarFn { function, dtype, row_count: count, children }),
        Err(error) => Err(error),
    }
}

/// The type of an expression, or another where it has none.
pub open spec fn type_or(result: Result<SpecDType, SpecError>, other: SpecDType) -> SpecDType {
    match result {
        Ok(dtype) => dtype,
        Err(_) => other,
    }
}

/// The layout of an expression over a layout's rows, or the error of the first that cannot be.
///
/// Stored segments, constants and dictionaries keep the expression; a constant keeps its type where the
/// expression has none, and computing it fails then. Chunks are treated one by one.
/// Structs that cannot be null give up the fields that the expression asks for. Anything else is
/// computed from the rows.
pub open spec fn applied(l: Layout, e: SpecExpression) -> Result<Layout, SpecError>
    decreases l, 0nat,
{
    match l {
        Layout::Flat { dtype, segment, expression } => match expression_type(e, dtype) {
            Ok(dtype) => Ok(Layout::Flat { dtype, segment, expression: composed(expression, e) }),
            Err(error) => Err(error),
        },
        Layout::Constant { scalar, dtype, row_count, expression } => Ok(
            Layout::Constant {
                scalar,
                dtype: type_or(expression_type(e, dtype), dtype),
                row_count,
                expression: composed(expression, e),
            },
        ),
        Layout::Chunked { row_count, dtype, chunks } => match all_applied(chunks, e) {
            Ok(chunks) => match expression_type(e, dtype) {
                Ok(dtype) => Ok(Layout::Chunked { row_count, dtype, chunks }),
                Err(error) => Err(error),
            },
            Err(error) => Err(error),
        },
        Layout::Struct { .. } => resolved(l, e),
        Layout::ScalarFn { .. } => wrapped(l, e),
        Layout::Dict { dtype, values, codes, expression } => match expression_type(e, dtype) {
            Ok(dtype) => Ok(
                Layout::Dict { dtype, values, codes, expression: composed(expression, e) },
            ),
            Err(error) => Err(error),
        },
        Layout::Zoned { data, zone_map, zone_len, present_stats } => match applied(*data, e) {
            Ok(data) => Ok(
                Layout::Zoned { data: Box::new(data), zone_map, zone_len, present_stats },
            ),
            Err(error) => Err(error),
        },
    }
}

/// The layouts of an expression over the rows of each of the layouts.
pub open spec fn all_applied(layouts: Seq<Layout>, e: SpecExpression) -> Result<
    Seq<Layout>,
    SpecError,
>
    decreases layouts, 0nat,
{
    if layouts.len() == 0 {
        Ok(Seq::empty())
    } else {
        match all_applied(layouts.drop_last(), e) {
            Ok(front) => match applied(layouts.last(), e) {
                Ok(last) => Ok(front.push(last)),
                Err(error) => Err(error),
            },
            Err(error) => Err(error),
        }
    }
}

/// The layout of an expression computed from a layout's rows.
pub open spec fn wrapped(l: Layout, e: SpecExpression) -> Result<Layout, SpecError>
    decreases e,
{
    match e.function {
        SpecScalarFn::Root => Ok(l),
        SpecScalarFn::Literal(scalar) => Ok(literal_layout(scalar, row_count(l))),
        _ => match all_wrapped(l, e.children) {
            Ok(children) => called(e.function, children, row_count(l)),
            Err(error) => Err(error),
        },
    }
}

/// The layouts of expressions computed from a layout's rows.
pub open spec fn all_wrapped(l: Layout, children: Seq<SpecExpression>) -> Result<
    Seq<Layout>,
    SpecError,
>
    decreases children,
{
    if children.len() == 0 {
        Ok(Seq::empty())
    } else {
        match all_wrapped(l, children.drop_last()) {
            Ok(front) => match wrapped(l, children.last()) {
                Ok(last) => Ok(front.push(last)),
                Err(error) => Err(error),
            },
            Err(error) => Err(error),
        }
    }
}

/// The layout of an expression over a struct's rows: the fields that it asks for are taken out, and
/// the functions of them are computed.
pub open spec fn resolved(l: Layout, e: SpecExpression) -> Result<Layout, SpecError>
    decreases e,
{
    match e.function {
        SpecScalarFn::Root => Ok(l),
        SpecScalarFn::Literal(scalar) => Ok(literal_layout(scalar, row_count(l))),
        _ => match all_resolved(l, e.children) {
            Ok(children) => match e.function {
                SpecScalarFn::GetItem(name) => field_of(children[0], name),
                _ => called(e.function, children, row_count(l)),
            },
            Err(error) => Err(error),
        },
    }
}

/// The layouts of expressions over a struct's rows.
pub open spec fn all_resolved(l: Layout, children: Seq<SpecExpression>) -> Result<
    Seq<Layout>,
    SpecError,
>
    decreases children,
{
    if children.len() == 0 {
        Ok(Seq::empty())
    } else {
        match all_resolved(l, children.drop_last()) {
            Ok(front) => match resolved(l, children.last()) {
                Ok(last) => Ok(front.push(last)),
                Err(error) => Err(error),
            },
            Err(error) => Err(error),
        }
    }
}

/// The layout of a field of a layout's rows. A struct that can be null gives up none of its fields:
/// they are computed from it, null where it is.
pub open spec fn field_of(l: Layout, name: Seq<char>) -> Result<Layout, SpecError>
    decreases l, 0nat,
{
    match l {
        Layout::Flat { dtype, segment, expression } => match field_type(dtype, name) {
            Ok(dtype) => Ok(
                Layout::Flat {
                    dtype,
                    segment,
                    expression: composed(expression, field_expression(name)),
                },
            ),
            Err(error) => Err(error),
        },
        Layout::Constant { scalar, dtype, row_count, expression } => Ok(
            Layout::Constant {
                scalar,
                dtype: type_or(field_type(dtype, name), dtype),
                row_count,
                expression: composed(expression, field_expression(name)),
            },
        ),
        Layout::Chunked { row_count, dtype, chunks } => match all_fields_of(chunks, name) {
            Ok(chunks) => match field_type(dtype, name) {
                Ok(dtype) => Ok(Layout::Chunked { row_count, dtype, chunks }),
                Err(error) => Err(error),
            },
            Err(error) => Err(error),
        },
        Layout::Struct { dtype, validity, fields, .. } => match dtype {
            SpecDType::Struct { names, .. } => match position(names, name) {
                Some(i) => if validity is None && !nullable(dtype) {
                    Ok(fields[i as int])
                } else {
                    called(SpecScalarFn::GetItem(name), seq![l], row_count(l))
                },
                None => Err(SpecError::FieldNotFound(name)),
            },
            _ => Err(SpecError::ExpectedStruct),
        },
        Layout::ScalarFn { .. } => called(SpecScalarFn::GetItem(name), seq![l], row_count(l)),
        Layout::Dict { dtype, values, codes, expression } => match field_type(dtype, name) {
            Ok(dtype) => Ok(
                Layout::Dict {
                    dtype,
                    values,
                    codes,
                    expression: composed(expression, field_expression(name)),
                },
            ),
            Err(error) => Err(error),
        },
        Layout::Zoned { data, zone_map, zone_len, present_stats } => match field_of(*data, name) {
            Ok(data) => Ok(
                Layout::Zoned { data: Box::new(data), zone_map, zone_len, present_stats },
            ),
            Err(error) => Err(error),
        },
    }
}

/// The layouts of a field of the rows of each of the layouts.
pub open spec fn all_fields_of(layouts: Seq<Layout>, name: Seq<char>) -> Result<
    Seq<Layout>,
    SpecError,
>
    decreases layouts, 0nat,
{
    if layouts.len() == 0 {
        Ok(Seq::empty())
    } else {
        match all_fields_of(layouts.drop_last(), name) {
            Ok(front) => match field_of(layouts.last(), name) {
                Ok(last) => Ok(front.push(last)),
                Err(error) => Err(error),
            },
            Err(error) => Err(error),
        }
    }
}

/// The expression of a field, pushed into a layout, takes the field out.
pub proof fn lemma_field_of(l: Layout, name: Seq<char>)
    ensures
        applied(l, field_expression(name)) == field_of(l, name),
    decreases l, 0nat,
{
    let e = field_expression(name);
    assert(e.children.drop_last() =~= Seq::empty());
    assert(e.children.last() == root_expression());
    assert forall|dtype: SpecDType| #[trigger] expression_type(e, dtype) == field_type(
        dtype,
        name,
    ) by {
        reveal_with_fuel(expression_type, 3);
        reveal_with_fuel(argument_types, 3);
        assert(argument_types(e.children, dtype) == Ok::<Seq<SpecDType>, SpecError>(
            Seq::empty().push(dtype),
        ));
    }
    match l {
        Layout::Chunked { chunks, .. } => lemma_all_fields_of(chunks, name),
        Layout::Struct { .. } => {
            reveal_with_fuel(resolved, 3);
            reveal_with_fuel(all_resolved, 3);
            assert(all_resolved(l, e.children) == Ok::<Seq<Layout>, SpecError>(
                Seq::empty().push(l),
            ));
        },
        Layout::ScalarFn { .. } => {
            reveal_with_fuel(wrapped, 3);
            reveal_with_fuel(all_wrapped, 3);
            assert(all_wrapped(l, e.children) == Ok::<Seq<Layout>, SpecError>(
                Seq::empty().push(l),
            ));
            assert(Seq::empty().push(l) =~= seq![l]);
        },
        Layout::Zoned { data, .. } => lemma_field_of(*data, name),
        _ => {},
    }
}

proof fn lemma_all_fields_of(layouts: Seq<Layout>, name: Seq<char>)
    ensures
        all_applied(layouts, field_expression(name)) == all_fields_of(layouts, name),
    decreases layouts, 0nat,
{
    if layouts.len() > 0 {
        lemma_all_fields_of(layouts.drop_last(), name);
        lemma_field_of(layouts.last(), name);
    }
}

/// A bound on how often an expression is pushed further into a layout.
pub open spec fn rank(l: Layout) -> nat
    decreases l, 0nat,
{
    match l {
        Layout::Chunked { chunks, .. } => 1 + highest(chunks),
        Layout::Struct { fields, .. } => 1 + highest(fields),
        Layout::Zoned { data, .. } => 1 + rank(*data),
        _ => 0,
    }
}

/// The greatest rank among the layouts.
pub open spec fn highest(layouts: Seq<Layout>) -> nat
    decreases layouts, 0nat,
{
    if layouts.len() == 0 {
        0
    } else {
        let rest = highest(layouts.drop_last());
        let last = rank(layouts.last());
        if last > rest {
            last
        } else {
            rest
        }
    }
}

/// None of the layouts ranks above the highest.
pub proof fn lemma_highest(layouts: Seq<Layout>, i: int)
    requires
        0 <= i < layouts.len(),
    ensures
        rank(layouts[i]) <= highest(layouts),
    decreases layouts.len(),
{
    if i < layouts.len() - 1 {
        lemma_highest(layouts.drop_last(), i);
    }
}

/// An expression may be pushed into a layout: every struct has the fields that its type names.
pub open spec fn accepts_expression(l: Layout) -> bool
    decreases l,
{
    match l {
        Layout::Chunked { chunks, .. } => forall|i: int|
            0 <= i < chunks.len() ==> accepts_expression(#[trigger] chunks[i]),
        Layout::Struct { dtype, fields, .. } => {
            &&& dtype matches SpecDType::Struct { names, .. } ==> names.len() <= fields.len()
            &&& forall|i: int| 0 <= i < fields.len() ==> accepts_expression(#[trigger] fields[i])
        },
        Layout::Zoned { data, .. } => accepts_expression(*data),
        _ => true,
    }
}

/// A field ranks no higher than the rows it is taken from, and below a struct; expressions may be
/// pushed into it as into them.
pub proof fn lemma_field_rank(l: Layout, name: Seq<char>)
    requires
        accepts_expression(l),
    ensures
        field_of(l, name) matches Ok(field) ==> {
            &&& rank(field) <= rank(l)
            &&& l is Struct ==> rank(field) < rank(l)
            &&& accepts_expression(field)
        },
    decreases l, 0nat,
{
    match l {
        Layout::Chunked { chunks, .. } => lemma_fields_rank(chunks, name),
        Layout::Struct { dtype, fields, .. } => {
            if let SpecDType::Struct { names, .. } = dtype {
                lemma_position(names, name);
                match position(names, name) {
                    Some(i) => lemma_highest(fields, i as int),
                    None => {},
                }
            }
        },
        Layout::Zoned { data, .. } => lemma_field_rank(*data, name),
        _ => {},
    }
}

proof fn lemma_fields_rank(layouts: Seq<Layout>, name: Seq<char>)
    requires
        forall|i: int| 0 <= i < layouts.len() ==> accepts_expression(#[trigger] layouts[i]),
    ensures
        all_fields_of(layouts, name) matches Ok(fields) ==> {
            &&& highest(fields) <= highest(layouts)
            &&& forall|i: int| 0 <= i < fields.len() ==> accepts_expression(#[trigger] fields[i])
        },
    decreases layouts, 0nat,
{
    if layouts.len() > 0 {
        lemma_fields_rank(layouts.drop_last(), name);
        lemma_field_rank(layouts.last(), name);
        match (all_fields_of(layouts.drop_last(), name), field_of(layouts.last(), name)) {
            (Ok(front), Ok(last)) => {
                let fields = front.push(last);
                assert(fields.drop_last() =~= front);
                assert(fields.last() == last);
            },
            _ => {},
        }
    }
}

/// What an expression over a struct's rows comes to is the struct itself, or ranks below it;
/// expressions may be pushed into it.
pub proof fn lemma_resolved_rank(l: Layout, e: SpecExpression)
    requires
        l is Struct,
        accepts_expression(l),
        valid_expression(e),
    ensures
        resolved(l, e) matches Ok(result) ==> {
            &&& result == l || rank(result) < rank(l)
            &&& accepts_expression(result)
        },
    decreases e,
{
    if let SpecScalarFn::GetItem(name) = e.function {
        let child = e.children[0];
        assert(valid_expression(child));
        lemma_resolved_rank(l, child);
        reveal_with_fuel(all_resolved, 2);
        assert(e.children.drop_last() =~= Seq::empty());
        assert(e.children.last() == child);
        if let Ok(result) = resolved(l, child) {
            assert(all_resolved(l, e.children) == Ok::<Seq<Layout>, SpecError>(
                Seq::empty().push(result),
            ));
            lemma_field_rank(result, name);
        }
    }
}

/// Expressions may be pushed into a well-formed layout.
pub proof fn lemma_accepts_expression(l: Layout)
    requires
        well_formed(l),
    ensures
        accepts_expression(l),
    decreases l,
{
    match l {
        Layout::Chunked { chunks, .. } => {
            assert forall|i: int| 0 <= i < chunks.len() implies accepts_expression(
                #[trigger] chunks[i],
            ) by {
                lemma_accepts_expression(chunks[i]);
            }
        },
        Layout::Struct { fields, .. } => {
            assert forall|i: int| 0 <= i < fields.len() implies accepts_expression(
                #[trigger] fields[i],
            ) by {
                lemma_accepts_expression(fields[i]);
            }
        },
        Layout::Zoned { data, .. } => lemma_accepts_expression(*data),
        _ => {},
    }
}

/// A layout's rows are as many as it says, and so are those of its parts; layouts side by side may be
/// none.
pub open spec fn regular(l: Layout) -> bool
    decreases l,
{
    match l {
        Layout::Flat { .. } => true,
        Layout::Constant { .. } => true,
        Layout::Chunked { row_count: count, chunks, .. } => {
            &&& total_rows(chunks) == count
            &&& forall|i: int| 0 <= i < chunks.len() ==> regular(#[trigger] chunks[i])
        },
        Layout::Struct { row_count: count, fields, .. } => forall|i: int|
            0 <= i < fields.len() ==> {
                &&& regular(#[trigger] fields[i])
                &&& row_count(fields[i]) == count
            },
        Layout::ScalarFn { .. } => true,
        Layout::Dict { codes, .. } => regular(*codes),
        Layout::Zoned { data, .. } => regular(*data),
    }
}

/// Every well-formed layout is regular.
pub proof fn lemma_regular(l: Layout)
    requires
        well_formed(l),
    ensures
        regular(l),
    decreases l,
{
    match l {
        Layout::Chunked { chunks, .. } => {
            assert forall|i: int| 0 <= i < chunks.len() implies regular(#[trigger] chunks[i]) by {
                lemma_regular(chunks[i]);
            }
        },
        Layout::Struct { fields, .. } => {
            assert forall|i: int| 0 <= i < fields.len() implies {
                &&& regular(#[trigger] fields[i])
                &&& row_count(fields[i]) == row_count(l)
            } by {
                lemma_regular(fields[i]);
            }
        },
        Layout::Dict { codes, .. } => lemma_regular(*codes),
        Layout::Zoned { data, .. } => lemma_regular(*data),
        _ => {},
    }
}

/// A regular layout has as many rows as it says.
proof fn lemma_regular_rows(l: Layout)
    requires
        regular(l),
    ensures
        rows(l).len() == row_count(l),
    decreases l, 0nat,
{
    match l {
        Layout::Chunked { chunks, .. } => lemma_regular_total(chunks),
        Layout::Dict { codes, .. } => lemma_regular_rows(*codes),
        Layout::Zoned { data, .. } => lemma_regular_rows(*data),
        _ => {},
    }
}

proof fn lemma_regular_total(chunks: Seq<Layout>)
    requires
        forall|i: int| 0 <= i < chunks.len() ==> regular(#[trigger] chunks[i]),
    ensures
        flat(all_rows(chunks)).len() == total_rows(chunks),
    decreases chunks, 0nat,
{
    if chunks.len() > 0 {
        let rest = chunks.subrange(1, chunks.len() as int);
        lemma_regular_rows(chunks[0]);
        lemma_regular_total(rest);
        assert(all_rows(chunks).drop_first() =~= all_rows(rest));
    }
}

/// Lists of layouts with as many rows each have as many together.
proof fn lemma_equal_totals(a: Seq<Layout>, b: Seq<Layout>)
    requires
        a.len() == b.len(),
        forall|i: int| 0 <= i < a.len() ==> row_count(#[trigger] a[i]) == row_count(b[i]),
    ensures
        total_rows(a) == total_rows(b),
    decreases a.len(),
{
    if a.len() > 0 {
        lemma_equal_totals(a.subrange(1, a.len() as int), b.subrange(1, b.len() as int));
        assert(row_count(a[0]) == row_count(b[0]));
    }
}

/// The field of a value.
pub open spec fn taken(name: Seq<char>) -> spec_fn(Row) -> Row {
    |row: Row| call(SpecScalarFn::GetItem(name), seq![row])
}

/// An expression over a value.
pub open spec fn evaluation(e: SpecExpression) -> spec_fn(Row) -> Row {
    |row: Row| evaluated(e, row)
}

/// An expression over what another gives is evaluated after it.
proof fn lemma_composed(existing: Option<SpecExpression>, e: SpecExpression, row: Row)
    ensures
        finished(composed(existing, e), row) == evaluated(e, finished(existing, row)),
{
    match existing {
        Some(inner) => law_substitution(e, inner, row),
        None => {},
    }
}

/// The expression of a field gives the field.
proof fn lemma_field_evaluated(name: Seq<char>, row: Row)
    ensures
        evaluated(field_expression(name), row) == taken(name)(row),
{
    let e = field_expression(name);
    reveal_with_fuel(evaluated, 2);
    assert(all_evaluated(e.children, row) =~= seq![row]);
}

/// The layouts of a field are those of each of the layouts.
proof fn lemma_fields_pointwise(layouts: Seq<Layout>, name: Seq<char>)
    ensures
        all_fields_of(layouts, name) matches Ok(fields) ==> {
            &&& fields.len() == layouts.len()
            &&& forall|i: int|
                0 <= i < layouts.len() ==> field_of(#[trigger] layouts[i], name) == Ok::<
                    Layout,
                    SpecError,
                >(fields[i])
        },
    decreases layouts.len(),
{
    if layouts.len() > 0 {
        let front = layouts.drop_last();
        lemma_fields_pointwise(front, name);
        if let Ok(fields) = all_fields_of(layouts, name) {
            assert forall|i: int| 0 <= i < layouts.len() implies field_of(
                #[trigger] layouts[i],
                name,
            ) == Ok::<Layout, SpecError>(fields[i]) by {
                if i < front.len() {
                    assert(front[i] == layouts[i]);
                }
            }
        }
    }
}

/// The layouts of an expression are those of each of the layouts.
pub proof fn lemma_applied_pointwise(layouts: Seq<Layout>, e: SpecExpression)
    ensures
        all_applied(layouts, e) matches Ok(results) ==> {
            &&& results.len() == layouts.len()
            &&& forall|i: int|
                0 <= i < layouts.len() ==> applied(#[trigger] layouts[i], e) == Ok::<
                    Layout,
                    SpecError,
                >(results[i])
        },
    decreases layouts.len(),
{
    if layouts.len() > 0 {
        let front = layouts.drop_last();
        lemma_applied_pointwise(front, e);
        if let Ok(results) = all_applied(layouts, e) {
            assert forall|i: int| 0 <= i < layouts.len() implies applied(#[trigger] layouts[i], e)
                == Ok::<Layout, SpecError>(results[i]) by {
                if i < front.len() {
                    assert(front[i] == layouts[i]);
                }
            }
        }
    }
}

/// The layouts of expressions computed from a layout's rows are those of each of them.
proof fn lemma_wrapped_pointwise(l: Layout, children: Seq<SpecExpression>)
    ensures
        all_wrapped(l, children) matches Ok(results) ==> {
            &&& results.len() == children.len()
            &&& forall|i: int|
                0 <= i < children.len() ==> wrapped(l, #[trigger] children[i]) == Ok::<
                    Layout,
                    SpecError,
                >(results[i])
        },
    decreases children.len(),
{
    if children.len() > 0 {
        let front = children.drop_last();
        lemma_wrapped_pointwise(l, front);
        if let Ok(results) = all_wrapped(l, children) {
            assert forall|i: int| 0 <= i < children.len() implies wrapped(l, #[trigger] children[i])
                == Ok::<Layout, SpecError>(results[i]) by {
                if i < front.len() {
                    assert(front[i] == children[i]);
                }
            }
        }
    }
}

/// The layouts of expressions over a struct's rows are those of each of them.
proof fn lemma_resolved_pointwise(l: Layout, children: Seq<SpecExpression>)
    ensures
        all_resolved(l, children) matches Ok(results) ==> {
            &&& results.len() == children.len()
            &&& forall|i: int|
                0 <= i < children.len() ==> resolved(l, #[trigger] children[i]) == Ok::<
                    Layout,
                    SpecError,
                >(results[i])
        },
    decreases children.len(),
{
    if children.len() > 0 {
        let front = children.drop_last();
        lemma_resolved_pointwise(l, front);
        if let Ok(results) = all_resolved(l, children) {
            assert forall|i: int| 0 <= i < children.len() implies resolved(
                l,
                #[trigger] children[i],
            ) == Ok::<Layout, SpecError>(results[i]) by {
                if i < front.len() {
                    assert(front[i] == children[i]);
                }
            }
        }
    }
}

/// The layout of a field has the field of every row.
proof fn lemma_field_rows(l: Layout, name: Seq<char>)
    requires
        regular(l),
        accepts_expression(l),
    ensures
        field_of(l, name) matches Ok(field) ==> {
            &&& regular(field)
            &&& row_count(field) == row_count(l)
            &&& rows(field) == rows(l).map_values(taken(name))
        },
    decreases l,
{
    let e = field_expression(name);
    if let Ok(field) = field_of(l, name) {
        let goal = rows(l).map_values(taken(name));
        lemma_regular_rows(l);
        match l {
            Layout::Flat { segment, expression, .. } => {
                assert forall|i: int| 0 <= i < goal.len() implies rows(field)[i] == goal[i] by {
                    let row = Row::Stored { segment, index: i as nat };
                    lemma_composed(expression, e, row);
                    lemma_field_evaluated(name, finished(expression, row));
                }
                assert(rows(field) =~= goal);
            },
            Layout::Constant { scalar, expression, .. } => {
                lemma_composed(expression, e, Row::Constant(scalar));
                lemma_field_evaluated(name, finished(expression, Row::Constant(scalar)));
                assert(rows(field) =~= goal);
            },
            Layout::Chunked { chunks, .. } => {
                lemma_fields_pointwise(chunks, name);
                let fields = all_fields_of(chunks, name)->Ok_0;
                assert forall|i: int| 0 <= i < fields.len() implies {
                    &&& regular(#[trigger] fields[i])
                    &&& row_count(fields[i]) == row_count(chunks[i])
                    &&& rows(fields[i]) == rows(chunks[i]).map_values(taken(name))
                } by {
                    assert(regular(chunks[i]));
                    lemma_field_rows(chunks[i], name);
                }
                lemma_equal_totals(fields, chunks);
                assert(all_rows(fields) =~= mapped(all_rows(chunks), taken(name)));
                lemma_mapped(all_rows(chunks), taken(name), 0);
            },
            Layout::Struct { row_count: count, dtype, validity, fields } => {
                let names = dtype->Struct_names;
                lemma_position(names, name);
                let k = position(names, name)->0 as int;
                assert forall|i: int| 0 <= i < count implies rows(field)[i] == goal[i] by {
                    if validity is None && !nullable(dtype) {
                        assert(regular(fields[k]));
                        lemma_regular_rows(fields[k]);
                        let own = at(all_rows(fields), i);
                        let row = rows(l)[i];
                        assert(row matches Row::Struct { fields: values, dtype: own_dtype, .. }
                            && values == own && own_dtype == dtype);
                        assert(field_place(row, name) == Some(k as nat));
                    } else {
                        assert(at(all_rows(seq![l]), i) =~= seq![rows(l)[i]]);
                    }
                }
                if validity is None && !nullable(dtype) {
                    assert(regular(fields[k]));
                    lemma_regular_rows(fields[k]);
                }
                assert(rows(field) =~= goal);
            },
            Layout::ScalarFn { .. } => {
                assert forall|i: int| 0 <= i < row_count(l) implies rows(field)[i] == goal[i] by {
                    assert(at(all_rows(seq![l]), i) =~= seq![rows(l)[i]]);
                }
                assert(rows(field) =~= goal);
            },
            Layout::Dict { values, codes, expression, .. } => {
                lemma_regular_rows(*codes);
                assert forall|i: int| 0 <= i < row_count(l) implies rows(field)[i] == goal[i] by {
                    let row = Row::Decoded {
                        dictionary: rows(*values),
                        code: Box::new(rows(*codes)[i]),
                    };
                    lemma_composed(expression, e, row);
                    lemma_field_evaluated(name, finished(expression, row));
                }
                assert(rows(field) =~= goal);
            },
            Layout::Zoned { data, .. } => lemma_field_rows(*data, name),
        }
    }
}

/// The layout of an expression computed from a layout's rows has the expression over every row.
proof fn lemma_wrapped_rows(l: Layout, e: SpecExpression)
    requires
        l is ScalarFn,
    ensures
        wrapped(l, e) matches Ok(result) ==> {
            &&& regular(result)
            &&& row_count(result) == row_count(l)
            &&& rows(result) == rows(l).map_values(evaluation(e))
        },
    decreases e,
{
    if let Ok(result) = wrapped(l, e) {
        let goal = rows(l).map_values(evaluation(e));
        match e.function {
            SpecScalarFn::Root => {},
            SpecScalarFn::Literal(_) => {},
            _ => {
                lemma_wrapped_pointwise(l, e.children);
                let children = all_wrapped(l, e.children)->Ok_0;
                assert forall|i: int| 0 <= i < row_count(l) implies rows(result)[i] == goal[i] by {
                    assert(at(all_rows(children), i) =~= all_evaluated(
                        e.children,
                        rows(l)[i],
                    )) by {
                        assert forall|j: int| 0 <= j < e.children.len() implies at(
                            all_rows(children),
                            i,
                        )[j] == all_evaluated(e.children, rows(l)[i])[j] by {
                            assert(wrapped(l, e.children[j]) == Ok::<Layout, SpecError>(
                                children[j],
                            ));
                            lemma_wrapped_rows(l, e.children[j]);
                        }
                    }
                }
            },
        }
        assert(rows(result) =~= goal);
    }
}

/// The layout of an expression over a struct's rows has the expression over every row.
proof fn lemma_resolved_rows(l: Layout, e: SpecExpression)
    requires
        l is Struct,
        regular(l),
        accepts_expression(l),
        valid_expression(e),
    ensures
        resolved(l, e) matches Ok(result) ==> {
            &&& regular(result)
            &&& row_count(result) == row_count(l)
            &&& rows(result) == rows(l).map_values(evaluation(e))
        },
    decreases e,
{
    if let Ok(result) = resolved(l, e) {
        let goal = rows(l).map_values(evaluation(e));
        match e.function {
            SpecScalarFn::Root => {},
            SpecScalarFn::Literal(_) => {},
            _ => {
                lemma_resolved_pointwise(l, e.children);
                let children = all_resolved(l, e.children)->Ok_0;
                assert forall|j: int| 0 <= j < e.children.len() implies {
                    &&& regular(#[trigger] children[j])
                    &&& accepts_expression(children[j])
                    &&& row_count(children[j]) == row_count(l)
                    &&& rows(children[j]) == rows(l).map_values(evaluation(e.children[j]))
                } by {
                    assert(resolved(l, e.children[j]) == Ok::<Layout, SpecError>(children[j]));
                    assert(valid_expression(e.children[j]));
                    lemma_resolved_rows(l, e.children[j]);
                    lemma_resolved_rank(l, e.children[j]);
                }
                match e.function {
                    SpecScalarFn::GetItem(name) => {
                        assert(regular(children[0]));
                        lemma_field_rows(children[0], name);
                        lemma_regular_rows(l);
                        assert forall|i: int| 0 <= i < rows(l).len() implies rows(result)[i]
                            == goal[i] by {
                            assert(all_evaluated(e.children, rows(l)[i]) =~= seq![
                                rows(children[0])[i],
                            ]);
                        }
                    },
                    _ => {
                        assert forall|i: int| 0 <= i < row_count(l) implies rows(result)[i]
                            == goal[i] by {
                            assert(at(all_rows(children), i) =~= all_evaluated(
                                e.children,
                                rows(l)[i],
                            )) by {
                                assert forall|j: int| 0 <= j < e.children.len() implies at(
                                    all_rows(children),
                                    i,
                                )[j] == all_evaluated(e.children, rows(l)[i])[j] by {
                                    assert(regular(children[j]));
                                }
                            }
                        }
                    },
                }
            },
        }
        assert(rows(result) =~= goal);
    }
}

/// The layout of an expression has as many rows, each the expression over the row in its place.
pub proof fn law_applied_rows(l: Layout, e: SpecExpression)
    requires
        regular(l),
        accepts_expression(l),
        valid_expression(e),
    ensures
        applied(l, e) matches Ok(result) ==> {
            &&& regular(result)
            &&& row_count(result) == row_count(l)
            &&& rows(result) == rows(l).map_values(evaluation(e))
        },
    decreases l,
{
    if let Ok(result) = applied(l, e) {
        let goal = rows(l).map_values(evaluation(e));
        lemma_regular_rows(l);
        match l {
            Layout::Flat { segment, expression, .. } => {
                assert forall|i: int| 0 <= i < goal.len() implies rows(result)[i] == goal[i] by {
                    lemma_composed(expression, e, Row::Stored { segment, index: i as nat });
                }
                assert(rows(result) =~= goal);
            },
            Layout::Constant { scalar, expression, .. } => {
                lemma_composed(expression, e, Row::Constant(scalar));
                assert(rows(result) =~= goal);
            },
            Layout::Chunked { chunks, .. } => {
                lemma_applied_pointwise(chunks, e);
                let results = all_applied(chunks, e)->Ok_0;
                assert forall|i: int| 0 <= i < results.len() implies {
                    &&& regular(#[trigger] results[i])
                    &&& row_count(results[i]) == row_count(chunks[i])
                    &&& rows(results[i]) == rows(chunks[i]).map_values(evaluation(e))
                } by {
                    assert(regular(chunks[i]));
                    law_applied_rows(chunks[i], e);
                }
                lemma_equal_totals(results, chunks);
                assert(all_rows(results) =~= mapped(all_rows(chunks), evaluation(e)));
                lemma_mapped(all_rows(chunks), evaluation(e), 0);
            },
            Layout::Struct { .. } => lemma_resolved_rows(l, e),
            Layout::ScalarFn { .. } => lemma_wrapped_rows(l, e),
            Layout::Dict { values, codes, expression, .. } => {
                lemma_regular_rows(*codes);
                assert forall|i: int| 0 <= i < row_count(l) implies rows(result)[i] == goal[i] by {
                    let row = Row::Decoded {
                        dictionary: rows(*values),
                        code: Box::new(rows(*codes)[i]),
                    };
                    lemma_composed(expression, e, row);
                }
                assert(rows(result) =~= goal);
            },
            Layout::Zoned { data, .. } => law_applied_rows(*data, e),
        }
    }
}

/// Expressions may be pushed into the layout of an expression as into the layout itself.
pub proof fn lemma_applied_accepts(l: Layout, e: SpecExpression)
    requires
        accepts_expression(l),
        valid_expression(e),
    ensures
        applied(l, e) matches Ok(result) ==> accepts_expression(result),
    decreases l,
{
    match l {
        Layout::Chunked { chunks, .. } => {
            lemma_applied_pointwise(chunks, e);
            if let Ok(results) = all_applied(chunks, e) {
                assert forall|i: int| 0 <= i < results.len() implies accepts_expression(
                    #[trigger] results[i],
                ) by {
                    assert(accepts_expression(chunks[i]));
                    lemma_applied_accepts(chunks[i], e);
                }
            }
        },
        Layout::Struct { .. } => lemma_resolved_rank(l, e),
        Layout::Zoned { data, .. } => lemma_applied_accepts(*data, e),
        _ => {},
    }
}

/// Pushing one expression into a layout after another gives the rows that pushing both at once
/// gives.
pub proof fn law_applied_twice(l: Layout, first: SpecExpression, second: SpecExpression)
    requires
        regular(l),
        accepts_expression(l),
        valid_expression(first),
        valid_expression(second),
    ensures
        match (applied(l, first), applied(l, substituted(second, first))) {
            (Ok(middle), Ok(at_once)) => applied(middle, second) matches Ok(result) ==> rows(result)
                == rows(at_once),
            _ => true,
        },
{
    if let (Ok(middle), Ok(at_once)) = (applied(l, first), applied(l, substituted(second, first))) {
        law_applied_rows(l, first);
        lemma_applied_accepts(l, first);
        law_applied_rows(middle, second);
        law_substitution_valid(second, first);
        law_applied_rows(l, substituted(second, first));
        if let Ok(result) = applied(middle, second) {
            assert forall|i: int| 0 <= i < rows(l).len() implies rows(result)[i] == rows(
                at_once,
            )[i] by {
                law_substitution(second, first, rows(l)[i]);
            }
            assert(rows(result) =~= rows(at_once));
        }
    }
}

/// Every function of the expression that computes from rows has an argument.
pub open spec fn has_arguments(e: SpecExpression) -> bool
    decreases e,
{
    &&& e.function is Root || e.function is Literal || e.children.len() > 0
    &&& forall|i: int| 0 <= i < e.children.len() ==> has_arguments(#[trigger] e.children[i])
}

/// The layout of a field of a well-formed layout is well-formed.
proof fn lemma_field_well_formed(l: Layout, name: Seq<char>)
    requires
        well_formed(l),
    ensures
        field_of(l, name) matches Ok(field) ==> {
            &&& well_formed(field)
            &&& row_count(field) == row_count(l)
            &&& openable(l) ==> openable(field)
        },
    decreases l,
{
    lemma_regular(l);
    lemma_accepts_expression(l);
    lemma_field_rows(l, name);
    if let Ok(field) = field_of(l, name) {
        match l {
            Layout::Chunked { chunks, .. } => {
                lemma_fields_pointwise(chunks, name);
                let fields = all_fields_of(chunks, name)->Ok_0;
                assert forall|i: int| 0 <= i < fields.len() implies {
                    &&& well_formed(#[trigger] fields[i])
                    &&& row_count(fields[i]) > 0 ==> openable(fields[i])
                } by {
                    assert(well_formed(chunks[i]));
                    lemma_field_well_formed(chunks[i], name);
                }
            },
            Layout::Struct { dtype, validity, fields, .. } => {
                let names = dtype->Struct_names;
                lemma_position(names, name);
                if validity is None && !nullable(dtype) {
                    assert(well_formed(fields[position(names, name)->0 as int]));
                } else {
                    assert(field->ScalarFn_children =~= seq![l]);
                }
            },
            Layout::ScalarFn { .. } => {
                assert(field->ScalarFn_children =~= seq![l]);
            },
            Layout::Zoned { data, .. } => lemma_field_well_formed(*data, name),
            _ => {},
        }
    }
}

/// The layout of an expression computed from a well-formed layout is well-formed.
proof fn lemma_wrapped_well_formed(l: Layout, e: SpecExpression)
    requires
        l is ScalarFn,
        well_formed(l),
        has_arguments(e),
    ensures
        wrapped(l, e) matches Ok(result) ==> {
            &&& well_formed(result)
            &&& row_count(result) == row_count(l)
            &&& openable(l) ==> openable(result)
        },
    decreases e,
{
    if let Ok(result) = wrapped(l, e) {
        lemma_wrapped_pointwise(l, e.children);
        match e.function {
            SpecScalarFn::Root => {},
            SpecScalarFn::Literal(_) => {},
            _ => {
                let children = all_wrapped(l, e.children)->Ok_0;
                assert forall|i: int| 0 <= i < children.len() implies {
                    &&& well_formed(#[trigger] children[i])
                    &&& row_count(children[i]) == row_count(l)
                    &&& openable(l) ==> openable(children[i])
                } by {
                    assert(has_arguments(e.children[i]));
                    lemma_wrapped_well_formed(l, e.children[i]);
                }
            },
        }
    }
}

/// The layout of an expression over the rows of a well-formed struct is well-formed.
proof fn lemma_resolved_well_formed(l: Layout, e: SpecExpression)
    requires
        l is Struct,
        well_formed(l),
        valid_expression(e),
        has_arguments(e),
    ensures
        resolved(l, e) matches Ok(result) ==> {
            &&& well_formed(result)
            &&& row_count(result) == row_count(l)
            &&& openable(l) ==> openable(result)
        },
    decreases e,
{
    if let Ok(result) = resolved(l, e) {
        lemma_resolved_pointwise(l, e.children);
        match e.function {
            SpecScalarFn::Root => {},
            SpecScalarFn::Literal(_) => {},
            _ => {
                let children = all_resolved(l, e.children)->Ok_0;
                assert forall|i: int| 0 <= i < children.len() implies {
                    &&& well_formed(#[trigger] children[i])
                    &&& row_count(children[i]) == row_count(l)
                    &&& openable(l) ==> openable(children[i])
                } by {
                    assert(has_arguments(e.children[i]));
                    assert(valid_expression(e.children[i]));
                    lemma_resolved_well_formed(l, e.children[i]);
                }
                if let SpecScalarFn::GetItem(name) = e.function {
                    assert(well_formed(children[0]));
                    lemma_field_well_formed(children[0], name);
                }
            },
        }
    }
}

/// The layout of an expression over a well-formed layout is well-formed, and can be opened where the
/// layout can, if every function that computes from rows has an argument.
pub proof fn law_applied_well_formed(l: Layout, e: SpecExpression)
    requires
        well_formed(l),
        valid_expression(e),
        has_arguments(e),
    ensures
        applied(l, e) matches Ok(result) ==> {
            &&& well_formed(result)
            &&& row_count(result) == row_count(l)
            &&& openable(l) ==> openable(result)
        },
    decreases l,
{
    lemma_regular(l);
    lemma_accepts_expression(l);
    law_applied_rows(l, e);
    if let Ok(result) = applied(l, e) {
        match l {
            Layout::Chunked { chunks, .. } => {
                lemma_applied_pointwise(chunks, e);
                let results = all_applied(chunks, e)->Ok_0;
                assert forall|i: int| 0 <= i < results.len() implies {
                    &&& well_formed(#[trigger] results[i])
                    &&& row_count(results[i]) > 0 ==> openable(results[i])
                } by {
                    assert(well_formed(chunks[i]));
                    law_applied_well_formed(chunks[i], e);
                }
            },
            Layout::Struct { .. } => lemma_resolved_well_formed(l, e),
            Layout::ScalarFn { .. } => lemma_wrapped_well_formed(l, e),
            Layout::Zoned { data, .. } => law_applied_well_formed(*data, e),
            _ => {},
        }
    }
}

/// Reading a range of the layout of an expression gives the expression over the rows of the range.
pub proof fn law_applied_range(l: Layout, e: SpecExpression, start: u64, end: u64)
    requires
        well_formed(l),
        valid_expression(e),
        has_arguments(e),
        start <= end <= row_count(l),
    ensures
        applied(l, e) matches Ok(result) ==> open_error(result, start, end) is None ==> flat(
            pieces(result, start as nat, end as nat),
        ) == clean(rows(l).subrange(start as int, end as int).map_values(evaluation(e))),
{
    lemma_regular(l);
    lemma_accepts_expression(l);
    law_applied_rows(l, e);
    law_applied_well_formed(l, e);
    if let Ok(result) = applied(l, e) {
        if open_error(result, start, end) is None {
            lemma_counted(l);
            law_row_count(l);
            law_range(result, start, end);
            assert(rows(result).subrange(start as int, end as int) =~= rows(l).subrange(
                start as int,
                end as int,
            ).map_values(evaluation(e)));
        }
    }
}

/// The first error among the layouts is the error of them all.
pub(crate) proof fn lemma_applied_error(layouts: Seq<Layout>, e: SpecExpression, i: int)
    requires
        0 <= i < layouts.len(),
        all_applied(layouts.take(i), e) is Ok,
        applied(layouts[i], e) is Err,
    ensures
        all_applied(layouts, e) == Err::<Seq<Layout>, SpecError>(
            applied(layouts[i], e)->Err_0,
        ),
    decreases layouts.len(),
{
    let front = layouts.drop_last();
    if i == layouts.len() - 1 {
        assert(front =~= layouts.take(i));
    } else {
        assert(front.take(i) =~= layouts.take(i));
        lemma_applied_error(front, e, i);
    }
}

/// The first error among the expressions is the error of them all.
pub(crate) proof fn lemma_wrapped_error(l: Layout, children: Seq<SpecExpression>, i: int)
    requires
        0 <= i < children.len(),
        all_wrapped(l, children.take(i)) is Ok,
        wrapped(l, children[i]) is Err,
    ensures
        all_wrapped(l, children) == Err::<Seq<Layout>, SpecError>(
            wrapped(l, children[i])->Err_0,
        ),
    decreases children.len(),
{
    let front = children.drop_last();
    if i == children.len() - 1 {
        assert(front =~= children.take(i));
    } else {
        assert(front.take(i) =~= children.take(i));
        lemma_wrapped_error(l, front, i);
    }
}

/// The first error among the expressions is the error of them all.
pub(crate) proof fn lemma_resolved_error(l: Layout, children: Seq<SpecExpression>, i: int)
    requires
        0 <= i < children.len(),
        all_resolved(l, children.take(i)) is Ok,
        resolved(l, children[i]) is Err,
    ensures
        all_resolved(l, children) == Err::<Seq<Layout>, SpecError>(
            resolved(l, children[i])->Err_0,
        ),
    decreases children.len(),
{
    let front = children.drop_last();
    if i == children.len() - 1 {
        assert(front =~= children.take(i));
    } else {
        assert(front.take(i) =~= children.take(i));
        lemma_resolved_error(l, front, i);
    }
}

/// The types of a layout's parts fit its own: chunks are of its type, and a struct has the fields
/// that its type names, of their types.
pub open spec fn typed(l: Layout) -> bool
    decreases l,
{
    match l {
        Layout::Chunked { dtype, chunks, .. } => forall|i: int|
            0 <= i < chunks.len() ==> typed(#[trigger] chunks[i]) && dtype_of(chunks[i]) == dtype,
        Layout::Struct { dtype, fields, .. } => {
            &&& dtype matches SpecDType::Struct { names, dtypes, .. } && {
                &&& names.len() == fields.len()
                &&& dtypes.len() == fields.len()
                &&& forall|i: int|
                    0 <= i < fields.len() ==> typed(#[trigger] fields[i]) && dtype_of(fields[i])
                        == dtypes[i]
            }
        },
        Layout::Zoned { data, .. } => typed(*data),
        _ => true,
    }
}

/// Where the types of the parts fit, those of layouts one after the other do.
pub proof fn lemma_typed_uniform(l: Layout)
    requires
        typed(l),
    ensures
        uniform(l),
    decreases l,
{
    match l {
        Layout::Chunked { chunks, .. } => {
            assert forall|i: int| 0 <= i < chunks.len() implies uniform(#[trigger] chunks[i]) by {
                lemma_typed_uniform(chunks[i]);
            }
        },
        Layout::Zoned { data, .. } => lemma_typed_uniform(*data),
        _ => {},
    }
}

/// Where there is a type, there is a layout, and it is of that type.
pub open spec fn has_type(
    result: Result<Layout, SpecError>,
    dtype: Result<SpecDType, SpecError>,
) -> bool {
    dtype matches Ok(own) ==> (result matches Ok(l) && dtype_of(l) == own)
}

/// The type of a layout, or the error in its place.
pub open spec fn type_result(result: Result<Layout, SpecError>) -> Result<SpecDType, SpecError> {
    match result {
        Ok(l) => Ok(dtype_of(l)),
        Err(error) => Err(error),
    }
}

/// No constant keeps an expression that has no type: there is none but among chunks, whose type is
/// looked for too.
pub open spec fn exacting(l: Layout) -> bool
    decreases l,
{
    match l {
        Layout::Constant { .. } => false,
        Layout::Chunked { chunks, .. } => forall|i: int|
            0 <= i < chunks.len() ==> (#[trigger] chunks[i]) is Constant || exacting(chunks[i]),
        Layout::Struct { fields, .. } => forall|i: int|
            0 <= i < fields.len() ==> exacting(#[trigger] fields[i]),
        Layout::Zoned { data, .. } => exacting(*data),
        _ => true,
    }
}

/// No field of a literal is asked for.
pub open spec fn plain(e: SpecExpression) -> bool
    decreases e,
{
    &&& e.function is GetItem ==> forall|i: int|
        0 <= i < e.children.len() ==> !((#[trigger] e.children[i]).function is Literal)
    &&& forall|i: int| 0 <= i < e.children.len() ==> plain(#[trigger] e.children[i])
}

/// A field is of the type that it has in the type of the rows it is taken from.
proof fn lemma_field_typed(l: Layout, name: Seq<char>)
    requires
        typed(l),
    ensures
        has_type(field_of(l, name), field_type(dtype_of(l), name)),
        field_of(l, name) matches Ok(field) ==> typed(field),
        exacting(l) ==> {
            &&& type_result(field_of(l, name)) == field_type(dtype_of(l), name)
            &&& field_of(l, name) matches Ok(field) ==> exacting(field)
        },
        l is Constant ==> (field_of(l, name) matches Ok(field) && field is Constant),
    decreases l, 0nat,
{
    match l {
        Layout::Chunked { dtype, chunks, .. } => {
            lemma_fields_typed(chunks, dtype, name);
            lemma_fields_pointwise(chunks, name);
        },
        Layout::Struct { dtype, fields, .. } => {
            let names = dtype->Struct_names;
            lemma_position(names, name);
            assert(dtypes_of(seq![l])[0] == dtype_of(l));
            if let Some(i) = position(names, name) {
                assert(typed(fields[i as int]));
            }
        },
        Layout::ScalarFn { .. } => {
            assert(dtypes_of(seq![l])[0] == dtype_of(l));
        },
        Layout::Zoned { data, .. } => lemma_field_typed(*data, name),
        _ => {},
    }
}

proof fn lemma_fields_typed(layouts: Seq<Layout>, dtype: SpecDType, name: Seq<char>)
    requires
        forall|i: int|
            0 <= i < layouts.len() ==> typed(#[trigger] layouts[i]) && dtype_of(layouts[i]) == dtype,
    ensures
        match all_fields_of(layouts, name) {
            Ok(fields) => forall|i: int|
                0 <= i < fields.len() ==> typed(#[trigger] fields[i]) && has_type(
                    Ok(fields[i]),
                    field_type(dtype, name),
                ),
            Err(_) => field_type(dtype, name) is Err,
        },
        (forall|i: int|
            0 <= i < layouts.len() ==> (#[trigger] layouts[i]) is Constant || exacting(layouts[i]))
            ==> match all_fields_of(layouts, name) {
            Ok(fields) => forall|i: int|
                0 <= i < fields.len() ==> (#[trigger] fields[i]) is Constant || exacting(fields[i]),
            Err(error) => field_type(dtype, name) == Err::<SpecDType, SpecError>(error),
        },
    decreases layouts, 0nat,
{
    if layouts.len() > 0 {
        lemma_fields_typed(layouts.drop_last(), dtype, name);
        lemma_field_typed(layouts.last(), name);
    }
}

/// An expression computed from a layout's rows is of the type that it has over theirs.
proof fn lemma_wrapped_type(l: Layout, e: SpecExpression)
    requires
        l is ScalarFn,
        valid_expression(e),
    ensures
        type_result(wrapped(l, e)) == expression_type(e, dtype_of(l)),
    decreases e,
{
    match e.function {
        SpecScalarFn::Root => {},
        SpecScalarFn::Literal(_) => {
            assert(argument_types(e.children, dtype_of(l)) == Ok::<Seq<SpecDType>, SpecError>(
                Seq::empty(),
            ));
        },
        _ => {
            assert forall|i: int| 0 <= i < e.children.len() implies valid_expression(
                #[trigger] e.children[i],
            ) by {}
            lemma_all_wrapped_types(l, e.children);
        },
    }
}

proof fn lemma_all_wrapped_types(l: Layout, children: Seq<SpecExpression>)
    requires
        l is ScalarFn,
        forall|i: int| 0 <= i < children.len() ==> valid_expression(#[trigger] children[i]),
    ensures
        match all_wrapped(l, children) {
            Ok(layouts) => argument_types(children, dtype_of(l)) == Ok::<Seq<SpecDType>, SpecError>(
                dtypes_of(layouts),
            ),
            Err(error) => argument_types(children, dtype_of(l)) == Err::<
                Seq<SpecDType>,
                SpecError,
            >(error),
        },
    decreases children,
{
    if children.len() == 0 {
        assert(dtypes_of(Seq::empty()) =~= Seq::empty());
    } else {
        lemma_all_wrapped_types(l, children.drop_last());
        lemma_wrapped_type(l, children.last());
        if let (Ok(front), Ok(last)) = (
            all_wrapped(l, children.drop_last()),
            wrapped(l, children.last()),
        ) {
            assert(dtypes_of(front.push(last)) =~= dtypes_of(front).push(dtype_of(last)));
        }
    }
}

/// An expression over a struct's rows is of the type that it has over theirs.
proof fn lemma_resolved_type(l: Layout, e: SpecExpression)
    requires
        l is Struct,
        typed(l),
        valid_expression(e),
    ensures
        has_type(resolved(l, e), expression_type(e, dtype_of(l))),
        resolved(l, e) matches Ok(result) ==> typed(result),
        exacting(l) && plain(e) ==> {
            &&& type_result(resolved(l, e)) == expression_type(e, dtype_of(l))
            &&& resolved(l, e) matches Ok(result) ==> e.function is Literal || exacting(result)
        },
    decreases e,
{
    match e.function {
        SpecScalarFn::Root => {},
        SpecScalarFn::Literal(_) => {
            assert(argument_types(e.children, dtype_of(l)) == Ok::<Seq<SpecDType>, SpecError>(
                Seq::empty(),
            ));
        },
        _ => {
            assert forall|i: int| 0 <= i < e.children.len() implies valid_expression(
                #[trigger] e.children[i],
            ) by {}
            lemma_all_resolved_types(l, e.children);
            if let SpecScalarFn::GetItem(name) = e.function {
                if let Ok(children) = all_resolved(l, e.children) {
                    lemma_resolved_pointwise(l, e.children);
                    assert(resolved(l, e.children[0]) == Ok::<Layout, SpecError>(children[0]));
                    lemma_resolved_type(l, e.children[0]);
                    lemma_field_typed(children[0], name);
                    assert(dtypes_of(children)[0] == dtype_of(children[0]));
                }
            }
        },
    }
}

proof fn lemma_all_resolved_types(l: Layout, children: Seq<SpecExpression>)
    requires
        l is Struct,
        typed(l),
        forall|i: int| 0 <= i < children.len() ==> valid_expression(#[trigger] children[i]),
    ensures
        argument_types(children, dtype_of(l)) matches Ok(dtypes) ==> (all_resolved(
            l,
            children,
        ) matches Ok(layouts) && dtypes_of(layouts) == dtypes),
        exacting(l) && (forall|i: int| 0 <= i < children.len() ==> plain(#[trigger] children[i]))
            ==> match all_resolved(l, children) {
            Ok(layouts) => argument_types(children, dtype_of(l)) == Ok::<Seq<SpecDType>, SpecError>(
                dtypes_of(layouts),
            ),
            Err(error) => argument_types(children, dtype_of(l)) == Err::<
                Seq<SpecDType>,
                SpecError,
            >(error),
        },
    decreases children,
{
    if children.len() == 0 {
        assert(dtypes_of(Seq::empty()) =~= Seq::empty());
    } else {
        lemma_all_resolved_types(l, children.drop_last());
        lemma_resolved_type(l, children.last());
        if let (Ok(front), Ok(last)) = (
            all_resolved(l, children.drop_last()),
            resolved(l, children.last()),
        ) {
            assert(dtypes_of(front.push(last)) =~= dtypes_of(front).push(dtype_of(last)));
        }
    }
}

/// An expression that has a type over a layout's can be pushed into the layout, where the types of its
/// parts fit, and what comes of it is of that type. One that has none cannot be, for the same reason,
/// where no constant keeps it and it asks for no field of a literal.
pub proof fn law_applied_type(l: Layout, e: SpecExpression)
    requires
        typed(l),
        valid_expression(e),
    ensures
        has_type(applied(l, e), expression_type(e, dtype_of(l))),
        applied(l, e) matches Ok(result) ==> typed(result),
        exacting(l) && plain(e) ==> type_result(applied(l, e)) == expression_type(e, dtype_of(l)),
    decreases l, 0nat,
{
    match l {
        Layout::Chunked { dtype, chunks, .. } => {
            lemma_all_applied_types(chunks, dtype, e);
            lemma_applied_pointwise(chunks, e);
        },
        Layout::Struct { .. } => lemma_resolved_type(l, e),
        Layout::ScalarFn { .. } => lemma_wrapped_type(l, e),
        Layout::Zoned { data, .. } => law_applied_type(*data, e),
        _ => {},
    }
}

proof fn lemma_all_applied_types(layouts: Seq<Layout>, dtype: SpecDType, e: SpecExpression)
    requires
        forall|i: int|
            0 <= i < layouts.len() ==> typed(#[trigger] layouts[i]) && dtype_of(layouts[i]) == dtype,
        valid_expression(e),
    ensures
        match all_applied(layouts, e) {
            Ok(results) => forall|i: int|
                0 <= i < results.len() ==> typed(#[trigger] results[i]) && has_type(
                    Ok(results[i]),
                    expression_type(e, dtype),
                ),
            Err(_) => expression_type(e, dtype) is Err,
        },
        plain(e) && (forall|i: int|
            0 <= i < layouts.len() ==> (#[trigger] layouts[i]) is Constant || exacting(layouts[i]))
            ==> (all_applied(layouts, e) matches Err(error) ==> expression_type(e, dtype) == Err::<
            SpecDType,
            SpecError,
        >(error)),
    decreases layouts, 0nat,
{
    if layouts.len() > 0 {
        lemma_all_applied_types(layouts.drop_last(), dtype, e);
        law_applied_type(layouts.last(), e);
    }
}

/// A field asked for of structs that cannot be null is read from the layout of that field alone. Of structs
/// that can be null it is computed from the structs.
pub proof fn law_field_of_struct(
    count: u64,
    names: Seq<Seq<char>>,
    dtypes: Seq<SpecDType>,
    nullability: Nullability,
    validity: Option<Box<Layout>>,
    fields: Seq<Layout>,
    name: Seq<char>,
    i: int,
)
    requires
        0 <= i < names.len(),
        names[i] == name,
        forall|j: int| 0 <= j < i ==> #[trigger] names[j] != name,
    ensures
        ({
            let dtype = SpecDType::Struct { names, dtypes, nullability };
            let l = Layout::Struct { row_count: count, dtype, validity, fields };
            let result = applied(l, field_expression(name));
            if validity is None && nullability == Nullability::NonNullable {
                result == Ok::<Layout, SpecError>(fields[i])
            } else {
                match field_type(dtype, name) {
                    Ok(own) => result == Ok::<Layout, SpecError>(
                        Layout::ScalarFn {
                            function: SpecScalarFn::GetItem(name),
                            dtype: own,
                            row_count: count,
                            children: seq![l],
                        },
                    ),
                    Err(error) => result == Err::<Layout, SpecError>(error),
                }
            }
        }),
{
    let dtype = SpecDType::Struct { names, dtypes, nullability };
    let l = Layout::Struct { row_count: count, dtype, validity, fields };
    lemma_field_of(l, name);
    lemma_position(names, name);
    let k = position(names, name)->0;
    if (k as int) < i {
        assert(names[k as int] == name);
    }
    assert(dtypes_of(seq![l])[0] == dtype);
}

/// A function of layouts' rows is of the type that the function gives for theirs, in their order, and
/// fails where it gives none.
pub proof fn law_called(function: SpecScalarFn, children: Seq<Layout>, count: u64, args: Seq<SpecDType>)
    requires
        args.len() == children.len(),
        forall|i: int| 0 <= i < args.len() ==> #[trigger] args[i] == dtype_of(children[i]),
    ensures
        match (typing(function, args), called(function, children, count)) {
            (
                Ok(dtype),
                Ok(Layout::ScalarFn { function: own, dtype: result, row_count: n, children: parts }),
            ) => own == function && result == dtype && n == count && parts == children,
            (Err(error), Err(own)) => error == own,
            _ => false,
        },
{
    assert(dtypes_of(children) =~= args);
}

/// An expression over a constant is kept, whether it has a type or not; where it has none, the constant's
/// type is.
pub proof fn law_applied_constant(l: Layout, e: SpecExpression)
    requires
        l is Constant,
    ensures
        applied(l, e) matches Ok(result) && {
            &&& result is Constant
            &&& result->scalar == l->scalar
            &&& row_count(result) == row_count(l)
            &&& dtype_of(result) == match expression_type(e, dtype_of(l)) {
                Ok(dtype) => dtype,
                Err(_) => dtype_of(l),
            }
        },
{
}

/// An expression over a stored segment or over a dictionary's values is kept where it has a type, and
/// fails where it has none. The segment, the values and the codes stay the same.
pub proof fn law_applied_kept(l: Layout, e: SpecExpression)
    requires
        l is Flat || l is Dict,
    ensures
        match (expression_type(e, dtype_of(l)), applied(l, e)) {
            (Ok(dtype), Ok(result)) => {
                &&& dtype_of(result) == dtype
                &&& match (l, result) {
                    (Layout::Flat { segment, .. }, Layout::Flat { segment: own, .. }) => segment
                        == own,
                    (
                        Layout::Dict { values, codes, .. },
                        Layout::Dict { values: own, codes: read, .. },
                    ) => values == own && codes == read,
                    _ => false,
                }
            },
            (Err(error), Err(own)) => error == own,
            _ => false,
        },
{
}

/// An expression over chunks is one over each chunk, in their order.
pub proof fn law_applied_chunks(l: Layout, e: SpecExpression)
    requires
        l is Chunked,
    ensures
        applied(l, e) matches Ok(result) ==> {
            &&& result is Chunked
            &&& result->Chunked_chunks.len() == l->Chunked_chunks.len()
            &&& forall|i: int|
                0 <= i < l->Chunked_chunks.len() ==> applied(#[trigger] l->Chunked_chunks[i], e)
                    == Ok::<Layout, SpecError>(result->Chunked_chunks[i])
            &&& row_count(result) == row_count(l)
        },
{
    lemma_applied_pointwise(l->Chunked_chunks, e);
}

/// Zones keep their statistics, and the expression is over their data.
pub proof fn law_applied_zones(l: Layout, e: SpecExpression)
    requires
        l is Zoned,
    ensures
        match (applied(*l->data, e), applied(l, e)) {
            (Ok(data), Ok(result)) => {
                &&& result is Zoned
                &&& *result->data == data
                &&& result->zone_map == l->zone_map
                &&& result->zone_len == l->zone_len
                &&& result->present_stats == l->present_stats
            },
            (Err(error), Err(own)) => error == own,
            _ => false,
        },
{
}

/// An expression pushed into a layout gives in each row what it gives for the layout's row.
pub proof fn law_applied_row(l: Layout, e: SpecExpression, i: int)
    requires
        regular(l),
        accepts_expression(l),
        valid_expression(e),
        0 <= i < rows(l).len(),
    ensures
        applied(l, e) matches Ok(result) ==> rows(result).len() == rows(l).len() && rows(result)[i]
            == evaluated(e, rows(l)[i]),
{
    law_applied_rows(l, e);
}

/// A well-formed layout has as many rows as it says, and expressions may be pushed into it.
pub proof fn law_regular(l: Layout)
    requires
        well_formed(l),
    ensures
        regular(l),
        accepts_expression(l),
{
    lemma_regular(l);
    lemma_accepts_expression(l);
}

/// Over structs and function results, the row is what they are, a literal is a constant of as many rows, and any
/// other function is called with its arguments over them, in their order.
pub proof fn law_applied_function(l: Layout, e: SpecExpression, args: Seq<Layout>)
    requires
        l is Struct || l is ScalarFn,
    ensures
        e.function is Root ==> applied(l, e) == Ok::<Layout, SpecError>(l),
        e.function matches SpecScalarFn::Literal(scalar) ==> applied(l, e) == Ok::<Layout, SpecError>(
            Layout::Constant {
                scalar,
                dtype: scalar.dtype@,
                row_count: row_count(l),
                expression: None,
            },
        ),
        e.function is Bound && args.len() == e.children.len() && (forall|i: int|
            0 <= i < args.len() ==> applied(l, #[trigger] e.children[i]) == Ok::<Layout, SpecError>(
                args[i],
            )) ==> applied(l, e) == called(e.function, args, row_count(l)),
{
    if e.function is Bound && args.len() == e.children.len() && forall|i: int|
        0 <= i < args.len() ==> applied(l, #[trigger] e.children[i]) == Ok::<Layout, SpecError>(
            args[i],
        ) {
        if l is Struct {
            lemma_resolved_args(l, e.children, args);
        } else {
            lemma_wrapped_args(l, e.children, args);
        }
    }
}

proof fn lemma_resolved_args(l: Layout, children: Seq<SpecExpression>, args: Seq<Layout>)
    requires
        args.len() == children.len(),
        forall|i: int|
            0 <= i < args.len() ==> resolved(l, #[trigger] children[i]) == Ok::<Layout, SpecError>(
                args[i],
            ),
    ensures
        all_resolved(l, children) == Ok::<Seq<Layout>, SpecError>(args),
    decreases children.len(),
{
    if children.len() > 0 {
        let front = children.drop_last();
        assert forall|i: int| 0 <= i < front.len() implies resolved(l, #[trigger] front[i]) == Ok::<
            Layout,
            SpecError,
        >(args.drop_last()[i]) by {
            assert(front[i] == children[i]);
        }
        lemma_resolved_args(l, front, args.drop_last());
        assert(children[children.len() - 1] == children.last());
        assert(args.drop_last().push(args.last()) =~= args);
    } else {
        assert(args =~= Seq::empty());
    }
}

proof fn lemma_wrapped_args(l: Layout, children: Seq<SpecExpression>, args: Seq<Layout>)
    requires
        args.len() == children.len(),
        forall|i: int|
            0 <= i < args.len() ==> wrapped(l, #[trigger] children[i]) == Ok::<Layout, SpecError>(
                args[i],
            ),
    ensures
        all_wrapped(l, children) == Ok::<Seq<Layout>, SpecError>(args),
    decreases children.len(),
{
    if children.len() > 0 {
        let front = children.drop_last();
        assert forall|i: int| 0 <= i < front.len() implies wrapped(l, #[trigger] front[i]) == Ok::<
            Layout,
            SpecError,
        >(args.drop_last()[i]) by {
            assert(front[i] == children[i]);
        }
        lemma_wrapped_args(l, front, args.drop_last());
        assert(children[children.len() - 1] == children.last());
        assert(args.drop_last().push(args.last()) =~= args);
    } else {
        assert(args =~= Seq::empty());
    }
}

/// Over structs and function results, the error of the first argument that cannot be computed is that of the
/// function.
pub proof fn law_applied_argument_fails(l: Layout, e: SpecExpression, k: int, error: SpecError)
    requires
        l is Struct || l is ScalarFn,
        e.function is Bound || e.function is GetItem,
        0 <= k < e.children.len(),
        forall|i: int| 0 <= i < k ==> applied(l, #[trigger] e.children[i]) is Ok,
        applied(l, e.children[k]) == Err::<Layout, SpecError>(error),
    ensures
        applied(l, e) == Err::<Layout, SpecError>(error),
{
    lemma_argument_fails(l, e.children, k, error);
}

proof fn lemma_argument_fails(l: Layout, children: Seq<SpecExpression>, k: int, error: SpecError)
    requires
        l is Struct || l is ScalarFn,
        0 <= k < children.len(),
        forall|i: int| 0 <= i < k ==> applied(l, #[trigger] children[i]) is Ok,
        applied(l, children[k]) == Err::<Layout, SpecError>(error),
    ensures
        l is Struct ==> all_resolved(l, children) == Err::<Seq<Layout>, SpecError>(error),
        l is ScalarFn ==> all_wrapped(l, children) == Err::<Seq<Layout>, SpecError>(error),
    decreases children.len(),
{
    let front = children.drop_last();
    if k < front.len() {
        assert(front[k] == children[k]);
        assert forall|i: int| 0 <= i < k implies applied(l, #[trigger] front[i]) is Ok by {
            assert(front[i] == children[i]);
        }
        lemma_argument_fails(l, front, k, error);
    } else {
        let args = Seq::new(front.len(), |i: int| applied(l, front[i])->Ok_0);
        assert forall|i: int| 0 <= i < front.len() implies applied(l, #[trigger] front[i]) == Ok::<
            Layout,
            SpecError,
        >(args[i]) by {
            assert(front[i] == children[i]);
        }
        if l is Struct {
            lemma_resolved_args(l, front, args);
        } else {
            lemma_wrapped_args(l, front, args);
        }
        assert(children.last() == children[k]);
    }
}

} // verus!
