//! Statistics of arrays, and the scalar function that gives them.
use vstd::prelude::*;
use crate::array::{Array, ConstantArray};
use crate::dtype::{
    dtypes_view, lemma_made_nullable, made_nullable, DType, DecimalDType, Nullability, PType,
    SpecDType,
};
use crate::error::{SpecError, VortexError, VortexResult};
use crate::expr::{
    accepts, typing, valid_expression, Arity, ExecutionArgs, Expression, SpecExpression,
    SpecScalarFn, VTable, VTableExt,
};
use crate::scalar::Scalar;

verus! {

/// A statistic of an array.
#[derive(Debug, Clone, Copy, PartialEq, Eq, Structural)]
pub enum Stat {
    /// Whether all elements are the same.
    IsConstant,
    /// Whether the elements never decrease.
    IsSorted,
    /// Whether the elements always increase.
    IsStrictSorted,
    /// The greatest element.
    Max,
    /// The least element.
    Min,
    /// The sum of the elements.
    Sum,
    /// The number of nulls.
    NullCount,
    /// The size of the array once it is decoded.
    UncompressedSizeInBytes,
    /// The number of elements that are not numbers.
    NaNCount,
}

/// How far a value is known.
pub enum Precision {
    /// It is the value.
    Exact(Scalar),
    /// It is a bound of the value.
    Inexact(Scalar),
}

/// What is known of an array's elements.
pub struct StatsSet {
    pub values: Vec<(Stat, Precision)>,
}

/// What is known of a statistic: the first of the entries for it.
pub open spec fn known(values: Seq<(Stat, Precision)>, stat: Stat) -> Option<Precision>
    decreases values.len(),
{
    if values.len() == 0 {
        None
    } else if values[0].0 == stat {
        Some(values[0].1)
    } else {
        known(values.drop_first(), stat)
    }
}

/// What is known of a statistic is the first entry for it, and nothing where there is no entry for it.
pub proof fn law_known(values: Seq<(Stat, Precision)>, stat: Stat)
    ensures
        match known(values, stat) {
            Some(precision) => exists|i: int|
                0 <= i < values.len() && (#[trigger] values[i]).0 == stat && values[i].1 == precision
                    && forall|j: int| 0 <= j < i ==> (#[trigger] values[j]).0 != stat,
            None => forall|i: int| 0 <= i < values.len() ==> (#[trigger] values[i]).0 != stat,
        },
    decreases values.len(),
{
    if values.len() > 0 {
        let rest = values.drop_first();
        law_known(rest, stat);
        if values[0].0 != stat {
            match known(rest, stat) {
                Some(precision) => {
                    let i = choose|i: int|
                        0 <= i < rest.len() && (#[trigger] rest[i]).0 == stat && rest[i].1
                            == precision && forall|j: int|
                            0 <= j < i ==> (#[trigger] rest[j]).0 != stat;
                    assert(values[i + 1] == rest[i]);
                    assert forall|j: int| 0 <= j < i + 1 implies (#[trigger] values[j]).0 != stat by {
                        if j > 0 {
                            assert(rest[j - 1] == values[j]);
                        }
                    }
                },
                None => {
                    assert forall|i: int| 0 <= i < values.len() implies (#[trigger] values[i]).0
                        != stat by {
                        if i > 0 {
                            assert(rest[i - 1] == values[i]);
                        }
                    }
                },
            }
        }
    }
}

impl StatsSet {
    /// What is known of a statistic.
    pub fn get(&self, stat: Stat) -> (result: Option<&Precision>)
        ensures
            match result {
                Some(value) => known(self.values@, stat) == Some(*value),
                None => known(self.values@, stat) is None,
            },
            match result {
                Some(value) => exists|i: int|
                    0 <= i < self.values@.len() && (#[trigger] self.values@[i]).0 == stat
                        && self.values@[i].1 == *value && forall|j: int|
                        0 <= j < i ==> (#[trigger] self.values@[j]).0 != stat,
                None => forall|i: int|
                    0 <= i < self.values@.len() ==> (#[trigger] self.values@[i]).0 != stat,
            },
    {
        let mut i: usize = 0;
        assert(self.values@.skip(0) =~= self.values@);
        while i < self.values.len()
            invariant
                i <= self.values@.len(),
                known(self.values@.skip(i as int), stat) == known(self.values@, stat),
                forall|j: int| 0 <= j < i ==> (#[trigger] self.values@[j]).0 != stat,
            decreases self.values.len() - i,
        {
            proof {
                let rest = self.values@.skip(i as int);
                assert(rest[0] == self.values@[i as int]);
                assert(rest.drop_first() =~= self.values@.skip(i + 1));
            }
            if self.values[i].0 == stat {
                assert(self.values@[i as int].0 == stat);
                return Some(&self.values[i].1);
            }
            i = i + 1;
        }
        None
    }
}

/// The type of a sum of elements of a type; a sum that overflows is null.
pub open spec fn sum_type(dtype: SpecDType) -> Option<SpecDType>
    decreases dtype,
{
    match dtype {
        SpecDType::Bool(_) => Some(SpecDType::Primitive(PType::U64, Nullability::Nullable)),
        SpecDType::Primitive(ptype, _) => Some(
            SpecDType::Primitive(
                match ptype {
                    PType::U8 | PType::U16 | PType::U32 | PType::U64 => PType::U64,
                    PType::I8 | PType::I16 | PType::I32 | PType::I64 => PType::I64,
                    PType::F16 | PType::F32 | PType::F64 => PType::F64,
                },
                Nullability::Nullable,
            ),
        ),
        SpecDType::Decimal(decimal, _) => Some(
            SpecDType::Decimal(
                DecimalDType::spec_new(
                    if decimal.spec_precision() + 10 > 76 {
                        76
                    } else {
                        (decimal.spec_precision() + 10) as u8
                    },
                    decimal.spec_scale(),
                ),
                Nullability::Nullable,
            ),
        ),
        SpecDType::Extension { storage, .. } => sum_type(*storage),
        _ => None,
    }
}

/// The type of a statistic of elements of a type, where there is such a statistic.
pub open spec fn stat_type(stat: Stat, dtype: SpecDType) -> Option<SpecDType> {
    match stat {
        Stat::IsConstant => Some(SpecDType::Bool(Nullability::NonNullable)),
        Stat::IsSorted => Some(SpecDType::Bool(Nullability::NonNullable)),
        Stat::IsStrictSorted => Some(SpecDType::Bool(Nullability::NonNullable)),
        Stat::Max | Stat::Min => if dtype is Null {
            None
        } else {
            Some(dtype)
        },
        Stat::Sum => sum_type(dtype),
        Stat::NullCount => Some(SpecDType::Primitive(PType::U64, Nullability::NonNullable)),
        Stat::UncompressedSizeInBytes => Some(
            SpecDType::Primitive(PType::U64, Nullability::NonNullable),
        ),
        Stat::NaNCount => match dtype {
            SpecDType::Primitive(PType::F16 | PType::F32 | PType::F64, _) => Some(
                SpecDType::Primitive(PType::U64, Nullability::NonNullable),
            ),
            _ => None,
        },
    }
}

/// The type of a sum of elements of a type.
fn sum_dtype(dtype: &DType) -> (result: Option<DType>)
    ensures
        match result {
            Some(sum) => sum_type(dtype@) == Some(sum@),
            None => sum_type(dtype@) is None,
        },
    decreases dtype,
{
    match dtype {
        DType::Bool(_) => Some(DType::Primitive(PType::U64, Nullability::Nullable)),
        DType::Primitive(ptype, _) => {
            let sum = match ptype {
                PType::U8 | PType::U16 | PType::U32 | PType::U64 => PType::U64,
                PType::I8 | PType::I16 | PType::I32 | PType::I64 => PType::I64,
                PType::F16 | PType::F32 | PType::F64 => PType::F64,
            };
            Some(DType::Primitive(sum, Nullability::Nullable))
        },
        DType::Decimal(decimal, _) => {
            let precision: u8 = if decimal.precision() > 66 {
                76
            } else {
                decimal.precision() + 10
            };
            Some(
                DType::Decimal(
                    DecimalDType::new(precision, decimal.scale()),
                    Nullability::Nullable,
                ),
            )
        },
        DType::Extension(x) => sum_dtype(&x.storage_dtype),
        _ => None,
    }
}

impl Stat {
    /// The type of the statistic of elements of a type, where there is such a statistic.
    pub fn dtype(&self, dtype: &DType) -> (result: Option<DType>)
        ensures
            match result {
                Some(own) => stat_type(*self, dtype@) == Some(own@),
                None => stat_type(*self, dtype@) is None,
            },
    {
        match self {
            Stat::IsConstant | Stat::IsSorted | Stat::IsStrictSorted => Some(
                DType::Bool(Nullability::NonNullable),
            ),
            Stat::Max | Stat::Min => match dtype {
                DType::Null => None,
                _ => Some(dtype.clone()),
            },
            Stat::Sum => sum_dtype(dtype),
            Stat::NullCount | Stat::UncompressedSizeInBytes => Some(
                DType::Primitive(PType::U64, Nullability::NonNullable),
            ),
            Stat::NaNCount => match dtype {
                DType::Primitive(PType::F16 | PType::F32 | PType::F64, _) => Some(
                    DType::Primitive(PType::U64, Nullability::NonNullable),
                ),
                _ => None,
            },
        }
    }
}

/// The type of the expression of a statistic: null where the statistic is not known.
pub open spec fn statistic_type(stat: Stat, dtype: SpecDType) -> Result<SpecDType, SpecError> {
    match stat_type(stat, dtype) {
        Some(own) => Ok(made_nullable(own)),
        None => Err(SpecError::StatNotSupported { stat, dtype }),
    }
}

/// The result of a statistic of an array: the exact value in every row where it is known, and null
/// where it is not, of the statistic's type with null; an error where there is no such statistic.
pub open spec fn statistic_result(
    stat: Stat,
    args: ExecutionArgs,
    result: VortexResult<Array>,
) -> bool {
    match stat_type(stat, args.inputs@[0].dtype@) {
        Some(own) => result matches Ok(Array::Constant(array)) && {
            &&& array.len == args.row_count
            &&& array.scalar.dtype@ == made_nullable(own)
            &&& match known(args.inputs@[0].statistics.values@, stat) {
                Some(Precision::Exact(value)) => array.scalar.value == value.value,
                _ => array.scalar.value is Null,
            }
        },
        None => result matches Err(VortexError::StatNotSupported { stat: asked, dtype }) && asked
            == stat && dtype == args.inputs@[0].dtype,
    }
}

/// A statistic's array is of the type that its expression has.
pub proof fn law_statistic_type(stat: Stat, args: ExecutionArgs, result: VortexResult<Array>)
    requires
        statistic_result(stat, args, result),
    ensures
        match statistic_type(stat, args.inputs@[0].dtype@) {
            Ok(dtype) => result matches Ok(array) && array.spec_dtype()@ == dtype,
            Err(error) => result matches Err(own) && own@ == error,
        },
{
}

/// The first entry for a statistic decides: where it is exact, every row of the result holds its
/// value.
pub proof fn law_exact_statistic(
    stat: Stat,
    args: ExecutionArgs,
    result: VortexResult<Array>,
    i: int,
    exact: Scalar,
)
    requires
        statistic_result(stat, args, result),
        result is Ok,
        0 <= i < args.inputs@[0].statistics.values@.len(),
        args.inputs@[0].statistics.values@[i] == (stat, Precision::Exact(exact)),
        forall|j: int|
            0 <= j < i ==> (#[trigger] args.inputs@[0].statistics.values@[j]).0 != stat,
    ensures
        result matches Ok(Array::Constant(array)) && array.len == args.row_count
            && array.scalar.value == exact.value,
{
    law_known(args.inputs@[0].statistics.values@, stat);
}

/// Every row of the result is null where there is no entry for the statistic, or the first is a bound.
pub proof fn law_unknown_statistic(stat: Stat, args: ExecutionArgs, result: VortexResult<Array>)
    requires
        statistic_result(stat, args, result),
        result is Ok,
        forall|i: int|
            0 <= i < args.inputs@[0].statistics.values@.len() && (
            #[trigger] args.inputs@[0].statistics.values@[i]).0 == stat && (forall|j: int|
                0 <= j < i ==> (#[trigger] args.inputs@[0].statistics.values@[j]).0 != stat)
                ==> args.inputs@[0].statistics.values@[i].1 is Inexact,
    ensures
        result matches Ok(Array::Constant(array)) && array.len == args.row_count
            && array.scalar.value is Null,
{
    law_known(args.inputs@[0].statistics.values@, stat);
}

/// An entry for one statistic changes nothing of what is known of another.
pub proof fn law_other_statistic(
    values: Seq<(Stat, Precision)>,
    place: int,
    entry: (Stat, Precision),
    stat: Stat,
)
    requires
        0 <= place <= values.len(),
        entry.0 != stat,
    ensures
        known(values.insert(place, entry), stat) == known(values, stat),
    decreases values.len(),
{
    let longer = values.insert(place, entry);
    if place == 0 {
        assert(longer.drop_first() =~= values);
    } else {
        law_other_statistic(values.drop_first(), place - 1, entry, stat);
        assert(longer.drop_first() =~= values.drop_first().insert(place - 1, entry));
        assert(longer[0] == values[0]);
    }
}

/// There is a result exactly where the values have the statistic. It is then of the statistic's type,
/// with null. Otherwise the error names the statistic and the type of the values.
pub proof fn law_statistic_exists(stat: Stat, args: ExecutionArgs, result: VortexResult<Array>)
    requires
        statistic_result(stat, args, result),
    ensures
        result is Ok <==> stat_type(stat, args.inputs@[0].dtype@) is Some,
        result matches Ok(array) ==> array.spec_dtype()@ == made_nullable(
            stat_type(stat, args.inputs@[0].dtype@)->0,
        ),
        result matches Err(error) ==> error == (VortexError::StatNotSupported {
            stat,
            dtype: args.inputs@[0].dtype,
        }),
{
}

/// The type of each statistic of values of a type.
pub proof fn law_stat_type(dtype: SpecDType)
    ensures
        stat_type(Stat::IsConstant, dtype) == Some(SpecDType::Bool(Nullability::NonNullable)),
        stat_type(Stat::IsSorted, dtype) == Some(SpecDType::Bool(Nullability::NonNullable)),
        stat_type(Stat::IsStrictSorted, dtype) == Some(SpecDType::Bool(Nullability::NonNullable)),
        stat_type(Stat::NullCount, dtype) == Some(
            SpecDType::Primitive(PType::U64, Nullability::NonNullable),
        ),
        stat_type(Stat::UncompressedSizeInBytes, dtype) == Some(
            SpecDType::Primitive(PType::U64, Nullability::NonNullable),
        ),
        !(dtype is Null) ==> stat_type(Stat::Max, dtype) == Some(dtype) && stat_type(
            Stat::Min,
            dtype,
        ) == Some(dtype),
        dtype is Null ==> stat_type(Stat::Max, dtype) is None && stat_type(Stat::Min, dtype) is None,
        stat_type(Stat::NaNCount, dtype) == if dtype is Primitive && (dtype->Primitive_0 == PType::F16
            || dtype->Primitive_0 == PType::F32 || dtype->Primitive_0 == PType::F64) {
            Some(SpecDType::Primitive(PType::U64, Nullability::NonNullable))
        } else {
            None
        },
{
}

/// The type of a sum of values of a type: the widest of the values' kind, ten digits more for
/// decimals up to as many as there can be, and that of the storage for a named type. Other values
/// have no sum. A sum can always be null.
pub proof fn law_sum_type(dtype: SpecDType)
    ensures
        match stat_type(Stat::Sum, dtype) {
            Some(SpecDType::Primitive(sum, nullability)) => {
                &&& nullability == Nullability::Nullable
                &&& match dtype {
                    SpecDType::Bool(_) => sum == PType::U64,
                    SpecDType::Primitive(ptype, _) => match ptype {
                        PType::U8 | PType::U16 | PType::U32 | PType::U64 => sum == PType::U64,
                        PType::I8 | PType::I16 | PType::I32 | PType::I64 => sum == PType::I64,
                        PType::F16 | PType::F32 | PType::F64 => sum == PType::F64,
                    },
                    SpecDType::Extension { storage, .. } => stat_type(Stat::Sum, *storage) == Some(
                        SpecDType::Primitive(sum, nullability),
                    ),
                    _ => false,
                }
            },
            Some(SpecDType::Decimal(sum, nullability)) => {
                &&& nullability == Nullability::Nullable
                &&& match dtype {
                    SpecDType::Decimal(own, _) => exists|precision: u8|
                        {
                            &&& sum == #[trigger] DecimalDType::spec_new(
                                precision,
                                own.spec_scale(),
                            )
                            &&& precision <= 76
                            &&& precision == own.spec_precision() + 10 || (precision == 76
                                && own.spec_precision() > 66)
                        },
                    SpecDType::Extension { storage, .. } => stat_type(Stat::Sum, *storage) == Some(
                        SpecDType::Decimal(sum, nullability),
                    ),
                    _ => false,
                }
            },
            Some(_) => false,
            None => match dtype {
                SpecDType::Bool(_) | SpecDType::Primitive(..) | SpecDType::Decimal(..) => false,
                SpecDType::Extension { storage, .. } => stat_type(Stat::Sum, *storage) is None,
                _ => true,
            },
        },
    decreases dtype,
{
    if let SpecDType::Extension { storage, .. } = dtype {
        law_sum_type(*storage);
    }
}

/// The scalar function that gives a statistic of its argument in every row.
pub struct Statistic;

impl VTable for Statistic {
    type Options = Stat;

    open spec fn spec_arity(&self, options: &Stat) -> Arity {
        Arity::Exact(1)
    }

    open spec fn spec_typing(&self, stat: &Stat, args: Seq<SpecDType>) -> Result<
        SpecDType,
        SpecError,
    > {
        statistic_type(*stat, args[0])
    }

    open spec fn spec_computes(
        &self,
        stat: &Stat,
        args: ExecutionArgs,
        result: VortexResult<Array>,
    ) -> bool {
        statistic_result(*stat, args, result)
    }

    open spec fn spec_simplifies(
        &self,
        stat: &Stat,
        expr: SpecExpression,
        result: VortexResult<Option<Expression>>,
    ) -> bool {
        result matches Ok(None)
    }

    open spec fn spec_id(&self) -> Seq<char> {
        "statistic"@
    }

    open spec fn spec_child_name(&self, options: &Stat, child_idx: usize) -> Seq<char> {
        "input"@
    }

    fn id(&self) -> String {
        String::from_str("statistic")
    }

    fn arity(&self, options: &Stat) -> Arity {
        Arity::Exact(1)
    }

    fn child_name(&self, options: &Stat, child_idx: usize) -> String {
        String::from_str("input")
    }

    fn return_dtype(&self, stat: &Stat, arg_dtypes: &Vec<DType>) -> VortexResult<DType> {
        assert(dtypes_view(arg_dtypes@)[0] == arg_dtypes@[0]@);
        match stat.dtype(&arg_dtypes[0]) {
            Some(dtype) => Ok(dtype.as_nullable()),
            None => Err(
                VortexError::StatNotSupported { stat: *stat, dtype: arg_dtypes[0].clone() },
            ),
        }
    }

    fn execute(&self, stat: &Stat, args: ExecutionArgs) -> (result: VortexResult<Array>)
        ensures
            result matches Ok(array) ==> array matches Array::Constant(constant) && {
                let entries = args.inputs@[0].statistics.values@;
                &&& constant.len == args.row_count
                &&& forall|i: int|
                    0 <= i < entries.len() && (#[trigger] entries[i]).0 == *stat && (forall|j: int|
                        0 <= j < i ==> (#[trigger] entries[j]).0 != *stat) ==> match entries[i].1 {
                        Precision::Exact(exact) => constant.scalar.value == exact.value,
                        Precision::Inexact(_) => constant.scalar.value is Null,
                    }
                &&& (forall|i: int| 0 <= i < entries.len() ==> (#[trigger] entries[i]).0 != *stat)
                    ==> constant.scalar.value is Null
            },
    {
        let input = &args.inputs[0];
        let dtype = match stat.dtype(&input.dtype) {
            Some(dtype) => dtype,
            None => {
                return Err(
                    VortexError::StatNotSupported { stat: *stat, dtype: input.dtype.clone() },
                );
            },
        };
        proof {
            lemma_made_nullable(dtype@);
        }
        let scalar = match input.statistics.get(*stat) {
            Some(Precision::Exact(exact)) => {
                let value = exact.clone().value;
                Scalar { dtype: dtype.as_nullable(), value }
            },
            _ => Scalar::null(dtype.as_nullable()),
        };
        Ok(Array::Constant(ConstantArray { scalar, len: args.row_count }))
    }

    fn simplify(&self, options: &Stat, expr: &Expression) -> VortexResult<Option<Expression>> {
        Ok(None)
    }
}

/// The expression of a statistic of another expression's values.
pub fn statistic(stat: Stat, child: Expression) -> (result: Expression)
    ensures
        result@.children == seq![child@],
        result@.function matches SpecScalarFn::Bound(object) && {
            &&& object.spec_id() == "statistic"@
            &&& forall|args: ExecutionArgs, value: VortexResult<Array>| #[trigger]
                object.computes(args, value) == statistic_result(stat, args, value)
        },
        forall|n: nat| #[trigger] accepts(result@.function, n) == (n == 1),
        forall|args: Seq<SpecDType>| #[trigger]
            typing(result@.function, args) == statistic_type(stat, args[0]),
        valid_expression(child@) ==> valid_expression(result@),
{
    let mut children: Vec<Expression> = Vec::new();
    children.push(child);
    let result = Statistic.new_expr(stat, children);
    assert(result@.children =~= seq![child@]);
    assert(children@[0]@ == child@);
    result
}

/// The expression of a statistic is of the statistic's type, with null, where there is such a statistic of
/// its argument, and has the error that names both where there is none.
pub proof fn law_statistic_expression(stat: Stat, dtype: SpecDType)
    ensures
        match stat_type(stat, dtype) {
            Some(own) => statistic_type(stat, dtype) == Ok::<SpecDType, SpecError>(made_nullable(own)),
            None => statistic_type(stat, dtype) == Err::<SpecDType, SpecError>(
                SpecError::StatNotSupported { stat, dtype },
            ),
        },
        Statistic.spec_id() == "statistic"@,
        forall|i: usize| #[trigger] Statistic.spec_child_name(&stat, i) == "input"@,
        Statistic.spec_arity(&stat) == Arity::Exact(1),
        forall|args: Seq<SpecDType>| #[trigger]
            Statistic.spec_typing(&stat, args) == statistic_type(stat, args[0]),
        forall|args: ExecutionArgs, result: VortexResult<Array>| #[trigger]
            Statistic.spec_computes(&stat, args, result) == statistic_result(stat, args, result),
        forall|expr: SpecExpression, result: VortexResult<Option<Expression>>| #[trigger]
            Statistic.spec_simplifies(&stat, expr, result) <==> result == Ok::<
                Option<Expression>,
                VortexError,
            >(None),
{
}

} // verus!
