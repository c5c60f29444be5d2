//! Arrays still to be computed, of a known length.
use vstd::prelude::*;
use std::ops::Range;
use std::sync::Arc;
use crate::array::Array;
use crate::chunks::flat;
use crate::dtype::{DType, SpecDType};
use crate::estimate::{capped, capped_sum, decoded_size, estimated_decoded_bytes};
use crate::expr::{Expression, ScalarFn, SpecExpression, SpecScalarFn};
use crate::row::{call, call_join, decode, evaluated, finished, struct_join, Row, Segment};
use crate::scalar::Scalar;

verus! {

/// How an array is to be computed.
pub enum ArrayPlan {
    /// It is there.
    Ready(Array),
    /// So many rows of a stored segment, from an offset on, and an expression over them.
    Segment {
        dtype: DType,
        segment: Segment,
        offset: usize,
        len: usize,
        expression: Option<Expression>,
    },
    /// One value repeated, and an expression over it.
    Constant { dtype: DType, scalar: Scalar, len: usize, expression: Option<Expression> },
    /// Some of the rows of another array.
    Slice { parent: ArrayFuture, start: usize, end: usize },
    /// Structs of the elements of the parts; the first part says which structs are present where
    /// that is stored.
    Struct { dtype: DType, has_validity: bool, parts: Vec<ArrayFuture>, len: usize },
    /// A function of the elements of the inputs.
    ScalarFn { dtype: DType, function: ScalarFn, inputs: Vec<ArrayFuture>, len: usize },
    /// The values that codes stand for in a dictionary, and an expression over them.
    Dict {
        dtype: DType,
        values: Arc<Vec<ArrayFuture>>,
        codes: ArrayFuture,
        expression: Option<Expression>,
    },
}

/// An array still to be computed, of a known length.
pub struct ArrayFuture {
    plan: Arc<ArrayPlan>,
    len: usize,
    estimated_bytes: usize,
}

/// The mathematical value of an expression that may be missing.
pub open spec fn expression_option(expression: Option<Expression>) -> Option<SpecExpression> {
    match expression {
        Some(e) => Some(e@),
        None => None,
    }
}

/// The rows of the array that a plan computes.
pub open spec fn plan_rows(plan: ArrayPlan) -> Seq<Row>
    decreases plan,
{
    match plan {
        ArrayPlan::Ready(array) => Seq::new(
            array.spec_len(),
            |i: int| Row::Element { array, index: i as nat },
        ),
        ArrayPlan::Segment { segment, offset, len, expression, .. } => Seq::new(
            len as nat,
            |i: int|
                finished(
                    expression_option(expression),
                    Row::Stored { segment: segment@, index: (offset + i) as nat },
                ),
        ),
        ArrayPlan::Constant { scalar, len, expression, .. } => Seq::new(
            len as nat,
            |i: int| finished(expression_option(expression), Row::Constant(scalar)),
        ),
        ArrayPlan::Slice { parent, start, end } => plan_rows(parent.spec_plan()).subrange(
            start as int,
            end as int,
        ),
        ArrayPlan::Struct { dtype, has_validity, parts, len } => {
            let lanes = all_rows(parts@);
            Seq::new(
                len as nat,
                |i: int|
                    struct_join(dtype@, has_validity)(
                        Seq::new(lanes.len(), |j: int| lanes[j][i]),
                    ),
            )
        },
        ArrayPlan::ScalarFn { function, inputs, len, .. } => {
            let lanes = all_rows(inputs@);
            Seq::new(
                len as nat,
                |i: int| call_join(function@)(Seq::new(lanes.len(), |j: int| lanes[j][i])),
            )
        },
        ArrayPlan::Dict { values, codes, expression, .. } => plan_rows(codes.spec_plan()).map_values(
            decode(flat(all_rows(values@)), expression_option(expression)),
        ),
    }
}

/// The rows of each of the arrays.
pub open spec fn all_rows(futures: Seq<ArrayFuture>) -> Seq<Seq<Row>>
    decreases futures,
{
    Seq::new(
        futures.len(),
        |i: int|
            if 0 <= i < futures.len() {
                plan_rows(futures[i].spec_plan())
            } else {
                Seq::empty()
            },
    )
}

/// The type of the array that a plan computes.
pub open spec fn plan_dtype(plan: ArrayPlan) -> SpecDType
    decreases plan,
{
    match plan {
        ArrayPlan::Ready(array) => array.spec_dtype()@,
        ArrayPlan::Segment { dtype, .. } => dtype@,
        ArrayPlan::Constant { dtype, .. } => dtype@,
        ArrayPlan::Slice { parent, .. } => plan_dtype(parent.spec_plan()),
        ArrayPlan::Struct { dtype, .. } => dtype@,
        ArrayPlan::ScalarFn { dtype, .. } => dtype@,
        ArrayPlan::Dict { dtype, .. } => dtype@,
    }
}

impl ArrayFuture {
    /// The rows of the array.
    pub open spec fn rows(&self) -> Seq<Row> {
        plan_rows(self.spec_plan())
    }

    /// The type of the array.
    pub open spec fn spec_dtype(&self) -> SpecDType {
        plan_dtype(self.spec_plan())
    }

    /// How the array is to be computed.
    pub closed spec fn spec_plan(&self) -> ArrayPlan {
        *self.plan
    }

    /// The length of the array.
    pub closed spec fn spec_len(&self) -> usize {
        self.len
    }

    /// The estimated decoded byte size of the array.
    pub closed spec fn spec_estimated_bytes(&self) -> usize {
        self.estimated_bytes
    }

    #[verifier::type_invariant]
    pub(crate) closed spec fn valid(self) -> bool {
        plan_rows(*self.plan).len() == self.len
    }
}

/// The estimate for `count` of `len` rows that take `bytes` together.
pub open spec fn share(bytes: nat, count: nat, len: nat) -> nat {
    if len > 0 {
        bytes * count / len
    } else {
        0
    }
}

/// The estimate for the first `count` of `len` rows that take `bytes` together, or for all of them.
pub open spec fn cut(bytes: nat, count: nat, len: nat) -> nat {
    if count < len {
        share(bytes, count, len)
    } else {
        bytes
    }
}

/// The numbers together.
pub open spec fn total(numbers: Seq<nat>) -> nat
    decreases numbers.len(),
{
    if numbers.len() == 0 {
        0
    } else {
        total(numbers.drop_last()) + numbers.last()
    }
}

/// The estimates of the arrays are added up.
pub proof fn lemma_total_estimate(futures: Seq<ArrayFuture>, numbers: Seq<nat>)
    requires
        futures.len() == numbers.len(),
        forall|i: int|
            0 <= i < futures.len() ==> (#[trigger] futures[i]).spec_estimated_bytes() == numbers[i],
    ensures
        total_estimate(futures) == total(numbers),
    decreases futures.len(),
{
    if futures.len() > 0 {
        lemma_total_estimate(futures.drop_last(), numbers.drop_last());
        assert(futures[futures.len() - 1].spec_estimated_bytes() == numbers.last());
    }
}

/// The estimates of the arrays together.
pub open spec fn total_estimate(futures: Seq<ArrayFuture>) -> nat
    decreases futures.len(),
{
    if futures.len() == 0 {
        0
    } else {
        total_estimate(futures.drop_last()) + futures.last().spec_estimated_bytes() as nat
    }
}

/// The estimated size of the array that a plan computes: nothing for one that is there, the decoded
/// size of its type where it is read or computed as a whole, a slice's share of its parent's, and
/// what the parts of a struct take together.
pub open spec fn plan_estimate(plan: ArrayPlan) -> nat {
    match plan {
        ArrayPlan::Ready(_) => 0,
        ArrayPlan::Segment { dtype, len, .. } => capped(decoded_size(dtype@, len as nat)),
        ArrayPlan::Constant { dtype, len, .. } => capped(decoded_size(dtype@, len as nat)),
        ArrayPlan::Slice { parent, start, end } => share(
            parent.spec_estimated_bytes() as nat,
            (end - start) as nat,
            parent.spec_len() as nat,
        ),
        ArrayPlan::Struct { parts, .. } => capped(total_estimate(parts@)),
        ArrayPlan::ScalarFn { dtype, len, .. } => capped(decoded_size(dtype@, len as nat)),
        ArrayPlan::Dict { dtype, codes, .. } => capped(
            decoded_size(dtype@, codes.spec_len() as nat),
        ),
    }
}

/// A share is no more than the whole, and the whole of what there is where it is of all rows.
pub proof fn lemma_share(bytes: nat, count: nat, len: nat)
    requires
        count <= len,
    ensures
        share(bytes, count, len) <= bytes,
        len > 0 ==> share(bytes, len, len) == bytes,
        bytes * count >= 0,
{
    assert(bytes * count >= 0) by (nonlinear_arith);
    if len > 0 {
        assert(bytes * count / len <= bytes) by (nonlinear_arith)
            requires
                count <= len,
                len > 0,
        ;
        assert(bytes * len / len == bytes) by (nonlinear_arith)
            requires
                len > 0,
        ;
    }
}

/// Two slices that split an array are estimated at no more than the array.
pub proof fn law_slices_split_the_estimate(bytes: nat, first: nat, second: nat)
    ensures
        share(bytes, first, first + second) + share(bytes, second, first + second) <= bytes,
{
    let len = first + second;
    if len > 0 {
        assert(bytes * first / len + bytes * second / len <= bytes) by (nonlinear_arith)
            requires
                len == first + second,
                len > 0,
        {
            let a = bytes * first / len;
            let b = bytes * second / len;
            assert(a * len <= bytes * first);
            assert(b * len <= bytes * second);
            assert((a + b) * len <= bytes * len);
        }
    }
}

/// A plan of structs computes one struct for each row: its field `j` is what part `j` computes for
/// that row, after the first part where that says which structs are present.
pub proof fn law_struct_plan(
    dtype: DType,
    has_validity: bool,
    parts: Vec<ArrayFuture>,
    len: usize,
    i: int,
)
    requires
        0 <= i < len,
        has_validity ==> parts@.len() > 0,
    ensures
        plan_rows(ArrayPlan::Struct { dtype, has_validity, parts, len }).len() == len,
        plan_rows(ArrayPlan::Struct { dtype, has_validity, parts, len })[i] matches Row::Struct {
            dtype: own,
            validity,
            fields,
        } && {
            let first: int = if has_validity {
                1
            } else {
                0
            };
            &&& own == dtype@
            &&& fields.len() == parts@.len() - first
            &&& forall|j: int|
                0 <= j < fields.len() ==> #[trigger] fields[j] == parts@[first + j].rows()[i]
            &&& match validity {
                Some(present) => has_validity && *present == parts@[0].rows()[i],
                None => !has_validity,
            }
        },
{
    let lanes = all_rows(parts@);
    assert forall|j: int| 0 <= j < parts@.len() implies #[trigger] lanes[j] == parts@[j].rows() by {}
    let row = Seq::new(lanes.len(), |j: int| lanes[j][i]);
    assert forall|j: int| 0 <= j < parts@.len() implies #[trigger] row[j] == parts@[j].rows()[i] by {}
    assert(plan_rows(ArrayPlan::Struct { dtype, has_validity, parts, len })[i] == struct_join(
        dtype@,
        has_validity,
    )(row));
}

/// A plan of a function computes, for each row, the function of what the inputs compute for that row:
/// argument `j` is what input `j` computes.
pub proof fn law_function_plan(
    dtype: DType,
    function: ScalarFn,
    inputs: Vec<ArrayFuture>,
    len: usize,
    i: int,
)
    requires
        0 <= i < len,
        function is Bound,
    ensures
        plan_rows(ArrayPlan::ScalarFn { dtype, function, inputs, len }).len() == len,
        plan_rows(ArrayPlan::ScalarFn { dtype, function, inputs, len })[i] matches Row::Call {
            function: called,
            args,
        } && {
            &&& called == function@
            &&& args.len() == inputs@.len()
            &&& forall|j: int|
                0 <= j < args.len() ==> #[trigger] args[j] == inputs@[j].rows()[i]
        },
{
    let lanes = all_rows(inputs@);
    assert forall|j: int| 0 <= j < inputs@.len() implies #[trigger] lanes[j] == inputs@[j].rows() by {}
    let row = Seq::new(lanes.len(), |j: int| lanes[j][i]);
    assert forall|j: int| 0 <= j < inputs@.len() implies #[trigger] row[j] == inputs@[j].rows()[i] by {}
    assert(plan_rows(ArrayPlan::ScalarFn { dtype, function, inputs, len })[i] == call_join(function@)(
        row,
    ));
}

/// A plan of a field computes, for each row, the field of what its input computes for that row.
pub proof fn law_field_plan(
    dtype: DType,
    name: String,
    inputs: Vec<ArrayFuture>,
    len: usize,
    i: int,
)
    requires
        0 <= i < len,
        inputs@.len() == 1,
    ensures
        plan_rows(
            ArrayPlan::ScalarFn { dtype, function: ScalarFn::GetItem(name), inputs, len },
        )[i] == call(SpecScalarFn::GetItem(name@), seq![inputs@[0].rows()[i]]),
{
    let lanes = all_rows(inputs@);
    assert(Seq::new(lanes.len(), |j: int| lanes[j][i]) =~= seq![inputs@[0].rows()[i]]);
}

/// A plan of a segment's rows computes the elements of the segment from the offset on, one after the
/// other, and the expression over each where there is one.
pub proof fn law_segment_plan(
    dtype: DType,
    segment: Segment,
    offset: usize,
    len: usize,
    expression: Option<Expression>,
    i: int,
)
    requires
        0 <= i < len,
    ensures
        plan_rows(ArrayPlan::Segment { dtype, segment, offset, len, expression }).len() == len,
        plan_rows(ArrayPlan::Segment { dtype, segment, offset, len, expression })[i]
            == match expression {
            Some(e) => evaluated(
                e@,
                Row::Stored { segment: segment@, index: (offset + i) as nat },
            ),
            None => Row::Stored { segment: segment@, index: (offset + i) as nat },
        },
{
}

/// A plan of a constant computes the constant in each row, and the expression over it where there is
/// one.
pub proof fn law_constant_plan(
    dtype: DType,
    scalar: Scalar,
    len: usize,
    expression: Option<Expression>,
    i: int,
)
    requires
        0 <= i < len,
    ensures
        plan_rows(ArrayPlan::Constant { dtype, scalar, len, expression }).len() == len,
        plan_rows(ArrayPlan::Constant { dtype, scalar, len, expression })[i] == match expression {
            Some(e) => evaluated(e@, Row::Constant(scalar)),
            None => Row::Constant(scalar),
        },
{
}

/// A plan of a slice computes the rows of its parent from its start to before its end.
pub proof fn law_slice_plan(parent: ArrayFuture, start: usize, end: usize, i: int)
    requires
        start <= end <= parent.rows().len(),
        0 <= i < end - start,
    ensures
        plan_rows(ArrayPlan::Slice { parent, start, end }).len() == end - start,
        plan_rows(ArrayPlan::Slice { parent, start, end })[i] == parent.rows()[start + i],
{
}

/// A plan of a dictionary computes, for each row of the codes, the value that the code stands for
/// among the values in their order, and the expression over it where there is one.
pub proof fn law_dict_plan(
    dtype: DType,
    values: Arc<Vec<ArrayFuture>>,
    codes: ArrayFuture,
    expression: Option<Expression>,
    i: int,
)
    requires
        0 <= i < codes.rows().len(),
    ensures
        plan_rows(ArrayPlan::Dict { dtype, values, codes, expression }).len() == codes.rows().len(),
        ({
            let parts = Seq::new(values@.len(), |j: int| values@[j].rows());
            let value = Row::Decoded {
                dictionary: flat(parts),
                code: Box::new(codes.rows()[i]),
            };
            plan_rows(ArrayPlan::Dict { dtype, values, codes, expression })[i] == match expression {
                Some(e) => evaluated(e@, value),
                None => value,
            }
        }),
{
    assert(all_rows(values@) =~= Seq::new(values@.len(), |j: int| values@[j].rows()));
}

/// The share of some of the rows is the largest whole number that, taken for each of them, is no more
/// than the bytes of all rows taken as often.
pub proof fn law_share(bytes: nat, count: nat, len: nat)
    requires
        count <= len,
    ensures
        len > 0 ==> share(bytes, count, len) * len <= bytes * count < (share(bytes, count, len) + 1)
            * len,
        len == 0 ==> share(bytes, count, len) == 0,
        count < len ==> cut(bytes, count, len) == share(bytes, count, len),
        cut(bytes, len, len) == bytes,
{
    if len > 0 {
        let product = bytes * count;
        assert(product >= 0) by (nonlinear_arith)
            requires
                product == bytes * count,
        ;
        assert(product / len * len <= product < (product / len + 1) * len)
            by (nonlinear_arith)
            requires
                product >= 0,
                len > 0,
        ;
    }
}

/// A sum of no numbers is zero, and one more number adds itself; so for the estimates of arrays.
pub proof fn law_total(numbers: Seq<nat>, last: nat, futures: Seq<ArrayFuture>, future: ArrayFuture)
    ensures
        total(Seq::empty()) == 0,
        total(numbers.push(last)) == total(numbers) + last,
        total_estimate(Seq::empty()) == 0,
        total_estimate(futures.push(future)) == total_estimate(futures)
            + future.spec_estimated_bytes(),
{
    assert(numbers.push(last).drop_last() =~= numbers);
    assert(futures.push(future).drop_last() =~= futures);
}

/// What an array is estimated at: nothing where it is there already, the decoded size of its rows
/// where they are read, repeated, computed or decoded, its share of its parent where it is a slice,
/// and what its parts are estimated at together where it is of structs.
pub proof fn law_plan_estimate(plan: ArrayPlan)
    ensures
        match plan {
            ArrayPlan::Ready(_) => plan_estimate(plan) == 0,
            ArrayPlan::Segment { dtype, len, .. } => plan_estimate(plan) == capped(
                decoded_size(dtype@, len as nat),
            ),
            ArrayPlan::Constant { dtype, len, .. } => plan_estimate(plan) == capped(
                decoded_size(dtype@, len as nat),
            ),
            ArrayPlan::ScalarFn { dtype, len, .. } => plan_estimate(plan) == capped(
                decoded_size(dtype@, len as nat),
            ),
            ArrayPlan::Dict { dtype, codes, .. } => plan_estimate(plan) == capped(
                decoded_size(dtype@, codes.spec_len() as nat),
            ),
            ArrayPlan::Slice { parent, start, end } => start <= end <= parent.spec_len()
                && parent.spec_len() > 0 ==> {
                let own = plan_estimate(plan);
                &&& own * parent.spec_len() <= parent.spec_estimated_bytes() * (end - start)
                &&& parent.spec_estimated_bytes() * (end - start) < (own + 1) * parent.spec_len()
            },
            ArrayPlan::Struct { parts, .. } => plan_estimate(plan) == capped(
                total(Seq::new(parts@.len(), |j: int| parts@[j].spec_estimated_bytes() as nat)),
            ),
        },
{
    match plan {
        ArrayPlan::Struct { parts, .. } => {
            lemma_total_estimate(
                parts@,
                Seq::new(parts@.len(), |j: int| parts@[j].spec_estimated_bytes() as nat),
            );
        },
        ArrayPlan::Slice { parent, start, end } => {
            if start <= end <= parent.spec_len() {
                law_share(
                    parent.spec_estimated_bytes() as nat,
                    (end - start) as nat,
                    parent.spec_len() as nat,
                );
            }
        },
        _ => {},
    }
}

impl Clone for ArrayFuture {
    fn clone(&self) -> (result: ArrayFuture)
        ensures
            result == *self,
    {
        proof {
            use_type_invariant(self);
        }
        ArrayFuture {
            plan: Arc::clone(&self.plan),
            len: self.len,
            estimated_bytes: self.estimated_bytes,
        }
    }
}

impl ArrayFuture {
    /// An array of a known length, computed as the plan says.
    pub fn new(len: usize, estimated_bytes: usize, plan: ArrayPlan) -> (result: ArrayFuture)
        requires
            plan_rows(plan).len() == len,
        ensures
            result.spec_plan() == plan,
            result.spec_len() == len,
            result.spec_estimated_bytes() == estimated_bytes,
            result.rows().len() == len,
    {
        ArrayFuture { plan: Arc::new(plan), len, estimated_bytes }
    }

    /// An array that is there.
    pub fn ready(array: Array) -> (result: ArrayFuture)
        ensures
            result.spec_plan() == ArrayPlan::Ready(array),
            result.spec_len() == array.spec_len(),
            result.spec_estimated_bytes() == plan_estimate(result.spec_plan()),
            result.rows() == Seq::new(
                array.spec_len(),
                |i: int| Row::Element { array, index: i as nat },
            ),
    {
        let len = array.len();
        ArrayFuture::new(len, 0, ArrayPlan::Ready(array))
    }

    /// The length of the array.
    pub fn len(&self) -> (result: usize)
        ensures
            result == self.spec_len(),
            result == self.rows().len(),
    {
        proof {
            use_type_invariant(self);
        }
        self.len
    }

    /// Whether the array is empty.
    pub fn is_empty(&self) -> (result: bool)
        ensures
            result == (self.rows().len() == 0),
    {
        proof {
            use_type_invariant(self);
        }
        self.len == 0
    }

    /// The estimated decoded byte size of the array.
    pub fn estimated_bytes(&self) -> (result: usize)
        ensures
            result == self.spec_estimated_bytes(),
    {
        self.estimated_bytes
    }

    /// How the array is to be computed.
    pub fn plan(&self) -> (result: &ArrayPlan)
        ensures
            *result == self.spec_plan(),
    {
        &self.plan
    }

    /// The array of the rows in a range of this one.
    pub fn slice(&self, range: Range<usize>) -> (result: ArrayFuture)
        requires
            range.start <= range.end <= self.spec_len(),
        ensures
            result.rows() == self.rows().subrange(range.start as int, range.end as int),
            result.spec_len() == range.end - range.start,
            result.spec_plan() == (ArrayPlan::Slice {
                parent: *self,
                start: range.start,
                end: range.end,
            }),
            result.spec_estimated_bytes() == plan_estimate(result.spec_plan()),
    {
        proof {
            use_type_invariant(self);
        }
        let count: usize = range.end - range.start;
        let estimated_bytes: usize = if self.len > 0 {
            proof {
                lemma_share(self.estimated_bytes as nat, count as nat, self.len as nat);
                let (a, b) = (self.estimated_bytes as nat, count as nat);
                assert(a * b <= u128::MAX) by (nonlinear_arith)
                    requires
                        a <= 0xffff_ffff_ffff_ffff,
                        b <= 0xffff_ffff_ffff_ffff,
                ;
            }
            (self.estimated_bytes as u128 * count as u128 / self.len as u128) as usize
        } else {
            0
        };
        let plan = ArrayPlan::Slice { parent: self.clone(), start: range.start, end: range.end };
        ArrayFuture::new(count, estimated_bytes, plan)
    }

    /// Rows of a stored segment from an offset on, and the expression over them.
    pub(crate) fn segment(
        dtype: DType,
        segment: Segment,
        offset: usize,
        len: usize,
        expression: Option<Expression>,
    ) -> (result: ArrayFuture)
        ensures
            result.spec_plan() == (ArrayPlan::Segment {
                dtype,
                segment,
                offset,
                len,
                expression,
            }),
            result.spec_len() == len,
            result.spec_estimated_bytes() == plan_estimate(result.spec_plan()),
    {
        let estimated_bytes = estimated_decoded_bytes(&dtype, len);
        let plan = ArrayPlan::Segment { dtype, segment, offset, len, expression };
        ArrayFuture::new(len, estimated_bytes, plan)
    }

    /// One value repeated, and the expression over it.
    pub(crate) fn constant(
        dtype: DType,
        scalar: Scalar,
        len: usize,
        expression: Option<Expression>,
    ) -> (result: ArrayFuture)
        ensures
            result.spec_plan() == (ArrayPlan::Constant { dtype, scalar, len, expression }),
            result.spec_len() == len,
            result.spec_estimated_bytes() == plan_estimate(result.spec_plan()),
    {
        let estimated_bytes = estimated_decoded_bytes(&dtype, len);
        let plan = ArrayPlan::Constant { dtype, scalar, len, expression };
        ArrayFuture::new(len, estimated_bytes, plan)
    }

    /// The structs of the elements of the parts.
    pub(crate) fn structs(
        dtype: DType,
        has_validity: bool,
        parts: Vec<ArrayFuture>,
        len: usize,
    ) -> (result: ArrayFuture)
        ensures
            result.spec_plan() == (ArrayPlan::Struct { dtype, has_validity, parts, len }),
            result.spec_len() == len,
            result.spec_estimated_bytes() == plan_estimate(result.spec_plan()),
    {
        let mut estimated_bytes: usize = 0;
        let mut i: usize = 0;
        assert(parts@.take(0) =~= Seq::<ArrayFuture>::empty());
        while i < parts.len()
            invariant
                i <= parts.len(),
                estimated_bytes == capped(total_estimate(parts@.take(i as int))),
            decreases parts.len() - i,
        {
            proof {
                let next = parts@.take(i + 1);
                assert(next.drop_last() =~= parts@.take(i as int));
                assert(next.last() == parts@[i as int]);
            }
            estimated_bytes = capped_sum(estimated_bytes, parts[i].estimated_bytes());
            i = i + 1;
        }
        assert(parts@.take(parts@.len() as int) =~= parts@);
        let plan = ArrayPlan::Struct { dtype, has_validity, parts, len };
        ArrayFuture::new(len, estimated_bytes, plan)
    }

    /// The function of the elements of the inputs.
    pub(crate) fn calls(
        dtype: DType,
        function: ScalarFn,
        inputs: Vec<ArrayFuture>,
        len: usize,
    ) -> (result: ArrayFuture)
        ensures
            result.spec_plan() == (ArrayPlan::ScalarFn { dtype, function, inputs, len }),
            result.spec_len() == len,
            result.spec_estimated_bytes() == plan_estimate(result.spec_plan()),
    {
        let estimated_bytes = estimated_decoded_bytes(&dtype, len);
        let plan = ArrayPlan::ScalarFn { dtype, function, inputs, len };
        ArrayFuture::new(len, estimated_bytes, plan)
    }

    /// The values that the codes stand for, and the expression over them.
    pub(crate) fn decoded(
        dtype: DType,
        values: Arc<Vec<ArrayFuture>>,
        codes: ArrayFuture,
        expression: Option<Expression>,
    ) -> (result: ArrayFuture)
        ensures
            result.spec_plan() == (ArrayPlan::Dict { dtype, values, codes, expression }),
            result.spec_len() == codes.spec_len(),
            codes.spec_len() == codes.rows().len(),
            result.spec_estimated_bytes() == plan_estimate(result.spec_plan()),
    {
        let len = codes.len();
        let estimated_bytes = estimated_decoded_bytes(&dtype, len);
        let plan = ArrayPlan::Dict { dtype, values, codes, expression };
        ArrayFuture::new(len, estimated_bytes, plan)
    }
}

/// The value of an expression that may be missing is that of the expression, where there is one.
pub proof fn law_expression_option(expression: Option<Expression>)
    ensures
        match expression {
            Some(e) => expression_option(expression) == Some(e@),
            None => expression_option(expression) is None,
        },
{
}

/// The array that a plan computes is of the type that the plan says, and a slice of its parent's.
pub proof fn law_plan_dtype(plan: ArrayPlan)
    ensures
        match plan {
            ArrayPlan::Ready(array) => plan_dtype(plan) == array.spec_dtype()@,
            ArrayPlan::Segment { dtype, .. } => plan_dtype(plan) == dtype@,
            ArrayPlan::Constant { dtype, .. } => plan_dtype(plan) == dtype@,
            ArrayPlan::Slice { parent, .. } => plan_dtype(plan) == parent.spec_dtype(),
            ArrayPlan::Struct { dtype, .. } => plan_dtype(plan) == dtype@,
            ArrayPlan::ScalarFn { dtype, .. } => plan_dtype(plan) == dtype@,
            ArrayPlan::Dict { dtype, .. } => plan_dtype(plan) == dtype@,
        },
{
}

} // verus!
