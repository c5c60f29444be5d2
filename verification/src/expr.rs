//! Expressions: trees of scalar functions over the rows of a scope.
use vstd::prelude::*;
use std::sync::Arc;
use crate::array::Array;
use crate::dtype::{dtypes_view, made_nullable, names_view, position, DType, Nullability, SpecDType};
use crate::error::{dtype_result, SpecError, VortexError, VortexResult};
use crate::scalar::Scalar;
use crate::stats::StatsSet;

verus! {

/// A scalar function with its options fixed.
pub trait DynScalarFn: Send + Sync {
    /// The type of the result for arguments of the given types.
    spec fn typing(&self, args: Seq<SpecDType>) -> Result<SpecDType, SpecError>;

    /// Whether the function takes `n` arguments.
    spec fn accepts(&self, n: nat) -> bool;

    /// The type of the result for arguments of the given types.
    fn return_dtype(&self, arg_dtypes: &Vec<DType>) -> (result: VortexResult<DType>)
        requires
            self.accepts(arg_dtypes@.len()),
        ensures
            dtype_result(result) == self.typing(dtypes_view(arg_dtypes@)),
    ;

    /// Whether the function takes `n` arguments.
    fn takes(&self, n: usize) -> (result: bool)
        ensures
            result == self.accepts(n as nat),
    ;

    /// Whether a result is one of the function for the given arguments.
    spec fn computes(&self, args: ExecutionArgs, result: VortexResult<Array>) -> bool;

    /// The array of the results.
    fn execute(&self, args: ExecutionArgs) -> (result: VortexResult<Array>)
        requires
            self.accepts(args.inputs@.len()),
        ensures
            self.computes(args, result),
    ;

    /// The name of the function.
    spec fn spec_id(&self) -> Seq<char>;

    /// The name of the function.
    fn id(&self) -> (result: String)
        ensures
            result@ == self.spec_id(),
    ;
}

/// A scalar function of any kind, held by reference.
pub struct FnObject {
    pub(crate) function: Box<dyn DynScalarFn>,
}

impl FnObject {
    /// The type of the result for arguments of the given types.
    pub closed spec fn typing(&self, args: Seq<SpecDType>) -> Result<SpecDType, SpecError> {
        self.function.typing(args)
    }

    /// Whether the function takes `n` arguments.
    pub closed spec fn accepts(&self, n: nat) -> bool {
        self.function.accepts(n)
    }

    /// Whether a result is one of the function for the given arguments.
    pub closed spec fn computes(&self, args: ExecutionArgs, result: VortexResult<Array>) -> bool {
        self.function.computes(args, result)
    }

    /// The name of the function.
    pub closed spec fn spec_id(&self) -> Seq<char> {
        self.function.spec_id()
    }

    /// Whether the function takes `n` arguments.
    pub fn takes(&self, n: usize) -> (result: bool)
        ensures
            result == self.accepts(n as nat),
    {
        self.function.takes(n)
    }

    /// The array of the results.
    pub fn execute(&self, args: ExecutionArgs) -> (result: VortexResult<Array>)
        requires
            self.accepts(args.inputs@.len()),
        ensures
            self.computes(args, result),
    {
        self.function.execute(args)
    }

    /// The name of the function.
    pub fn id(&self) -> (result: String)
        ensures
            result@ == self.spec_id(),
    {
        self.function.id()
    }
}

/// A scalar function: the parts of expressions that readers treat on their own, or any other.
pub enum ScalarFn {
    /// The row of the scope.
    Root,
    /// The same value for every row.
    Literal(Scalar),
    /// A field of a struct.
    GetItem(String),
    /// Any other function.
    Bound(Arc<FnObject>),
}

/// The mathematical value of a [`ScalarFn`].
pub enum SpecScalarFn {
    Root,
    Literal(Scalar),
    GetItem(Seq<char>),
    Bound(Arc<FnObject>),
}

impl View for ScalarFn {
    type V = SpecScalarFn;

    open spec fn view(&self) -> SpecScalarFn {
        match *self {
            ScalarFn::Root => SpecScalarFn::Root,
            ScalarFn::Literal(scalar) => SpecScalarFn::Literal(scalar),
            ScalarFn::GetItem(name) => SpecScalarFn::GetItem(name@),
            ScalarFn::Bound(function) => SpecScalarFn::Bound(function),
        }
    }
}

impl Clone for ScalarFn {
    fn clone(&self) -> (result: ScalarFn)
        ensures
            result == *self,
    {
        match self {
            ScalarFn::Root => ScalarFn::Root,
            ScalarFn::Literal(scalar) => ScalarFn::Literal(scalar.clone()),
            ScalarFn::GetItem(name) => ScalarFn::GetItem(name.clone()),
            ScalarFn::Bound(function) => ScalarFn::Bound(Arc::clone(function)),
        }
    }
}

/// Whether a scalar function takes `n` arguments.
pub open spec fn accepts(function: SpecScalarFn, n: nat) -> bool {
    match function {
        SpecScalarFn::Root => n == 0,
        SpecScalarFn::Literal(_) => n == 0,
        SpecScalarFn::GetItem(_) => n == 1,
        SpecScalarFn::Bound(function) => function.accepts(n),
    }
}

/// The type of a struct's field; in a struct that can be null, so can the field.
pub open spec fn field_type(dtype: SpecDType, name: Seq<char>) -> Result<SpecDType, SpecError> {
    match dtype {
        SpecDType::Struct { names, dtypes, nullability } => match position(names, name) {
            Some(i) => if nullability == Nullability::Nullable {
                Ok(made_nullable(dtypes[i as int]))
            } else {
                Ok(dtypes[i as int])
            },
            None => Err(SpecError::FieldNotFound(name)),
        },
        _ => Err(SpecError::ExpectedStruct),
    }
}

/// The type of a scalar function's result for arguments of the given types.
pub open spec fn typing(function: SpecScalarFn, args: Seq<SpecDType>) -> Result<
    SpecDType,
    SpecError,
> {
    match function {
        SpecScalarFn::Root => Err(SpecError::RootWithoutScope),
        SpecScalarFn::Literal(scalar) => Ok(scalar.dtype@),
        SpecScalarFn::GetItem(name) => field_type(args[0], name),
        SpecScalarFn::Bound(function) => function.typing(args),
    }
}

impl ScalarFn {
    /// The type of the result for arguments of the given types.
    pub fn return_dtype(&self, arg_dtypes: &Vec<DType>) -> (result: VortexResult<DType>)
        requires
            accepts(self@, arg_dtypes@.len()),
        ensures
            dtype_result(result) == typing(self@, dtypes_view(arg_dtypes@)),
    {
        match self {
            ScalarFn::Root => Err(VortexError::RootWithoutScope),
            ScalarFn::Literal(scalar) => Ok(scalar.dtype.clone()),
            ScalarFn::GetItem(name) => {
                assert(dtypes_view(arg_dtypes@)[0] == arg_dtypes@[0]@);
                get_item_dtype(&arg_dtypes[0], name)
            },
            ScalarFn::Bound(function) => function.function.return_dtype(arg_dtypes),
        }
    }
}

/// The type of a struct's field; in a struct that can be null, so can the field.
pub fn get_item_dtype(dtype: &DType, name: &String) -> (result: VortexResult<DType>)
    ensures
        dtype_result(result) == field_type(dtype@, name@),
{
    match dtype {
        DType::Struct(fields, nullability) => {
            let dtypes = fields.dtypes();
            match fields.find(name) {
                Some(i) => {
                    proof {
                        crate::dtype::lemma_position(names_view(fields.spec_names()), name@);
                    }
                    assert(dtypes_view(dtypes@)[i as int] == dtypes@[i as int]@);
                    if *nullability == Nullability::Nullable {
                        Ok(dtypes[i].as_nullable())
                    } else {
                        Ok(dtypes[i].clone())
                    }
                },
                None => Err(VortexError::FieldNotFound(name.clone())),
            }
        },
        _ => Err(VortexError::ExpectedStruct),
    }
}

/// A scalar function applied to further expressions.
pub struct Expression {
    pub function: ScalarFn,
    pub children: Arc<Vec<Expression>>,
}

/// The mathematical value of an [`Expression`].
pub struct SpecExpression {
    pub function: SpecScalarFn,
    pub children: Seq<SpecExpression>,
}

/// The mathematical value of an expression.
pub open spec fn expression_view(expression: Expression) -> SpecExpression
    decreases expression,
{
    SpecExpression {
        function: expression.function@,
        children: expressions_view(expression.children@),
    }
}

/// The mathematical values of a list of expressions.
pub open spec fn expressions_view(expressions: Seq<Expression>) -> Seq<SpecExpression>
    decreases expressions,
{
    Seq::new(
        expressions.len(),
        |i: int|
            if 0 <= i < expressions.len() {
                expression_view(expressions[i])
            } else {
                root_expression()
            },
    )
}

/// The expression of the row itself.
pub open spec fn root_expression() -> SpecExpression {
    SpecExpression { function: SpecScalarFn::Root, children: Seq::empty() }
}

/// The expression of a field of the row.
pub open spec fn field_expression(name: Seq<char>) -> SpecExpression {
    SpecExpression { function: SpecScalarFn::GetItem(name), children: seq![root_expression()] }
}

impl View for Expression {
    type V = SpecExpression;

    open spec fn view(&self) -> SpecExpression {
        expression_view(*self)
    }
}

impl Clone for Expression {
    fn clone(&self) -> (result: Expression)
        ensures
            result == *self,
    {
        Expression { function: self.function.clone(), children: Arc::clone(&self.children) }
    }
}

/// Every function of the expression has as many arguments as it takes.
pub open spec fn valid_expression(e: SpecExpression) -> bool
    decreases e,
{
    &&& accepts(e.function, e.children.len())
    &&& forall|i: int| 0 <= i < e.children.len() ==> valid_expression(#[trigger] e.children[i])
}

/// The type of the expression over rows of the scope's type.
pub open spec fn expression_type(e: SpecExpression, scope: SpecDType) -> Result<
    SpecDType,
    SpecError,
>
    decreases e,
{
    if e.function is Root {
        Ok(scope)
    } else {
        match argument_types(e.children, scope) {
            Ok(args) => typing(e.function, args),
            Err(error) => Err(error),
        }
    }
}

/// The types of the expressions over rows of the scope's type, or the first error among them.
pub open spec fn argument_types(children: Seq<SpecExpression>, scope: SpecDType) -> Result<
    Seq<SpecDType>,
    SpecError,
>
    decreases children,
{
    if children.len() == 0 {
        Ok(Seq::empty())
    } else {
        match argument_types(children.drop_last(), scope) {
            Ok(args) => match expression_type(children.last(), scope) {
                Ok(arg) => Ok(args.push(arg)),
                Err(error) => Err(error),
            },
            Err(error) => Err(error),
        }
    }
}

/// The expression with another in place of the row.
pub open spec fn substituted(e: SpecExpression, inner: SpecExpression) -> SpecExpression
    decreases e,
{
    if e.function is Root {
        inner
    } else {
        SpecExpression { function: e.function, children: all_substituted(e.children, inner) }
    }
}

/// The expressions with another in place of the row.
pub open spec fn all_substituted(children: Seq<SpecExpression>, inner: SpecExpression) -> Seq<
    SpecExpression,
>
    decreases children,
{
    Seq::new(
        children.len(),
        |i: int|
            if 0 <= i < children.len() {
                substituted(children[i], inner)
            } else {
                root_expression()
            },
    )
}

/// The number of functions in an expression.
pub open spec fn size(e: SpecExpression) -> nat
    decreases e,
{
    1 + sizes(e.children)
}

/// The number of functions in a list of expressions.
pub open spec fn sizes(children: Seq<SpecExpression>) -> nat
    decreases children,
{
    if children.len() == 0 {
        0
    } else {
        sizes(children.drop_last()) + size(children.last())
    }
}

/// None of the expressions has more functions than they have together.
pub proof fn lemma_sizes(children: Seq<SpecExpression>, i: int)
    requires
        0 <= i < children.len(),
    ensures
        size(children[i]) <= sizes(children),
    decreases children.len(),
{
    if i < children.len() - 1 {
        lemma_sizes(children.drop_last(), i);
    }
}

/// A valid expression with a valid one in place of the row is valid.
pub proof fn law_substitution_valid(e: SpecExpression, inner: SpecExpression)
    requires
        valid_expression(e),
        valid_expression(inner),
    ensures
        valid_expression(substituted(e, inner)),
    decreases e,
{
    if !(e.function is Root) {
        let result = substituted(e, inner);
        assert forall|i: int| 0 <= i < result.children.len() implies valid_expression(
            #[trigger] result.children[i],
        ) by {
            assert(valid_expression(e.children[i]));
            law_substitution_valid(e.children[i], inner);
        }
    }
}

/// An expression with another in place of the row has the type that it has over the other's.
pub proof fn law_substitution_type(
    e: SpecExpression,
    inner: SpecExpression,
    scope: SpecDType,
    middle: SpecDType,
)
    requires
        expression_type(inner, scope) == Ok::<SpecDType, SpecError>(middle),
    ensures
        expression_type(substituted(e, inner), scope) == expression_type(e, middle),
    decreases e,
{
    if !(e.function is Root) {
        lemma_substituted_arguments(e.children, inner, scope, middle);
    }
}

proof fn lemma_substituted_arguments(
    children: Seq<SpecExpression>,
    inner: SpecExpression,
    scope: SpecDType,
    middle: SpecDType,
)
    requires
        expression_type(inner, scope) == Ok::<SpecDType, SpecError>(middle),
    ensures
        argument_types(all_substituted(children, inner), scope) == argument_types(children, middle),
    decreases children,
{
    if children.len() > 0 {
        let replaced = all_substituted(children, inner);
        assert(replaced.drop_last() =~= all_substituted(children.drop_last(), inner));
        assert(replaced.last() == substituted(children.last(), inner));
        lemma_substituted_arguments(children.drop_last(), inner, scope, middle);
        law_substitution_type(children.last(), inner, scope, middle);
    }
}

impl Expression {
    /// A function applied to further expressions.
    pub fn new(function: ScalarFn, children: Vec<Expression>) -> (result: Expression)
        requires
            accepts(function@, children@.len()),
        ensures
            result@ == (SpecExpression {
                function: function@,
                children: expressions_view(children@),
            }),
            (forall|i: int| 0 <= i < children@.len() ==> valid_expression((#[trigger] children@[i])@))
                ==> valid_expression(result@),
    {
        proof {
            let views = expressions_view(children@);
            assert forall|i: int| 0 <= i < views.len() implies views[i] == (
            #[trigger] children@[i])@ by {}
            if forall|i: int|
                0 <= i < children@.len() ==> valid_expression((#[trigger] children@[i])@) {
                assert forall|i: int| 0 <= i < views.len() implies valid_expression(
                    #[trigger] views[i],
                ) by {
                    assert(valid_expression(children@[i]@));
                }
            }
        }
        Expression { function, children: Arc::new(children) }
    }

    /// The row of the scope.
    pub fn root() -> (result: Expression)
        ensures
            result@ == root_expression(),
            valid_expression(result@),
    {
        let result = Expression { function: ScalarFn::Root, children: Arc::new(Vec::new()) };
        assert(result@.children =~= Seq::empty());
        result
    }

    /// The same value for every row.
    pub fn literal(scalar: Scalar) -> (result: Expression)
        ensures
            result@.function == SpecScalarFn::Literal(scalar),
            result@.children.len() == 0,
            valid_expression(result@),
    {
        Expression { function: ScalarFn::Literal(scalar), children: Arc::new(Vec::new()) }
    }

    /// A field of the struct that another expression gives.
    pub fn get_item(name: String, child: Expression) -> (result: Expression)
        ensures
            result@ == (SpecExpression {
                function: SpecScalarFn::GetItem(name@),
                children: seq![child@],
            }),
            valid_expression(child@) ==> valid_expression(result@),
    {
        let mut children: Vec<Expression> = Vec::new();
        children.push(child);
        let result = Expression { function: ScalarFn::GetItem(name), children: Arc::new(children) };
        assert(result@.children =~= seq![child@]);
        result
    }

    /// The function at the top of the expression.
    pub fn scalar_fn(&self) -> (result: &ScalarFn)
        ensures
            result@ == self@.function,
    {
        &self.function
    }

    /// The type of the expression over rows of the scope's type.
    pub fn return_dtype(&self, scope: &DType) -> (result: VortexResult<DType>)
        requires
            valid_expression(self@),
        ensures
            dtype_result(result) == expression_type(self@, scope@),
        decreases self,
    {
        match &self.function {
            ScalarFn::Root => {
                return Ok(scope.clone());
            },
            _ => {},
        }
        let ghost children = expressions_view(self.children@);
        let mut args: Vec<DType> = Vec::new();
        let mut i: usize = 0;
        assert(children.take(0) =~= Seq::<SpecExpression>::empty());
        assert(dtypes_view(args@) =~= Seq::<SpecDType>::empty());
        while i < self.children.len()
            invariant
                i <= self.children.len(),
                valid_expression(self@),
                children == expressions_view(self.children@),
                argument_types(children.take(i as int), scope@) == Ok::<
                    Seq<SpecDType>,
                    SpecError,
                >(dtypes_view(args@)),
                args@.len() == i,
                !(self@.function is Root),
            decreases self.children.len() - i,
        {
            let ghost next = children.take(i + 1);
            proof {
                assert(next.drop_last() =~= children.take(i as int));
                assert(next.last() == children[i as int]);
                assert(children[i as int] == self.children@[i as int]@);
                assert(valid_expression(self@.children[i as int]));
            }
            let ghost before = dtypes_view(args@);
            match self.children[i].return_dtype(scope) {
                Ok(arg) => {
                    args.push(arg);
                    assert(dtypes_view(args@) =~= before.push(arg@));
                },
                Err(error) => {
                    proof {
                        lemma_argument_error(children, scope@, i as int);
                    }
                    return Err(error);
                },
            }
            i = i + 1;
        }
        assert(children.take(children.len() as int) =~= children);
        self.function.return_dtype(&args)
    }

    /// The expression with another in place of the row.
    pub fn replace_root(&self, inner: &Expression) -> (result: Expression)
        ensures
            result@ == substituted(self@, inner@),
        decreases self,
    {
        match &self.function {
            ScalarFn::Root => {
                return inner.clone();
            },
            _ => {},
        }
        let ghost old_children = expressions_view(self.children@);
        let mut children: Vec<Expression> = Vec::new();
        let mut i: usize = 0;
        while i < self.children.len()
            invariant
                i <= self.children.len(),
                children@.len() == i,
                old_children == expressions_view(self.children@),
                forall|j: int|
                    0 <= j < i ==> (#[trigger] children@[j])@ == substituted(
                        old_children[j],
                        inner@,
                    ),
            decreases self.children.len() - i,
        {
            assert(old_children[i as int] == self.children@[i as int]@);
            children.push(self.children[i].replace_root(inner));
            i = i + 1;
        }
        let result = Expression { function: self.function.clone(), children: Arc::new(children) };
        assert(result@.children =~= all_substituted(old_children, inner@));
        result
    }
}

/// The first error among the arguments is the error of them all.
proof fn lemma_argument_error(children: Seq<SpecExpression>, scope: SpecDType, i: int)
    requires
        0 <= i < children.len(),
        argument_types(children.take(i), scope) is Ok,
        expression_type(children[i], scope) is Err,
    ensures
        argument_types(children, scope) == Err::<Seq<SpecDType>, SpecError>(
            expression_type(children[i], scope)->Err_0,
        ),
    decreases children.len(),
{
    if i == children.len() - 1 {
        assert(children.drop_last() =~= children.take(i));
    } else {
        let front = children.drop_last();
        assert(front.take(i) =~= children.take(i));
        lemma_argument_error(front, scope, i);
    }
}

/// How many arguments a scalar function takes.
#[derive(Debug, Clone, Copy, PartialEq, Eq, Structural)]
pub enum Arity {
    /// So many.
    Exact(usize),
    /// At least so many, and at most so many where there is an upper bound.
    Variadic { min: usize, max: Option<usize> },
}

impl Arity {
    /// Whether so many arguments are taken.
    pub open spec fn takes(self, n: nat) -> bool {
        match self {
            Arity::Exact(count) => n == count,
            Arity::Variadic { min, max } => {
                &&& n >= min
                &&& max matches Some(max) ==> n <= max
            },
        }
    }

    /// Whether so many arguments are enough.
    pub open spec fn suffices(self, n: nat) -> bool {
        match self {
            Arity::Exact(count) => n >= count,
            Arity::Variadic { min, .. } => n >= min,
        }
    }

    /// Whether so many arguments are taken.
    pub fn admits(self, n: usize) -> (result: bool)
        ensures
            result == self.takes(n as nat),
    {
        match self {
            Arity::Exact(count) => n == count,
            Arity::Variadic { min, max } => match max {
                Some(max) => min <= n && n <= max,
                None => min <= n,
            },
        }
    }
}

/// What a scalar function is computed from.
pub struct ExecutionArgs {
    /// The arrays that are its arguments.
    pub inputs: Vec<InputArray>,
    /// The number of rows.
    pub row_count: usize,
}

/// An array, by its type, by what is known of its elements, and by the elements where they are at hand.
pub struct InputArray {
    pub dtype: DType,
    pub statistics: StatsSet,
    pub elements: Option<Array>,
}

/// A kind of scalar function, to be given its options.
pub trait VTable: Sized + Send + Sync {
    /// The options.
    type Options: Send + Sync;

    /// How many arguments the function takes.
    spec fn spec_arity(&self, options: &Self::Options) -> Arity;

    /// The type of the result for arguments of the given types.
    spec fn spec_typing(&self, options: &Self::Options, args: Seq<SpecDType>) -> Result<
        SpecDType,
        SpecError,
    >;

    /// Whether a result is one of the function for the given arguments.
    spec fn spec_computes(
        &self,
        options: &Self::Options,
        args: ExecutionArgs,
        result: VortexResult<Array>,
    ) -> bool;

    /// Whether a result is one of looking for an expression that is simpler than the given one.
    spec fn spec_simplifies(
        &self,
        options: &Self::Options,
        expr: SpecExpression,
        result: VortexResult<Option<Expression>>,
    ) -> bool;

    /// The name of the function.
    spec fn spec_id(&self) -> Seq<char>;

    /// The name of an argument.
    spec fn spec_child_name(&self, options: &Self::Options, child_idx: usize) -> Seq<char>;

    /// The name of the function.
    fn id(&self) -> (result: String)
        ensures
            result@ == self.spec_id(),
    ;

    /// How many arguments the function takes.
    fn arity(&self, options: &Self::Options) -> (result: Arity)
        ensures
            result == self.spec_arity(options),
    ;

    /// The name of an argument.
    fn child_name(&self, options: &Self::Options, child_idx: usize) -> (result: String)
        ensures
            result@ == self.spec_child_name(options, child_idx),
    ;

    /// The type of the result for arguments of the given types.
    fn return_dtype(&self, options: &Self::Options, arg_dtypes: &Vec<DType>) -> (result:
        VortexResult<DType>)
        requires
            self.spec_arity(options).suffices(arg_dtypes@.len()),
        ensures
            dtype_result(result) == self.spec_typing(options, dtypes_view(arg_dtypes@)),
    ;

    /// The array of the results.
    fn execute(&self, options: &Self::Options, args: ExecutionArgs) -> (result: VortexResult<Array>)
        requires
            self.spec_arity(options).suffices(args.inputs@.len()),
        ensures
            self.spec_computes(options, args, result),
    ;

    /// A simpler expression of the same value, where there is one.
    fn simplify(&self, options: &Self::Options, expr: &Expression) -> (result: VortexResult<
        Option<Expression>,
    >)
        ensures
            self.spec_simplifies(options, expr@, result),
    ;
}

/// A kind of scalar function with its options.
pub struct BoundFn<V: VTable> {
    pub vtable: V,
    pub options: V::Options,
}

impl<V: VTable> DynScalarFn for BoundFn<V> {
    open spec fn typing(&self, args: Seq<SpecDType>) -> Result<SpecDType, SpecError> {
        self.vtable.spec_typing(&self.options, args)
    }

    open spec fn accepts(&self, n: nat) -> bool {
        self.vtable.spec_arity(&self.options).takes(n)
    }

    open spec fn computes(&self, args: ExecutionArgs, result: VortexResult<Array>) -> bool {
        self.vtable.spec_computes(&self.options, args, result)
    }

    open spec fn spec_id(&self) -> Seq<char> {
        self.vtable.spec_id()
    }

    fn return_dtype(&self, arg_dtypes: &Vec<DType>) -> VortexResult<DType> {
        self.vtable.return_dtype(&self.options, arg_dtypes)
    }

    fn takes(&self, n: usize) -> bool {
        self.vtable.arity(&self.options).admits(n)
    }

    fn execute(&self, args: ExecutionArgs) -> VortexResult<Array> {
        self.vtable.execute(&self.options, args)
    }

    fn id(&self) -> String {
        self.vtable.id()
    }
}

/// Functions and expressions of a kind of scalar function.
pub trait VTableExt: VTable {
    /// The function with the given options.
    fn bind(self, options: Self::Options) -> (result: ScalarFn) where
        Self: 'static,
        Self::Options: 'static,

        ensures
            forall|n: nat|
                #[trigger] accepts(result@, n) == self.spec_arity(&options).takes(n),
            forall|args: Seq<SpecDType>|
                #[trigger] typing(result@, args) == self.spec_typing(&options, args),
            result matches ScalarFn::Bound(object) && {
                &&& object.spec_id() == self.spec_id()
                &&& forall|args: ExecutionArgs, value: VortexResult<Array>| #[trigger]
                    object.computes(args, value) == self.spec_computes(&options, args, value)
            },
    {
        let bound = Box::new(BoundFn { vtable: self, options });
        let ghost concrete = *bound;
        let object = FnObject { function: bound };
        proof {
            assert forall|args: Seq<SpecDType>| object.typing(args) == concrete.typing(args) by {}
            assert forall|n: nat| object.accepts(n) == concrete.accepts(n) by {}
            assert forall|args: ExecutionArgs, value: VortexResult<Array>|
                object.computes(args, value) == concrete.computes(args, value) by {}
        }
        ScalarFn::Bound(Arc::new(object))
    }

    /// The function with the given options, applied to further expressions.
    fn new_expr(self, options: Self::Options, children: Vec<Expression>) -> (result: Expression) where
        Self: 'static,
        Self::Options: 'static,

        requires
            self.spec_arity(&options).takes(children@.len()),
        ensures
            result@.children == expressions_view(children@),
            result@.function matches SpecScalarFn::Bound(object) && {
                &&& object.spec_id() == self.spec_id()
                &&& forall|args: ExecutionArgs, value: VortexResult<Array>| #[trigger]
                    object.computes(args, value) == self.spec_computes(&options, args, value)
            },
            forall|n: nat|
                #[trigger] accepts(result@.function, n) == self.spec_arity(&options).takes(n),
            forall|args: Seq<SpecDType>|
                #[trigger] typing(result@.function, args) == self.spec_typing(&options, args),
            (forall|i: int| 0 <= i < children@.len() ==> valid_expression((#[trigger] children@[i])@))
                ==> valid_expression(result@),
    {
        Expression::new(self.bind(options), children)
    }
}

impl<V: VTable> VTableExt for V {

}

/// The value of an expression is that of its function over those of its arguments, in their order.
pub proof fn law_expression_view(e: Expression)
    ensures
        e@.function == e.function@,
        e@.children.len() == e.children@.len(),
        forall|i: int| 0 <= i < e.children@.len() ==> #[trigger] e@.children[i] == e.children@[i]@,
{
}

/// The row and a literal take no arguments, and a field takes one.
pub proof fn law_accepts(function: SpecScalarFn, n: nat)
    ensures
        match function {
            SpecScalarFn::Root | SpecScalarFn::Literal(_) => accepts(function, n) <==> n == 0,
            SpecScalarFn::GetItem(_) => accepts(function, n) <==> n == 1,
            SpecScalarFn::Bound(object) => accepts(function, n) <==> object.accepts(n),
        },
{
}

/// An exact number of arguments is that number; otherwise the number lies between the bounds that
/// there are.
pub proof fn law_arity(arity: Arity, n: nat)
    ensures
        match arity {
            Arity::Exact(count) => arity.takes(n) <==> n == count,
            Arity::Variadic { min, max: Some(max) } => arity.takes(n) <==> min <= n <= max,
            Arity::Variadic { min, max: None } => arity.takes(n) <==> min <= n,
        },
        arity.takes(n) ==> arity.suffices(n),
{
}

/// A field has the type at the first place of its name, which can be null where the struct can. There is
/// none where the struct has no field of the name, or the type is no struct's.
pub proof fn law_field_type(dtype: SpecDType, name: Seq<char>)
    ensures
        match field_type(dtype, name) {
            Ok(own) => dtype matches SpecDType::Struct { names, dtypes, nullability } && exists|i: int|
                {
                    &&& 0 <= i < names.len()
                    &&& #[trigger] names[i] == name
                    &&& forall|j: int| 0 <= j < i ==> #[trigger] names[j] != name
                    &&& own == if nullability == Nullability::Nullable {
                        made_nullable(dtypes[i])
                    } else {
                        dtypes[i]
                    }
                },
            Err(SpecError::FieldNotFound(asked)) => {
                &&& asked == name
                &&& dtype matches SpecDType::Struct { names, .. } && forall|i: int|
                    0 <= i < names.len() ==> #[trigger] names[i] != name
            },
            Err(SpecError::ExpectedStruct) => !(dtype is Struct),
            Err(_) => false,
        },
{
    if let SpecDType::Struct { names, .. } = dtype {
        crate::dtype::lemma_position(names, name);
    }
}

/// The row has the type of the scope, and a literal its own. Any other expression has the type that its
/// function gives for the types of its arguments, in their order, or the first error among these.
pub proof fn law_expression_type(e: SpecExpression, scope: SpecDType)
    ensures
        e.function is Root ==> expression_type(e, scope) == Ok::<SpecDType, SpecError>(scope),
        e.function is Literal && e.children.len() == 0 ==> expression_type(e, scope) == Ok::<
            SpecDType,
            SpecError,
        >(e.function->Literal_0.dtype@),
        !(e.function is Root) ==> match argument_types(e.children, scope) {
            Ok(args) => {
                &&& args.len() == e.children.len()
                &&& forall|i: int|
                    0 <= i < args.len() ==> expression_type(#[trigger] e.children[i], scope) == Ok::<
                        SpecDType,
                        SpecError,
                    >(args[i])
                &&& expression_type(e, scope) == typing(e.function, args)
            },
            Err(error) => {
                &&& expression_type(e, scope) == Err::<SpecDType, SpecError>(error)
                &&& exists|i: int|
                    {
                        &&& 0 <= i < e.children.len()
                        &&& expression_type(#[trigger] e.children[i], scope) == Err::<
                            SpecDType,
                            SpecError,
                        >(error)
                        &&& forall|j: int|
                            0 <= j < i ==> expression_type(#[trigger] e.children[j], scope) is Ok
                    }
            },
        },
{
    lemma_argument_types(e.children, scope);
}

proof fn lemma_argument_types(children: Seq<SpecExpression>, scope: SpecDType)
    ensures
        match argument_types(children, scope) {
            Ok(args) => {
                &&& args.len() == children.len()
                &&& forall|i: int|
                    0 <= i < args.len() ==> expression_type(#[trigger] children[i], scope) == Ok::<
                        SpecDType,
                        SpecError,
                    >(args[i])
            },
            Err(error) => exists|i: int|
                {
                    &&& 0 <= i < children.len()
                    &&& expression_type(#[trigger] children[i], scope) == Err::<SpecDType, SpecError>(
                        error,
                    )
                    &&& forall|j: int|
                        0 <= j < i ==> expression_type(#[trigger] children[j], scope) is Ok
                },
        },
    decreases children.len(),
{
    if children.len() > 0 {
        let front = children.drop_last();
        lemma_argument_types(front, scope);
        match argument_types(front, scope) {
            Ok(args) => {
                assert forall|i: int| 0 <= i < front.len() implies expression_type(
                    #[trigger] children[i],
                    scope,
                ) == Ok::<SpecDType, SpecError>(args[i]) by {
                    assert(front[i] == children[i]);
                }
                assert(children[children.len() - 1] == children.last());
            },
            Err(error) => {
                let i = choose|i: int|
                    {
                        &&& 0 <= i < front.len()
                        &&& expression_type(#[trigger] front[i], scope) == Err::<SpecDType, SpecError>(
                            error,
                        )
                        &&& forall|j: int|
                            0 <= j < i ==> expression_type(#[trigger] front[j], scope) is Ok
                    };
                assert(children[i] == front[i]);
                assert forall|j: int| 0 <= j < i implies expression_type(
                    #[trigger] children[j],
                    scope,
                ) is Ok by {
                    assert(front[j] == children[j]);
                }
            },
        }
    }
}

/// The type of a field is that of the argument's field, and of any other function what it says.
pub proof fn law_typing(function: SpecScalarFn, args: Seq<SpecDType>)
    ensures
        match function {
            SpecScalarFn::Root => typing(function, args) == Err::<SpecDType, SpecError>(
                SpecError::RootWithoutScope,
            ),
            SpecScalarFn::Literal(scalar) => typing(function, args) == Ok::<SpecDType, SpecError>(
                scalar.dtype@,
            ),
            SpecScalarFn::GetItem(name) => typing(function, args) == field_type(args[0], name),
            SpecScalarFn::Bound(object) => typing(function, args) == object.typing(args),
        },
{
}

/// Putting an expression in place of the row replaces the row wherever it stands, and nothing else.
pub proof fn law_substituted(e: SpecExpression, inner: SpecExpression)
    ensures
        e.function is Root ==> substituted(e, inner) == inner,
        !(e.function is Root) ==> {
            &&& substituted(e, inner).function == e.function
            &&& substituted(e, inner).children.len() == e.children.len()
            &&& forall|i: int|
                0 <= i < e.children.len() ==> #[trigger] substituted(e, inner).children[i]
                    == substituted(e.children[i], inner)
        },
{
}

/// The value of a scalar function is the function of the same name, with what it holds.
pub proof fn law_function_view(function: ScalarFn)
    ensures
        match (function, function@) {
            (ScalarFn::Root, SpecScalarFn::Root) => true,
            (ScalarFn::Literal(scalar), SpecScalarFn::Literal(own)) => scalar == own,
            (ScalarFn::GetItem(name), SpecScalarFn::GetItem(own)) => name@ == own,
            (ScalarFn::Bound(object), SpecScalarFn::Bound(own)) => object == own,
            _ => false,
        },
{
}

/// The expression of the row is the row, without arguments; that of a field is the field, of the row.
pub proof fn law_simple_expressions(name: Seq<char>)
    ensures
        root_expression().function is Root,
        root_expression().children.len() == 0,
        field_expression(name).function == SpecScalarFn::GetItem(name),
        field_expression(name).children.len() == 1,
        field_expression(name).children[0].function is Root,
        field_expression(name).children[0].children.len() == 0,
{
}

} // verus!
