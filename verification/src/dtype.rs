//! Logical types, and the decoded size of a column of a given type.
use vstd::prelude::*;
use std::sync::Arc;

verus! {

/// Whether a type admits null.
#[derive(Debug, Clone, Copy, PartialEq, Eq, Structural)]
pub enum Nullability {
    /// Null is not a value of the type.
    NonNullable,
    /// Null is a value of the type.
    Nullable,
}

/// The fixed-width numeric types.
#[derive(Debug, Clone, Copy, PartialEq, Eq, Structural)]
pub enum PType {
    U8,
    U16,
    U32,
    U64,
    I8,
    I16,
    I32,
    I64,
    F16,
    F32,
    F64,
}

/// The precision and scale of a decimal type.
#[derive(Debug, Clone, Copy, PartialEq, Eq, Structural)]
pub struct DecimalDType {
    precision: u8,
    scale: i8,
}

impl DecimalDType {
    /// The number of significant digits.
    pub closed spec fn spec_precision(self) -> u8 {
        self.precision
    }

    /// The number of digits after the decimal point, or of zeros before it where negative.
    pub closed spec fn spec_scale(self) -> i8 {
        self.scale
    }

    /// The type of the given precision and scale.
    pub closed spec fn spec_new(precision: u8, scale: i8) -> DecimalDType {
        DecimalDType { precision, scale }
    }

    #[verifier::type_invariant]
    pub(crate) closed spec fn valid(self) -> bool {
        valid_decimal(self.precision, self.scale)
    }

    /// The decimals of up to `precision` digits, `scale` of them after the decimal point.
    pub fn new(precision: u8, scale: i8) -> (result: DecimalDType)
        requires
            valid_decimal(precision, scale),
        ensures
            result == DecimalDType::spec_new(precision, scale),
            result.spec_precision() == precision,
            result.spec_scale() == scale,
    {
        DecimalDType { precision, scale }
    }

    /// The number of significant digits.
    pub fn precision(&self) -> (result: u8)
        ensures
            result == self.spec_precision(),
            valid_decimal(self.spec_precision(), self.spec_scale()),
    {
        proof {
            use_type_invariant(self);
        }
        self.precision
    }

    /// The number of digits after the decimal point, or of zeros before it where negative.
    pub fn scale(&self) -> (result: i8)
        ensures
            result == self.spec_scale(),
            valid_decimal(self.spec_precision(), self.spec_scale()),
    {
        proof {
            use_type_invariant(self);
        }
        self.scale
    }
}

/// The names and types of a struct's fields, in order.
#[derive(Debug)]
pub struct StructFields {
    names: Vec<String>,
    dtypes: Vec<DType>,
}

impl StructFields {
    /// The names of the fields.
    pub closed spec fn spec_names(&self) -> Seq<String> {
        self.names@
    }

    /// The types of the fields.
    pub closed spec fn spec_dtypes(&self) -> Seq<DType> {
        self.dtypes@
    }

    #[verifier::type_invariant]
    pub(crate) closed spec fn valid(self) -> bool {
        self.names@.len() == self.dtypes@.len()
    }

    /// A field's type is part of the struct's.
    pub(crate) proof fn lemma_dtype_inside(&self, i: int)
        requires
            0 <= i < self.spec_dtypes().len(),
        ensures
            decreases_to!(self => self.spec_dtypes()[i]),
    {
        assert(decreases_to!(self => self.dtypes));
        assert(decreases_to!(self.dtypes => self.dtypes@));
        assert(decreases_to!(self.dtypes@ => self.dtypes@[i]));
    }

    /// Fields of the given names and types.
    pub fn new(names: Vec<String>, dtypes: Vec<DType>) -> (result: StructFields)
        requires
            names@.len() == dtypes@.len(),
        ensures
            result.spec_names() == names@,
            result.spec_dtypes() == dtypes@,
    {
        StructFields { names, dtypes }
    }

    /// The names of the fields.
    pub fn names(&self) -> (result: &Vec<String>)
        ensures
            result@ == self.spec_names(),
            self.spec_names().len() == self.spec_dtypes().len(),
    {
        proof {
            use_type_invariant(self);
        }
        &self.names
    }

    /// The types of the fields.
    pub fn dtypes(&self) -> (result: &Vec<DType>)
        ensures
            result@ == self.spec_dtypes(),
            self.spec_names().len() == self.spec_dtypes().len(),
    {
        proof {
            use_type_invariant(self);
        }
        &self.dtypes
    }
}

/// A named type stored as another type.
#[derive(Debug)]
pub struct ExtDType {
    pub id: String,
    pub storage_dtype: DType,
    pub metadata: Option<Vec<u8>>,
}

/// The logical type of the elements of an array.
#[derive(Debug)]
pub enum DType {
    Null,
    Bool(Nullability),
    Primitive(PType, Nullability),
    Decimal(DecimalDType, Nullability),
    Utf8(Nullability),
    Binary(Nullability),
    List(Arc<DType>, Nullability),
    FixedSizeList(Arc<DType>, u32, Nullability),
    Struct(Arc<StructFields>, Nullability),
    Extension(Arc<ExtDType>),
}

/// The mathematical value of a [`DType`].
pub enum SpecDType {
    Null,
    Bool(Nullability),
    Primitive(PType, Nullability),
    Decimal(DecimalDType, Nullability),
    Utf8(Nullability),
    Binary(Nullability),
    List(Box<SpecDType>, Nullability),
    FixedSizeList(Box<SpecDType>, u32, Nullability),
    Struct { names: Seq<Seq<char>>, dtypes: Seq<SpecDType>, nullability: Nullability },
    Extension { id: Seq<char>, storage: Box<SpecDType>, metadata: Option<Seq<u8>> },
}

/// The views of a list of strings.
pub open spec fn names_view(names: Seq<String>) -> Seq<Seq<char>> {
    Seq::new(names.len(), |i: int| names[i]@)
}

/// The views of a list of types.
pub open spec fn dtypes_view(dtypes: Seq<DType>) -> Seq<SpecDType>
    decreases dtypes,
{
    Seq::new(
        dtypes.len(),
        |i: int|
            if 0 <= i < dtypes.len() {
                dtype_view(dtypes[i])
            } else {
                SpecDType::Null
            },
    )
}

/// The mathematical value of a type.
pub open spec fn dtype_view(dtype: DType) -> SpecDType
    decreases dtype,
{
    match dtype {
        DType::Null => SpecDType::Null,
        DType::Bool(n) => SpecDType::Bool(n),
        DType::Primitive(p, n) => SpecDType::Primitive(p, n),
        DType::Decimal(d, n) => SpecDType::Decimal(d, n),
        DType::Utf8(n) => SpecDType::Utf8(n),
        DType::Binary(n) => SpecDType::Binary(n),
        DType::List(e, n) => SpecDType::List(Box::new(dtype_view(*e)), n),
        DType::FixedSizeList(e, size, n) => SpecDType::FixedSizeList(
            Box::new(dtype_view(*e)),
            size,
            n,
        ),
        DType::Struct(f, n) => SpecDType::Struct {
            names: names_view(f.spec_names()),
            dtypes: dtypes_view(f.spec_dtypes()),
            nullability: n,
        },
        DType::Extension(x) => SpecDType::Extension {
            id: x.id@,
            storage: Box::new(dtype_view(x.storage_dtype)),
            metadata: match x.metadata {
                Some(m) => Some(m@),
                None => None,
            },
        },
    }
}

impl View for DType {
    type V = SpecDType;

    open spec fn view(&self) -> SpecDType {
        dtype_view(*self)
    }
}

impl Clone for DType {
    fn clone(&self) -> (result: DType)
        ensures
            result == *self,
    {
        match self {
            DType::Null => DType::Null,
            DType::Bool(n) => DType::Bool(*n),
            DType::Primitive(p, n) => DType::Primitive(*p, *n),
            DType::Decimal(d, n) => DType::Decimal(*d, *n),
            DType::Utf8(n) => DType::Utf8(*n),
            DType::Binary(n) => DType::Binary(*n),
            DType::List(e, n) => DType::List(Arc::clone(e), *n),
            DType::FixedSizeList(e, size, n) => DType::FixedSizeList(Arc::clone(e), *size, *n),
            DType::Struct(f, n) => DType::Struct(Arc::clone(f), *n),
            DType::Extension(x) => DType::Extension(Arc::clone(x)),
        }
    }
}

/// The precisions and scales that a decimal type can have.
pub open spec fn valid_decimal(precision: u8, scale: i8) -> bool {
    &&& 1 <= precision <= 76
    &&& scale <= 76
    &&& scale <= precision
}

/// Whether null is a value of the type.
pub open spec fn nullable(d: SpecDType) -> bool
    decreases d,
{
    match d {
        SpecDType::Null => true,
        SpecDType::Bool(n) => n == Nullability::Nullable,
        SpecDType::Primitive(_, n) => n == Nullability::Nullable,
        SpecDType::Decimal(_, n) => n == Nullability::Nullable,
        SpecDType::Utf8(n) => n == Nullability::Nullable,
        SpecDType::Binary(n) => n == Nullability::Nullable,
        SpecDType::List(_, n) => n == Nullability::Nullable,
        SpecDType::FixedSizeList(_, _, n) => n == Nullability::Nullable,
        SpecDType::Struct { nullability, .. } => nullability == Nullability::Nullable,
        SpecDType::Extension { storage, .. } => nullable(*storage),
    }
}

/// The same type, with null among its values.
pub open spec fn made_nullable(d: SpecDType) -> SpecDType
    decreases d,
{
    match d {
        SpecDType::Null => SpecDType::Null,
        SpecDType::Bool(_) => SpecDType::Bool(Nullability::Nullable),
        SpecDType::Primitive(p, _) => SpecDType::Primitive(p, Nullability::Nullable),
        SpecDType::Decimal(dd, _) => SpecDType::Decimal(dd, Nullability::Nullable),
        SpecDType::Utf8(_) => SpecDType::Utf8(Nullability::Nullable),
        SpecDType::Binary(_) => SpecDType::Binary(Nullability::Nullable),
        SpecDType::List(e, _) => SpecDType::List(e, Nullability::Nullable),
        SpecDType::FixedSizeList(e, size, _) => SpecDType::FixedSizeList(
            e,
            size,
            Nullability::Nullable,
        ),
        SpecDType::Struct { names, dtypes, .. } => SpecDType::Struct {
            names,
            dtypes,
            nullability: Nullability::Nullable,
        },
        SpecDType::Extension { id, storage, metadata } => SpecDType::Extension {
            id,
            storage: Box::new(made_nullable(*storage)),
            metadata,
        },
    }
}

/// The position of the first of `names` that equals `name`.
pub open spec fn position(names: Seq<Seq<char>>, name: Seq<char>) -> Option<nat>
    decreases names.len(),
{
    if names.len() == 0 {
        None
    } else {
        match position(names.drop_last(), name) {
            Some(i) => Some(i),
            None => if names.last() == name {
                Some((names.len() - 1) as nat)
            } else {
                None
            },
        }
    }
}

/// `position` gives the first place where the name stands, and nothing where it does not occur.
pub proof fn lemma_position(names: Seq<Seq<char>>, name: Seq<char>)
    ensures
        match position(names, name) {
            Some(i) => i < names.len() && names[i as int] == name && forall|j: int|
                0 <= j < i ==> names[j] != name,
            None => forall|j: int| 0 <= j < names.len() ==> names[j] != name,
        },
    decreases names.len(),
{
    if names.len() > 0 {
        lemma_position(names.drop_last(), name);
        let front = names.drop_last();
        assert forall|j: int| 0 <= j < front.len() implies names[j] == front[j] by {}
    }
}

/// Null stays the only thing that making a type nullable adds.
pub proof fn lemma_made_nullable(d: SpecDType)
    ensures
        nullable(made_nullable(d)),
        made_nullable(made_nullable(d)) == made_nullable(d),
    decreases d,
{
    match d {
        SpecDType::Extension { storage, .. } => {
            lemma_made_nullable(*storage);
        },
        _ => {},
    }
}

impl StructFields {
    /// The position of the first field called `name`.
    pub fn find(&self, name: &String) -> (result: Option<usize>)
        ensures
            match result {
                Some(i) => position(names_view(self.spec_names()), name@) == Some(i as nat),
                None => position(names_view(self.spec_names()), name@) is None,
            },
            match result {
                Some(i) => {
                    &&& i < self.spec_names().len()
                    &&& self.spec_names()[i as int]@ == name@
                    &&& forall|j: int| 0 <= j < i ==> (#[trigger] self.spec_names()[j])@ != name@
                },
                None => forall|j: int|
                    0 <= j < self.spec_names().len() ==> (#[trigger] self.spec_names()[j])@ != name@,
            },
    {
        let ghost names = names_view(self.spec_names());
        let mut i: usize = 0;
        proof {
            lemma_position(names, name@);
        }
        while i < self.names.len()
            invariant
                i <= self.names.len(),
                names == names_view(self.spec_names()),
                forall|j: int| 0 <= j < i ==> names[j] != name@,
                forall|j: int| 0 <= j < i ==> (#[trigger] self.spec_names()[j])@ != name@,
                match position(names, name@) {
                    Some(i) => i < names.len() && names[i as int] == name@ && forall|j: int|
                        0 <= j < i ==> names[j] != name@,
                    None => forall|j: int| 0 <= j < names.len() ==> names[j] != name@,
                },
            decreases self.names.len() - i,
        {
            if self.names[i] == *name {
                assert(names[i as int] == name@);
                return Some(i);
            }
            assert(names[i as int] != name@);
            i = i + 1;
        }
        None
    }
}

impl DType {
    /// Whether null is a value of the type.
    pub fn is_nullable(&self) -> (result: bool)
        ensures
            result == nullable(self@),
        decreases self,
    {
        match self {
            DType::Null => true,
            DType::Bool(n) => *n == Nullability::Nullable,
            DType::Primitive(_, n) => *n == Nullability::Nullable,
            DType::Decimal(_, n) => *n == Nullability::Nullable,
            DType::Utf8(n) => *n == Nullability::Nullable,
            DType::Binary(n) => *n == Nullability::Nullable,
            DType::List(_, n) => *n == Nullability::Nullable,
            DType::FixedSizeList(_, _, n) => *n == Nullability::Nullable,
            DType::Struct(_, n) => *n == Nullability::Nullable,
            DType::Extension(x) => x.storage_dtype.is_nullable(),
        }
    }

    /// Whether null is a value of the type, as a [`Nullability`].
    pub fn nullability(&self) -> (result: Nullability)
        ensures
            result == if nullable(self@) {
                Nullability::Nullable
            } else {
                Nullability::NonNullable
            },
    {
        if self.is_nullable() {
            Nullability::Nullable
        } else {
            Nullability::NonNullable
        }
    }

    /// The same type, with null among its values.
    pub fn as_nullable(&self) -> (result: DType)
        ensures
            result@ == made_nullable(self@),
        decreases self,
    {
        match self {
            DType::Null => DType::Null,
            DType::Bool(_) => DType::Bool(Nullability::Nullable),
            DType::Primitive(p, _) => DType::Primitive(*p, Nullability::Nullable),
            DType::Decimal(d, _) => DType::Decimal(*d, Nullability::Nullable),
            DType::Utf8(_) => DType::Utf8(Nullability::Nullable),
            DType::Binary(_) => DType::Binary(Nullability::Nullable),
            DType::List(e, _) => DType::List(Arc::clone(e), Nullability::Nullable),
            DType::FixedSizeList(e, size, _) => DType::FixedSizeList(
                Arc::clone(e),
                *size,
                Nullability::Nullable,
            ),
            DType::Struct(f, _) => DType::Struct(Arc::clone(f), Nullability::Nullable),
            DType::Extension(x) => {
                let storage_dtype = x.storage_dtype.as_nullable();
                let metadata = match &x.metadata {
                    Some(m) => Some(copy_bytes(m)),
                    None => None,
                };
                DType::Extension(
                    Arc::new(ExtDType { id: x.id.clone(), storage_dtype, metadata }),
                )
            },
        }
    }

    /// The type of numbers that the type is one of.
    pub fn ptype(&self) -> (result: PType)
        requires
            self is Primitive,
        ensures
            result == self->Primitive_0,
    {
        match self {
            DType::Primitive(ptype, _) => *ptype,
            _ => vstd::pervasive::unreached(),
        }
    }

    /// The fields of a struct type.
    pub fn as_struct_fields_opt(&self) -> (result: Option<&StructFields>)
        ensures
            match result {
                Some(f) => self@ matches SpecDType::Struct { names, dtypes, .. } && names
                    == names_view(f.spec_names()) && dtypes == dtypes_view(f.spec_dtypes()),
                None => !(self@ is Struct),
            },
    {
        match self {
            DType::Struct(f, _) => Some(f),
            _ => None,
        }
    }
}

/// A copy of a byte string.
fn copy_bytes(bytes: &Vec<u8>) -> (result: Vec<u8>)
    ensures
        result@ == bytes@,
{
    let mut result: Vec<u8> = Vec::new();
    let mut i: usize = 0;
    while i < bytes.len()
        invariant
            i <= bytes.len(),
            result@ == bytes@.take(i as int),
        decreases bytes.len() - i,
    {
        result.push(bytes[i]);
        assert(bytes@.take(i + 1) =~= bytes@.take(i as int).push(bytes@[i as int]));
        i = i + 1;
    }
    assert(bytes@.take(bytes@.len() as int) =~= bytes@);
    result
}

/// The value of a type is of the same kind, of the same numbers, precision, length and nullability, and
/// of the values of its parts in their order.
pub proof fn law_dtype_view(dtype: DType)
    ensures
        match dtype {
            DType::Null => dtype@ == SpecDType::Null,
            DType::Bool(n) => dtype@ == SpecDType::Bool(n),
            DType::Primitive(p, n) => dtype@ == SpecDType::Primitive(p, n),
            DType::Decimal(d, n) => dtype@ == SpecDType::Decimal(d, n),
            DType::Utf8(n) => dtype@ == SpecDType::Utf8(n),
            DType::Binary(n) => dtype@ == SpecDType::Binary(n),
            DType::List(element, n) => dtype@ matches SpecDType::List(own, m) && m == n && *own
                == element@,
            DType::FixedSizeList(element, size, n) => dtype@ matches SpecDType::FixedSizeList(
                own,
                count,
                m,
            ) && m == n && count == size && *own == element@,
            DType::Struct(fields, n) => dtype@ matches SpecDType::Struct {
                names,
                dtypes,
                nullability,
            } && {
                &&& nullability == n
                &&& names.len() == fields.spec_names().len()
                &&& forall|i: int|
                    0 <= i < names.len() ==> #[trigger] names[i] == fields.spec_names()[i]@
                &&& dtypes.len() == fields.spec_dtypes().len()
                &&& forall|i: int|
                    0 <= i < dtypes.len() ==> #[trigger] dtypes[i] == fields.spec_dtypes()[i]@
            },
            DType::Extension(x) => dtype@ matches SpecDType::Extension { id, storage, metadata } && {
                &&& id == x.id@
                &&& *storage == x.storage_dtype@
                &&& match (metadata, x.metadata) {
                    (Some(own), Some(bytes)) => own == bytes@,
                    (None, None) => true,
                    _ => false,
                }
            },
        },
{
    if let DType::Struct(fields, _) = dtype {
        let dtypes = dtypes_view(fields.spec_dtypes());
        assert forall|i: int| 0 <= i < dtypes.len() implies #[trigger] dtypes[i]
            == fields.spec_dtypes()[i]@ by {}
    }
}

/// Null is a value of the type of nulls, of a type that says so, and of a named type whose storage has it.
pub proof fn law_nullable(d: SpecDType)
    ensures
        match d {
            SpecDType::Null => nullable(d),
            SpecDType::Bool(n) => nullable(d) == (n == Nullability::Nullable),
            SpecDType::Primitive(_, n) => nullable(d) == (n == Nullability::Nullable),
            SpecDType::Decimal(_, n) => nullable(d) == (n == Nullability::Nullable),
            SpecDType::Utf8(n) => nullable(d) == (n == Nullability::Nullable),
            SpecDType::Binary(n) => nullable(d) == (n == Nullability::Nullable),
            SpecDType::List(_, n) => nullable(d) == (n == Nullability::Nullable),
            SpecDType::FixedSizeList(_, _, n) => nullable(d) == (n == Nullability::Nullable),
            SpecDType::Struct { nullability, .. } => nullable(d) == (nullability
                == Nullability::Nullable),
            SpecDType::Extension { storage, .. } => nullable(d) == nullable(*storage),
        },
{
}

/// Making a type nullable changes nothing where it is nullable already, and otherwise only adds null.
pub proof fn law_made_nullable(d: SpecDType)
    ensures
        nullable(made_nullable(d)),
        nullable(d) ==> made_nullable(d) == d,
        match (d, made_nullable(d)) {
            (SpecDType::Null, SpecDType::Null) => true,
            (SpecDType::Bool(_), SpecDType::Bool(_)) => true,
            (SpecDType::Primitive(p, _), SpecDType::Primitive(q, _)) => p == q,
            (SpecDType::Decimal(p, _), SpecDType::Decimal(q, _)) => p == q,
            (SpecDType::Utf8(_), SpecDType::Utf8(_)) => true,
            (SpecDType::Binary(_), SpecDType::Binary(_)) => true,
            (SpecDType::List(e, _), SpecDType::List(f, _)) => e == f,
            (SpecDType::FixedSizeList(e, m, _), SpecDType::FixedSizeList(f, n, _)) => e == f && m
                == n,
            (
                SpecDType::Struct { names, dtypes, .. },
                SpecDType::Struct { names: own, dtypes: types, .. },
            ) => names == own && dtypes == types,
            (
                SpecDType::Extension { id, storage, metadata },
                SpecDType::Extension { id: own, storage: stored, metadata: bytes },
            ) => id == own && metadata == bytes && *stored == made_nullable(*storage),
            _ => false,
        },
    decreases d,
{
    if let SpecDType::Extension { storage, .. } = d {
        law_made_nullable(*storage);
    }
}

/// A decimal has at least one digit and at most seventy-six, and no more of them after the decimal point than
/// it has.
pub proof fn law_valid_decimal(precision: u8, scale: i8)
    ensures
        valid_decimal(precision, scale) <==> precision != 0 && precision < 77 && scale as int
            <= precision as int,
{
}

} // verus!
