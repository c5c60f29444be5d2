//! The decoded in-memory size of a column.
use vstd::prelude::*;
use crate::dtype::{dtypes_view, valid_decimal, DType, Nullability, PType, SpecDType};

verus! {

/// The size assumed for one string or byte string.
pub const VARIABLE_ELEMENT_ESTIMATE: usize = 64;

/// The number of elements assumed for one list.
pub const LIST_LENGTH_ESTIMATE: usize = 10;

/// The bytes of one value of a fixed-width numeric type.
pub open spec fn byte_width(ptype: PType) -> nat {
    match ptype {
        PType::U8 | PType::I8 => 1,
        PType::U16 | PType::I16 | PType::F16 => 2,
        PType::U32 | PType::I32 | PType::F32 => 4,
        PType::U64 | PType::I64 | PType::F64 => 8,
    }
}

/// The bytes of the narrowest integer that holds every decimal of the given precision.
pub open spec fn decimal_width(precision: u8) -> nat {
    if precision <= 2 {
        1
    } else if precision <= 4 {
        2
    } else if precision <= 9 {
        4
    } else if precision <= 18 {
        8
    } else if precision <= 38 {
        16
    } else {
        32
    }
}

/// The bytes that `n` decoded elements of a type take: exact for the fixed-width types, an
/// estimate for strings, byte strings and lists.
pub open spec fn decoded_size(dtype: SpecDType, n: nat) -> nat
    decreases dtype,
{
    match dtype {
        SpecDType::Null => 0,
        SpecDType::Bool(_) => n,
        SpecDType::Primitive(ptype, _) => n * byte_width(ptype),
        SpecDType::Decimal(decimal, _) => n * decimal_width(decimal.spec_precision()),
        SpecDType::Utf8(_) => n * 64,
        SpecDType::Binary(_) => n * 64,
        SpecDType::List(element, _) => n * (10 * decoded_size(*element, 1)),
        SpecDType::FixedSizeList(element, size, _) => n * decoded_size(*element, size as nat),
        SpecDType::Struct { dtypes, .. } => decoded_sizes(dtypes, n),
        SpecDType::Extension { storage, .. } => decoded_size(*storage, n),
    }
}

/// The bytes that `n` decoded elements of each of the types take together.
pub open spec fn decoded_sizes(dtypes: Seq<SpecDType>, n: nat) -> nat
    decreases dtypes,
{
    if dtypes.len() == 0 {
        0
    } else {
        decoded_sizes(dtypes.drop_last(), n) + decoded_size(dtypes.last(), n)
    }
}

/// A size, or `usize::MAX` where it is larger.
pub open spec fn capped(size: nat) -> nat {
    if size <= usize::MAX {
        size
    } else {
        usize::MAX as nat
    }
}

/// `vortex_dtype::PType::byte_width`: the number of bytes in the type.
#[verifier::external_body]
fn ptype_byte_width(ptype: PType) -> (result: usize)
    ensures
        result == byte_width(ptype),
{
    let ptype = match ptype {
        PType::U8 => vortex_dtype::PType::U8,
        PType::U16 => vortex_dtype::PType::U16,
        PType::U32 => vortex_dtype::PType::U32,
        PType::U64 => vortex_dtype::PType::U64,
        PType::I8 => vortex_dtype::PType::I8,
        PType::I16 => vortex_dtype::PType::I16,
        PType::I32 => vortex_dtype::PType::I32,
        PType::I64 => vortex_dtype::PType::I64,
        PType::F16 => vortex_dtype::PType::F16,
        PType::F32 => vortex_dtype::PType::F32,
        PType::F64 => vortex_dtype::PType::F64,
    };
    ptype.byte_width()
}

/// `vortex_dtype::DecimalType::smallest_decimal_value_type` and the width of the type it gives:
/// one, two, four, eight, sixteen or thirty-two bytes by the decimal's precision. The decimal is
/// one that `vortex_dtype::DecimalDType::new` accepts.
#[verifier::external_body]
fn decimal_byte_width(precision: u8, scale: i8) -> (result: usize)
    requires
        valid_decimal(precision, scale),
    ensures
        result == decimal_width(precision),
{
    let decimal = vortex_dtype::DecimalDType::new(precision, scale);
    vortex_dtype::DecimalType::smallest_decimal_value_type(&decimal).byte_width()
}

/// The product, or `usize::MAX` where it is larger.
fn capped_product(a: usize, b: usize) -> (result: usize)
    ensures
        result == capped(a as nat * b as nat),
{
    match a.checked_mul(b) {
        Some(product) => product,
        None => usize::MAX,
    }
}

/// The sum, or `usize::MAX` where it is larger.
pub(crate) fn capped_sum(a: usize, b: usize) -> (result: usize)
    ensures
        result == capped(a as nat + b as nat),
{
    match a.checked_add(b) {
        Some(sum) => sum,
        None => usize::MAX,
    }
}

/// Capping a factor first changes nothing.
proof fn lemma_capped_product(a: nat, b: nat)
    ensures
        capped(capped(a) * capped(b)) == capped(a * b),
        capped(a * capped(b)) == capped(a * b),
{
    let m = usize::MAX as nat;
    if a == 0 || b == 0 {
        assert(a * b == 0 && capped(a) * capped(b) == 0 && a * capped(b) == 0) by (nonlinear_arith)
            requires
                a == 0 || b == 0,
                capped(0) == 0,
        {
            if a == 0 {
                assert(capped(a) == 0);
            } else {
                assert(capped(b) == 0);
            }
        }
    } else {
        if a > m {
            assert(a * b >= a && m * capped(b) >= m && a * capped(b) >= a) by (nonlinear_arith)
                requires
                    a >= 1,
                    b >= 1,
                    m >= 1,
                    capped(b) >= 1,
            ;
        }
        if b > m {
            assert(a * b >= b && capped(a) * m >= m && a * m >= m) by (nonlinear_arith)
                requires
                    a >= 1,
                    b >= 1,
                    m >= 1,
                    capped(a) >= 1,
            ;
        }
    }
}

/// The decoded in-memory byte size of `n` elements of the given type.
///
/// For fixed-width types this is exact. For variable-width types (strings, binary, lists) a
/// heuristic estimate is used. A size beyond `usize::MAX` is given as `usize::MAX`.
pub fn estimated_decoded_bytes(dtype: &DType, n: usize) -> (result: usize)
    ensures
        result == capped(decoded_size(dtype@, n as nat)),
    decreases dtype,
{
    match dtype {
        DType::Null => 0,
        DType::Bool(_) => n,
        DType::Primitive(ptype, _) => capped_product(n, ptype_byte_width(*ptype)),
        DType::Decimal(decimal, _) => capped_product(
            n,
            decimal_byte_width(decimal.precision(), decimal.scale()),
        ),
        DType::Utf8(_) => capped_product(n, VARIABLE_ELEMENT_ESTIMATE),
        DType::Binary(_) => capped_product(n, VARIABLE_ELEMENT_ESTIMATE),
        DType::List(element, _) => {
            let each = estimated_decoded_bytes(element, 1);
            proof {
                let one = decoded_size(element@, 1);
                lemma_capped_product(n as nat * 10, one);
                assert(n as nat * 10 * one == n as nat * (10 * one)) by (nonlinear_arith);
            }
            capped_product(capped_product(n, LIST_LENGTH_ESTIMATE), each)
        },
        DType::FixedSizeList(element, size, _) => {
            let each = estimated_decoded_bytes(element, *size as usize);
            proof {
                lemma_capped_product(n as nat, decoded_size(element@, *size as nat));
            }
            capped_product(n, each)
        },
        DType::Struct(fields, _) => {
            let ghost dtypes = dtypes_view(fields.spec_dtypes());
            let field_dtypes = fields.dtypes();
            let mut total: usize = 0;
            let mut i: usize = 0;
            assert(dtypes.take(0) =~= Seq::<SpecDType>::empty());
            while i < field_dtypes.len()
                invariant
                    i <= field_dtypes.len(),
                    field_dtypes@ == fields.spec_dtypes(),
                    dtypes == dtypes_view(fields.spec_dtypes()),
                    *dtype matches DType::Struct(f, _) && f == *fields,
                    total == capped(decoded_sizes(dtypes.take(i as int), n as nat)),
                decreases field_dtypes.len() - i,
            {
                assert(dtypes[i as int] == field_dtypes@[i as int]@);
                proof {
                    fields.lemma_dtype_inside(i as int);
                }
                let field_bytes = estimated_decoded_bytes(&field_dtypes[i], n);
                total = capped_sum(total, field_bytes);
                proof {
                    let next = dtypes.take(i + 1);
                    assert(next.drop_last() =~= dtypes.take(i as int));
                    assert(next.last() == dtypes[i as int]);
                }
                i = i + 1;
            }
            assert(dtypes.take(dtypes.len() as int) =~= dtypes);
            total
        },
        DType::Extension(ext) => estimated_decoded_bytes(&ext.storage_dtype, n),
    }
}

/// The decoded size grows with the number of elements alone: every element of a type counts the
/// same.
pub proof fn law_decoded_size_is_linear(dtype: SpecDType, n: nat)
    ensures
        decoded_size(dtype, n) == n * decoded_size(dtype, 1),
    decreases dtype,
{
    let one = decoded_size(dtype, 1);
    match dtype {
        SpecDType::Null => {
            assert(n * one == 0) by (nonlinear_arith)
                requires
                    one == 0,
            ;
        },
        SpecDType::Struct { dtypes, .. } => {
            lemma_decoded_sizes_are_linear(dtypes, n);
        },
        SpecDType::Extension { storage, .. } => {
            law_decoded_size_is_linear(*storage, n);
        },
        SpecDType::Bool(_) => {
            assert(n * one == n) by (nonlinear_arith)
                requires
                    one == 1,
            ;
        },
        SpecDType::Primitive(ptype, _) => {
            lemma_scaled(n, byte_width(ptype));
        },
        SpecDType::Decimal(decimal, _) => {
            lemma_scaled(n, decimal_width(decimal.spec_precision()));
        },
        SpecDType::Utf8(_) | SpecDType::Binary(_) => {},
        SpecDType::List(element, _) => {
            lemma_scaled(n, 10 * decoded_size(*element, 1));
        },
        SpecDType::FixedSizeList(element, size, _) => {
            lemma_scaled(n, decoded_size(*element, size as nat));
        },
    }
}

/// Scaling by one changes nothing.
proof fn lemma_scaled(n: nat, each: nat)
    ensures
        n * each == n * (1 * each),
        n * each >= 0,
{
    assert(n * each >= 0) by (nonlinear_arith);
}

proof fn lemma_decoded_sizes_are_linear(dtypes: Seq<SpecDType>, n: nat)
    ensures
        decoded_sizes(dtypes, n) == n * decoded_sizes(dtypes, 1),
    decreases dtypes,
{
    if dtypes.len() > 0 {
        lemma_decoded_sizes_are_linear(dtypes.drop_last(), n);
        law_decoded_size_is_linear(dtypes.last(), n);
        let a = decoded_sizes(dtypes.drop_last(), 1);
        let b = decoded_size(dtypes.last(), 1);
        assert(n * (a + b) == n * a + n * b) by (nonlinear_arith);
    } else {
        assert(n * 0 == 0) by (nonlinear_arith);
    }
}

/// A boolean takes a byte, a number and a decimal as many as its type is wide, and a null none. A string
/// and a byte string are taken to have sixty-four, and a list ten elements. A list of fixed length has that many
/// elements in each of its rows. A named type takes what its storage takes.
pub proof fn law_decoded_size(dtype: SpecDType, n: nat)
    ensures
        match dtype {
            SpecDType::Null => decoded_size(dtype, n) == 0,
            SpecDType::Bool(_) => decoded_size(dtype, n) == n,
            SpecDType::Primitive(PType::U8 | PType::I8, _) => decoded_size(dtype, n) == n,
            SpecDType::Primitive(PType::U16 | PType::I16 | PType::F16, _) => decoded_size(dtype, n)
                == 2 * n,
            SpecDType::Primitive(PType::U32 | PType::I32 | PType::F32, _) => decoded_size(dtype, n)
                == 4 * n,
            SpecDType::Primitive(PType::U64 | PType::I64 | PType::F64, _) => decoded_size(dtype, n)
                == 8 * n,
            SpecDType::Decimal(decimal, _) => {
                let precision = decimal.spec_precision();
                &&& precision <= 2 ==> decoded_size(dtype, n) == n
                &&& 3 <= precision <= 4 ==> decoded_size(dtype, n) == 2 * n
                &&& 5 <= precision <= 9 ==> decoded_size(dtype, n) == 4 * n
                &&& 10 <= precision <= 18 ==> decoded_size(dtype, n) == 8 * n
                &&& 19 <= precision <= 38 ==> decoded_size(dtype, n) == 16 * n
                &&& 39 <= precision ==> decoded_size(dtype, n) == 32 * n
            },
            SpecDType::Utf8(_) | SpecDType::Binary(_) => decoded_size(dtype, n) == 64 * n,
            SpecDType::List(element, _) => decoded_size(dtype, n) == decoded_size(*element, n * 10),
            SpecDType::FixedSizeList(element, size, _) => decoded_size(dtype, n) == decoded_size(
                *element,
                n * size as nat,
            ),
            SpecDType::Struct { .. } => true,
            SpecDType::Extension { storage, .. } => decoded_size(dtype, n) == decoded_size(
                *storage,
                n,
            ),
        },
{
    match dtype {
        SpecDType::Primitive(ptype, _) => {
            let each = byte_width(ptype);
            assert(n * each == each * n) by (nonlinear_arith);
        },
        SpecDType::Decimal(decimal, _) => {
            let each = decimal_width(decimal.spec_precision());
            assert(n * each == each * n) by (nonlinear_arith);
        },
        SpecDType::List(element, _) => {
            law_decoded_size_is_linear(*element, n * 10);
            let one = decoded_size(*element, 1);
            assert(n * (10 * one) == (n * 10) * one) by (nonlinear_arith);
        },
        SpecDType::FixedSizeList(element, size, _) => {
            law_decoded_size_is_linear(*element, size as nat);
            law_decoded_size_is_linear(*element, n * size as nat);
            let (one, count) = (decoded_size(*element, 1), size as nat);
            assert(n * (count * one) == (n * count) * one) by (nonlinear_arith);
        },
        _ => {},
    }
}

/// Structs without fields take nothing, and one more field adds what it takes.
pub proof fn law_struct_size(
    names: Seq<Seq<char>>,
    longer: Seq<Seq<char>>,
    dtypes: Seq<SpecDType>,
    last: SpecDType,
    nullability: Nullability,
    n: nat,
)
    ensures
        decoded_size(SpecDType::Struct { names, dtypes: Seq::empty(), nullability }, n) == 0,
        decoded_size(
            SpecDType::Struct { names: longer, dtypes: dtypes.push(last), nullability },
            n,
        ) == decoded_size(SpecDType::Struct { names, dtypes, nullability }, n) + decoded_size(last, n),
{
    let longest = dtypes.push(last);
    assert(longest.drop_last() =~= dtypes);
    assert(decoded_sizes(Seq::empty(), n) == 0);
    assert(decoded_sizes(longest, n) == decoded_sizes(dtypes, n) + decoded_size(last, n));
}

/// A size that can be counted is given as it is, and any other as the greatest that can.
pub proof fn law_capped(size: nat)
    ensures
        size <= usize::MAX ==> capped(size) == size,
        size > usize::MAX ==> capped(size) == usize::MAX,
{
}

} // verus!
