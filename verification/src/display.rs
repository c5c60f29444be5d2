//! Readers as trees of labels, for display.
use vstd::prelude::*;
use crate::dtype::{names_view, DType, Nullability, SpecDType};
use crate::expr::{ScalarFn, SpecScalarFn};
use crate::layout::{dtype_of, row_count, Layout};
use crate::reader::{
    chunked_layout, constant_layout, dict_layout, flat_layout, layout_of, layouts_of,
    scalar_fn_layout, struct_layout, zoned_layout, ReaderRef,
};
use crate::readers::chunked::ChunkedReader;
use crate::readers::constant::ConstantReader;
use crate::readers::dict::DictReader;
use crate::readers::flat::FlatReader;
use crate::readers::scalar_fn::ScalarFnReader;
use crate::readers::struct_::StructReader;
use crate::readers::zoned::ZonedReader;
use crate::row::SegmentId;
use crate::scalar::Scalar;

verus! {

/// What a tree says of a reader.
pub enum Label {
    Flat { dtype: DType, rows: u64, segment: SegmentId },
    Constant { dtype: DType, rows: u64, value: Scalar },
    Chunked { dtype: DType, rows: u64, chunks: usize },
    Struct { dtype: DType, rows: u64 },
    ScalarFn { dtype: DType, rows: u64, function: ScalarFn },
    Dict { dtype: DType, rows: u64 },
    Zoned { dtype: DType, rows: u64, zone_len: usize },
}

/// What a part is to the whole.
pub enum Edge {
    /// One of a list.
    Index(usize),
    /// A struct's field.
    Field(String),
    /// What says which structs are present.
    Validity,
    /// A dictionary's values.
    Values,
    /// The codes into a dictionary.
    Codes,
    /// What statistics are kept of.
    Data,
    /// The statistics of zones.
    ZoneMap,
}

/// A part of a reader.
pub struct DisplayPart {
    pub edge: Edge,
    pub tree: DisplayTree,
}

/// A reader as a tree of labels.
pub struct DisplayTree {
    pub label: Label,
    pub parts: Vec<DisplayPart>,
}

/// The mathematical value of a [`Label`].
pub enum SpecLabel {
    Flat { dtype: SpecDType, rows: u64, segment: SegmentId },
    Constant { dtype: SpecDType, rows: u64, value: Scalar },
    Chunked { dtype: SpecDType, rows: u64, chunks: nat },
    Struct { dtype: SpecDType, rows: u64 },
    ScalarFn { dtype: SpecDType, rows: u64, function: SpecScalarFn },
    Dict { dtype: SpecDType, rows: u64 },
    Zoned { dtype: SpecDType, rows: u64, zone_len: usize },
}

/// The mathematical value of an [`Edge`].
pub enum SpecEdge {
    Index(nat),
    Field(Seq<char>),
    Validity,
    Values,
    Codes,
    Data,
    ZoneMap,
}

/// The mathematical value of a [`DisplayPart`].
pub struct SpecPart {
    pub edge: SpecEdge,
    pub tree: SpecTree,
}

/// The mathematical value of a [`DisplayTree`].
pub struct SpecTree {
    pub label: SpecLabel,
    pub parts: Seq<SpecPart>,
}

impl View for Label {
    type V = SpecLabel;

    open spec fn view(&self) -> SpecLabel {
        match *self {
            Label::Flat { dtype, rows, segment } => SpecLabel::Flat { dtype: dtype@, rows, segment },
            Label::Constant { dtype, rows, value } => SpecLabel::Constant {
                dtype: dtype@,
                rows,
                value,
            },
            Label::Chunked { dtype, rows, chunks } => SpecLabel::Chunked {
                dtype: dtype@,
                rows,
                chunks: chunks as nat,
            },
            Label::Struct { dtype, rows } => SpecLabel::Struct { dtype: dtype@, rows },
            Label::ScalarFn { dtype, rows, function } => SpecLabel::ScalarFn {
                dtype: dtype@,
                rows,
                function: function@,
            },
            Label::Dict { dtype, rows } => SpecLabel::Dict { dtype: dtype@, rows },
            Label::Zoned { dtype, rows, zone_len } => SpecLabel::Zoned {
                dtype: dtype@,
                rows,
                zone_len,
            },
        }
    }
}

impl View for Edge {
    type V = SpecEdge;

    open spec fn view(&self) -> SpecEdge {
        match *self {
            Edge::Index(i) => SpecEdge::Index(i as nat),
            Edge::Field(name) => SpecEdge::Field(name@),
            Edge::Validity => SpecEdge::Validity,
            Edge::Values => SpecEdge::Values,
            Edge::Codes => SpecEdge::Codes,
            Edge::Data => SpecEdge::Data,
            Edge::ZoneMap => SpecEdge::ZoneMap,
        }
    }
}

/// The mathematical value of a tree.
pub open spec fn tree_view(tree: DisplayTree) -> SpecTree
    decreases tree,
{
    SpecTree { label: tree.label@, parts: parts_view(tree.parts@) }
}

/// The mathematical values of parts.
pub open spec fn parts_view(parts: Seq<DisplayPart>) -> Seq<SpecPart>
    decreases parts,
{
    Seq::new(
        parts.len(),
        |i: int|
            if 0 <= i < parts.len() {
                SpecPart { edge: parts[i].edge@, tree: tree_view(parts[i].tree) }
            } else {
                arbitrary()
            },
    )
}

impl View for DisplayTree {
    type V = SpecTree;

    open spec fn view(&self) -> SpecTree {
        tree_view(*self)
    }
}

/// The tree of a layout.
pub open spec fn display(l: Layout) -> SpecTree
    decreases l, 0nat,
{
    match l {
        Layout::Flat { dtype, segment, .. } => SpecTree {
            label: SpecLabel::Flat { dtype, rows: row_count(l), segment: segment.id },
            parts: Seq::empty(),
        },
        Layout::Constant { scalar, .. } => SpecTree {
            label: SpecLabel::Constant {
                dtype: scalar.dtype@,
                rows: row_count(l),
                value: scalar,
            },
            parts: Seq::empty(),
        },
        Layout::Chunked { dtype, chunks, .. } => SpecTree {
            label: SpecLabel::Chunked { dtype, rows: row_count(l), chunks: chunks.len() },
            parts: numbered(chunks),
        },
        Layout::Struct { dtype, validity, fields, .. } => {
            let own = match dtype {
                SpecDType::Struct { names, .. } => named(names, fields),
                _ => numbered(fields),
            };
            SpecTree {
                label: SpecLabel::Struct { dtype, rows: row_count(l) },
                parts: match validity {
                    Some(v) => own.push(SpecPart { edge: SpecEdge::Validity, tree: display(*v) }),
                    None => own,
                },
            }
        },
        Layout::ScalarFn { function, dtype, children, .. } => SpecTree {
            label: SpecLabel::ScalarFn { dtype, rows: row_count(l), function },
            parts: numbered(children),
        },
        Layout::Dict { dtype, values, codes, .. } => SpecTree {
            label: SpecLabel::Dict { dtype, rows: row_count(l) },
            parts: seq![
                SpecPart { edge: SpecEdge::Values, tree: display(*values) },
                SpecPart { edge: SpecEdge::Codes, tree: display(*codes) },
            ],
        },
        Layout::Zoned { data, zone_map, zone_len, .. } => SpecTree {
            label: SpecLabel::Zoned { dtype: dtype_of(l), rows: row_count(l), zone_len },
            parts: seq![
                SpecPart { edge: SpecEdge::Data, tree: display(*data) },
                SpecPart { edge: SpecEdge::ZoneMap, tree: display(*zone_map) },
            ],
        },
    }
}

/// The trees of layouts, numbered.
pub open spec fn numbered(layouts: Seq<Layout>) -> Seq<SpecPart>
    decreases layouts, 0nat,
{
    Seq::new(
        layouts.len(),
        |i: int|
            if 0 <= i < layouts.len() {
                SpecPart { edge: SpecEdge::Index(i as nat), tree: display(layouts[i]) }
            } else {
                arbitrary()
            },
    )
}

/// The trees of a struct's fields, by name; there are no more than there are names.
pub open spec fn named(names: Seq<Seq<char>>, fields: Seq<Layout>) -> Seq<SpecPart>
    decreases fields, 0nat,
{
    Seq::new(
        if names.len() < fields.len() {
            names.len()
        } else {
            fields.len()
        },
        |i: int|
            if 0 <= i < fields.len() {
                SpecPart { edge: SpecEdge::Field(names[i]), tree: display(fields[i]) }
            } else {
                arbitrary()
            },
    )
}

/// The trees of readers, numbered.
fn number(readers: &Vec<ReaderRef>) -> (result: Vec<DisplayPart>)
    ensures
        parts_view(result@) == numbered(layouts_of(readers@)),
    decreases readers@, 0nat,
{
    let ghost layouts = layouts_of(readers@);
    let mut parts: Vec<DisplayPart> = Vec::new();
    let mut i: usize = 0;
    while i < readers.len()
        invariant
            i <= readers@.len(),
            layouts == layouts_of(readers@),
            parts@.len() == i,
            forall|j: int|
                0 <= j < i ==> (#[trigger] parts@[j]).edge@ == SpecEdge::Index(j as nat)
                    && parts@[j].tree@ == display(layouts[j]),
        decreases readers.len() - i,
    {
        assert(layouts[i as int] == layout_of(readers@[i as int]));
        let tree = describe(&readers[i]);
        parts.push(DisplayPart { edge: Edge::Index(i), tree });
        i = i + 1;
    }
    assert(parts_view(parts@) =~= numbered(layouts));
    parts
}

/// The tree of a reader.
pub(crate) fn describe(reader: &ReaderRef) -> (result: DisplayTree)
    ensures
        result@ == display(layout_of(*reader)),
    decreases reader, 1nat,
{
    match reader {
        ReaderRef::Flat(r) => describe_flat(r),
        ReaderRef::Constant(r) => describe_constant(r),
        ReaderRef::Chunked(r) => describe_chunked(r),
        ReaderRef::Struct(r) => describe_struct(r),
        ReaderRef::ScalarFn(r) => describe_scalar_fn(r),
        ReaderRef::Dict(r) => describe_dict(r),
        ReaderRef::Zoned(r) => describe_zoned(r),
    }
}

/// The tree of a reader of a stored segment.
pub(crate) fn describe_flat(r: &FlatReader) -> (result: DisplayTree)
    ensures
        result@ == display(flat_layout(*r)),
{
    let label = Label::Flat {
        dtype: r.dtype.clone(),
        rows: r.segment.len as u64,
        segment: r.segment.id,
    };
    let tree = DisplayTree { label, parts: Vec::new() };
    assert(tree@.parts =~= Seq::empty());
    tree
}

/// The tree of a reader of one value.
pub(crate) fn describe_constant(r: &ConstantReader) -> (result: DisplayTree)
    ensures
        result@ == display(constant_layout(*r)),
{
    let label = Label::Constant {
        dtype: r.scalar.dtype.clone(),
        rows: r.row_count,
        value: r.scalar.clone(),
    };
    let tree = DisplayTree { label, parts: Vec::new() };
    assert(tree@.parts =~= Seq::empty());
    tree
}

/// The tree of a reader of chunks.
pub(crate) fn describe_chunked(r: &ChunkedReader) -> (result: DisplayTree)
    ensures
        result@ == display(chunked_layout(*r)),
    decreases r, 0nat,
{
    let label = Label::Chunked {
        dtype: r.dtype.clone(),
        rows: r.row_count,
        chunks: r.chunks.len(),
    };
    DisplayTree { label, parts: number(&r.chunks) }
}

/// The tree of a reader of structs.
pub(crate) fn describe_struct(r: &StructReader) -> (result: DisplayTree)
    ensures
        result@ == display(struct_layout(*r)),
    decreases r, 0nat,
{
    let ghost fields = layouts_of(r.fields@);
    let mut parts: Vec<DisplayPart> = match r.dtype.as_struct_fields_opt() {
        Some(struct_fields) => {
            let names = struct_fields.names();
            let ghost views = names_view(names@);
            let mut parts: Vec<DisplayPart> = Vec::new();
            let mut i: usize = 0;
            while i < names.len() && i < r.fields.len()
                invariant
                    i <= names@.len(),
                    i <= r.fields@.len(),
                    fields == layouts_of(r.fields@),
                    views == names_view(names@),
                    parts@.len() == i,
                    forall|j: int|
                        0 <= j < i ==> (#[trigger] parts@[j]).edge@ == SpecEdge::Field(views[j])
                            && parts@[j].tree@ == display(fields[j]),
                decreases names.len() - i,
            {
                assert(fields[i as int] == layout_of(r.fields@[i as int]));
                let tree = describe(&r.fields[i]);
                parts.push(DisplayPart { edge: Edge::Field(names[i].clone()), tree });
                i = i + 1;
            }
            assert(parts_view(parts@) =~= named(views, fields));
            parts
        },
        None => number(&r.fields),
    };
    let ghost own = parts_view(parts@);
    match &r.validity {
        Some(validity) => {
            parts.push(DisplayPart { edge: Edge::Validity, tree: describe(validity) });
            assert(parts_view(parts@) =~= own.push(
                SpecPart { edge: SpecEdge::Validity, tree: display(layout_of(*validity)) },
            ));
        },
        None => {},
    }
    let label = Label::Struct { dtype: r.dtype.clone(), rows: r.row_count };
    DisplayTree { label, parts }
}

/// The tree of a reader of a function's results.
pub(crate) fn describe_scalar_fn(r: &ScalarFnReader) -> (result: DisplayTree)
    ensures
        result@ == display(scalar_fn_layout(*r)),
    decreases r, 0nat,
{
    let label = Label::ScalarFn {
        dtype: r.dtype.clone(),
        rows: r.row_count,
        function: r.scalar_fn.clone(),
    };
    DisplayTree { label, parts: number(&r.children) }
}

/// The tree of a reader of codes into a dictionary.
pub(crate) fn describe_dict(r: &DictReader) -> (result: DisplayTree)
    ensures
        result@ == display(dict_layout(*r)),
    decreases r, 0nat,
{
    let mut parts: Vec<DisplayPart> = Vec::new();
    parts.push(DisplayPart { edge: Edge::Values, tree: describe(&r.values) });
    parts.push(DisplayPart { edge: Edge::Codes, tree: describe(&r.codes) });
    let label = Label::Dict { dtype: r.dtype.clone(), rows: r.codes.count() };
    let tree = DisplayTree { label, parts };
    assert(tree@.parts =~= display(dict_layout(*r)).parts);
    tree
}

/// The tree of a reader with statistics of its zones.
pub(crate) fn describe_zoned(r: &ZonedReader) -> (result: DisplayTree)
    ensures
        result@ == display(zoned_layout(*r)),
    decreases r, 0nat,
{
    let mut parts: Vec<DisplayPart> = Vec::new();
    parts.push(DisplayPart { edge: Edge::Data, tree: describe(&r.data) });
    parts.push(DisplayPart { edge: Edge::ZoneMap, tree: describe(&r.zone_map) });
    let label = Label::Zoned {
        dtype: r.data.row_dtype().clone(),
        rows: r.data.count(),
        zone_len: r.zone_len,
    };
    let tree = DisplayTree { label, parts };
    assert(tree@.parts =~= display(zoned_layout(*r)).parts);
    tree
}

/// The tree of a stored segment or of a constant says its type and how many rows it has, and the name of
/// the segment or the constant. It has no parts.
pub proof fn law_leaf_tree(l: Layout)
    ensures
        match l {
            Layout::Flat { dtype, segment, .. } => {
                &&& display(l).label matches SpecLabel::Flat { dtype: own, rows, segment: id } && own
                    == dtype && rows == segment.len as u64 && id == segment.id
                &&& display(l).parts.len() == 0
            },
            Layout::Constant { scalar, row_count: count, .. } => {
                &&& display(l).label matches SpecLabel::Constant { dtype, rows, value } && dtype
                    == scalar.dtype@ && rows == count && value == scalar
                &&& display(l).parts.len() == 0
            },
            _ => true,
        },
{
}

/// The tree of chunks says their type, how many rows they have together and how many they are, and that of
/// a function's results their type, how many they are and the function. The parts are numbered, and
/// stand in their order.
pub proof fn law_numbered_tree(l: Layout, i: int)
    ensures
        match l {
            Layout::Chunked { row_count: count, dtype, chunks } => {
                &&& display(l).label matches SpecLabel::Chunked { dtype: own, rows, chunks: n } && own
                    == dtype && rows == count && n == chunks.len()
                &&& display(l).parts.len() == chunks.len()
                &&& 0 <= i < chunks.len() ==> display(l).parts[i] == (SpecPart {
                    edge: SpecEdge::Index(i as nat),
                    tree: display(chunks[i]),
                })
            },
            Layout::ScalarFn { function, dtype, row_count: count, children } => {
                &&& display(l).label matches SpecLabel::ScalarFn {
                    dtype: own,
                    rows,
                    function: called,
                } && own == dtype && rows == count && called == function
                &&& display(l).parts.len() == children.len()
                &&& 0 <= i < children.len() ==> display(l).parts[i] == (SpecPart {
                    edge: SpecEdge::Index(i as nat),
                    tree: display(children[i]),
                })
            },
            _ => true,
        },
{
    match l {
        Layout::Chunked { chunks, .. } => {
            assert(display(l).parts == numbered(chunks));
        },
        Layout::ScalarFn { children, .. } => {
            assert(display(l).parts == numbered(children));
        },
        _ => {},
    }
}

/// The tree of structs says their type and how many they are. Its parts are the fields in their order, by
/// name, and after them what says which structs are present, where there is such a layout.
pub proof fn law_struct_tree(
    count: u64,
    names: Seq<Seq<char>>,
    dtypes: Seq<SpecDType>,
    nullability: Nullability,
    validity: Option<Box<Layout>>,
    fields: Seq<Layout>,
    i: int,
)
    requires
        names.len() == fields.len(),
    ensures
        ({
            let dtype = SpecDType::Struct { names, dtypes, nullability };
            let tree = display(Layout::Struct { row_count: count, dtype, validity, fields });
            &&& tree.label matches SpecLabel::Struct { dtype: own, rows } && own == dtype && rows == count
            &&& 0 <= i < fields.len() ==> tree.parts[i] == (SpecPart {
                edge: SpecEdge::Field(names[i]),
                tree: display(fields[i]),
            })
            &&& match validity {
                Some(v) => {
                    &&& tree.parts.len() == fields.len() + 1
                    &&& tree.parts[fields.len() as int] == (SpecPart {
                        edge: SpecEdge::Validity,
                        tree: display(*v),
                    })
                },
                None => tree.parts.len() == fields.len(),
            }
        }),
{
    let own = named(names, fields);
    assert(own.len() == fields.len());
    if 0 <= i < fields.len() {
        assert(own[i] == (SpecPart {
            edge: SpecEdge::Field(names[i]),
            tree: display(fields[i]),
        }));
    }
}

/// The tree of a dictionary has its values and then its codes, and is of as many rows as the codes. That
/// of zones has the data and then the statistics, and is of the type and of as many rows as the data.
pub proof fn law_pair_tree(l: Layout)
    ensures
        match l {
            Layout::Dict { dtype, values, codes, .. } => {
                &&& display(l).label matches SpecLabel::Dict { dtype: own, rows } && own == dtype
                    && rows == row_count(*codes)
                &&& display(l).parts.len() == 2
                &&& display(l).parts[0] == (SpecPart { edge: SpecEdge::Values, tree: display(*values) })
                &&& display(l).parts[1] == (SpecPart { edge: SpecEdge::Codes, tree: display(*codes) })
            },
            Layout::Zoned { data, zone_map, zone_len, .. } => {
                &&& display(l).label matches SpecLabel::Zoned { dtype, rows, zone_len: len } && dtype
                    == dtype_of(*data) && rows == row_count(*data) && len == zone_len
                &&& display(l).parts.len() == 2
                &&& display(l).parts[0] == (SpecPart { edge: SpecEdge::Data, tree: display(*data) })
                &&& display(l).parts[1] == (SpecPart {
                    edge: SpecEdge::ZoneMap,
                    tree: display(*zone_map),
                })
            },
            _ => true,
        },
{
}

/// The value of a tree is that of its label, with the values of its parts in their order.
pub proof fn law_tree_view(tree: DisplayTree)
    ensures
        tree@.label == tree.label@,
        tree@.parts.len() == tree.parts@.len(),
        forall|i: int|
            0 <= i < tree.parts@.len() ==> #[trigger] tree@.parts[i] == (SpecPart {
                edge: tree.parts@[i].edge@,
                tree: tree.parts@[i].tree@,
            }),
{
}

/// The value of a label is the label of the same kind, with what it says.
pub proof fn law_label_view(label: Label)
    ensures
        match (label, label@) {
            (
                Label::Flat { dtype, rows, segment },
                SpecLabel::Flat { dtype: own, rows: count, segment: id },
            ) => dtype@ == own && rows == count && segment == id,
            (
                Label::Constant { dtype, rows, value },
                SpecLabel::Constant { dtype: own, rows: count, value: scalar },
            ) => dtype@ == own && rows == count && value == scalar,
            (
                Label::Chunked { dtype, rows, chunks },
                SpecLabel::Chunked { dtype: own, rows: count, chunks: n },
            ) => dtype@ == own && rows == count && chunks == n,
            (Label::Struct { dtype, rows }, SpecLabel::Struct { dtype: own, rows: count }) => dtype@
                == own && rows == count,
            (
                Label::ScalarFn { dtype, rows, function },
                SpecLabel::ScalarFn { dtype: own, rows: count, function: called },
            ) => dtype@ == own && rows == count && function@ == called,
            (Label::Dict { dtype, rows }, SpecLabel::Dict { dtype: own, rows: count }) => dtype@
                == own && rows == count,
            (
                Label::Zoned { dtype, rows, zone_len },
                SpecLabel::Zoned { dtype: own, rows: count, zone_len: len },
            ) => dtype@ == own && rows == count && zone_len == len,
            _ => false,
        },
{
}

/// The value of an edge is the edge of the same kind, with the number or the name.
pub proof fn law_edge_view(edge: Edge)
    ensures
        match (edge, edge@) {
            (Edge::Index(i), SpecEdge::Index(k)) => i == k,
            (Edge::Field(name), SpecEdge::Field(own)) => name@ == own,
            (Edge::Validity, SpecEdge::Validity) => true,
            (Edge::Values, SpecEdge::Values) => true,
            (Edge::Codes, SpecEdge::Codes) => true,
            (Edge::Data, SpecEdge::Data) => true,
            (Edge::ZoneMap, SpecEdge::ZoneMap) => true,
            _ => false,
        },
{
}

} // verus!
