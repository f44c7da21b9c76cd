//! The in-memory representation of a parsed schema file, together with the
//! well-formedness conditions that every IR produced by the parser satisfies.

use vstd::prelude::*;

verus! {

/// The type of a typedpack `struct` field.
#[derive(Clone, Debug, PartialEq, Eq, Hash)]
pub enum StructFieldType {
    Bool,
    U8,
    I8,
    U16,
    I16,
    U32,
    I32,
    U64,
    I64,
    F32,
    F64,
    String,
    Bytes { len: Option<u32> },
    Array { items: std::rc::Rc<StructFieldType> },
    Reference { name: std::string::String },
}

/// A typedpack `struct` field.
#[derive(Clone, Debug, PartialEq, Eq, Hash)]
pub struct StructField {
    pub id: u8,
    pub name: std::string::String,
    pub ty: StructFieldType,
    pub optional: bool,
    pub nullable: bool,
}

/// A typedpack `struct`.
#[derive(Clone, Debug, PartialEq, Eq, Hash)]
pub struct Struct {
    pub name: std::string::String,
    pub fields: Vec<StructField>,
}

/// A variant of a typedpack tagged `enum`.  `pos` is the source position of
/// the payload type token, cited when the payload name fails to resolve to a
/// declared struct.
#[derive(Clone, Debug, PartialEq, Eq, Hash)]
pub struct TaggedEnumVariant {
    pub id: u8,
    pub name: std::string::String,
    pub ty: std::string::String,
    pub pos: crate::parse::Position,
}

/// A variant of a typedpack untagged `enum`.
#[derive(Clone, Debug, PartialEq, Eq, Hash)]
pub struct UntaggedEnumVariant {
    pub id: u8,
    pub name: std::string::String,
}

/// A typedpack `enum`.
#[derive(Clone, Debug, PartialEq, Eq, Hash)]
pub enum Enum {
    Tagged { name: std::string::String, variants: Vec<TaggedEnumVariant> },
    Untagged { name: std::string::String, variants: Vec<UntaggedEnumVariant> },
}

/// A typedpack `enum` or `struct`.
#[derive(Clone, Debug, PartialEq, Eq, Hash)]
pub enum Type {
    Enum(Enum),
    Struct(Struct),
}

/// The name under which an enum was declared.
pub open spec fn enum_name(e: Enum) -> Seq<char> {
    match e {
        Enum::Tagged { name, .. } => name@,
        Enum::Untagged { name, .. } => name@,
    }
}

/// The name under which a type was declared.
pub open spec fn decl_name(t: Type) -> Seq<char> {
    match t {
        Type::Enum(e) => enum_name(e),
        Type::Struct(s) => s.name@,
    }
}

impl Type {
    /// Returns the name of the type.
    pub fn name(&self) -> (r: &str)
        ensures
            r@ == decl_name(*self),
    {
        match self {
            Type::Enum(Enum::Tagged { name, .. }) => name.as_str(),
            Type::Enum(Enum::Untagged { name, .. }) => name.as_str(),
            Type::Struct(s) => s.name.as_str(),
        }
    }
}

/// Within a struct, field ids and field names are each unique.
pub open spec fn struct_wf(s: Struct) -> bool {
    forall|i: int, j: int|
        0 <= i < j < s.fields@.len() ==> s.fields@[i].id != s.fields@[j].id
            && s.fields@[i].name@ != s.fields@[j].name@
}

/// Within an enum, variant ids and variant names are each unique, and the
/// variant list is non-empty.  An [`Enum`] value is entirely tagged or
/// entirely untagged by construction.
pub open spec fn enum_wf(e: Enum) -> bool {
    match e {
        Enum::Tagged { variants, .. } => variants@.len() > 0 && forall|i: int, j: int|
            0 <= i < j < variants@.len() ==> variants@[i].id != variants@[j].id
                && variants@[i].name@ != variants@[j].name@,
        Enum::Untagged { variants, .. } => variants@.len() > 0 && forall|i: int, j: int|
            0 <= i < j < variants@.len() ==> variants@[i].id != variants@[j].id
                && variants@[i].name@ != variants@[j].name@,
    }
}

/// Some type in `ts` is a struct declared under the name `n`.
pub open spec fn has_struct_named(ts: Seq<Type>, n: Seq<char>) -> bool {
    exists|i: int| 0 <= i < ts.len() && ts[i] is Struct && #[trigger] decl_name(ts[i]) == n
}

/// Every payload type of a tagged enum in `ts` names a struct declared in `ts`.
pub open spec fn tagged_payloads_resolve(ts: Seq<Type>) -> bool {
    forall|i: int|
        0 <= i < ts.len() ==> match #[trigger] ts[i] {
            Type::Enum(Enum::Tagged { variants, .. }) => forall|k: int|
                0 <= k < variants@.len() ==> has_struct_named(ts, #[trigger] variants@[k].ty@),
            _ => true,
        }
}

/// Well-formedness of a whole accepted IR: type names are unique, every
/// struct and enum is internally well-formed, and tagged payloads resolve to
/// declared structs.
pub open spec fn types_wf(ts: Seq<Type>) -> bool {
    &&& forall|i: int, j: int| 0 <= i < j < ts.len() ==> decl_name(ts[i]) != decl_name(ts[j])
    &&& forall|i: int|
        0 <= i < ts.len() ==> match #[trigger] ts[i] {
            Type::Struct(s) => struct_wf(s),
            Type::Enum(e) => enum_wf(e),
        }
    &&& tagged_payloads_resolve(ts)
}


/// The mathematical form of a field type: names as character sequences.
pub enum FieldTypeView {
    Bool,
    U8,
    I8,
    U16,
    I16,
    U32,
    I32,
    U64,
    I64,
    F32,
    F64,
    String,
    Bytes { len: Option<u32> },
    Array { items: Box<FieldTypeView> },
    Reference { name: Seq<char> },
}

/// The mathematical form of a struct field.
pub struct FieldView {
    pub id: u8,
    pub name: Seq<char>,
    pub ty: FieldTypeView,
    pub optional: bool,
    pub nullable: bool,
}

/// The mathematical form of a struct declaration.
pub struct StructView {
    pub name: Seq<char>,
    pub fields: Seq<FieldView>,
}

/// The mathematical form of a tagged enum variant, with the payload type
/// token's line and column.
pub struct TaggedVariantView {
    pub id: u8,
    pub name: Seq<char>,
    pub ty: Seq<char>,
    pub line: int,
    pub col: int,
}

/// The mathematical form of an untagged enum variant.
pub struct UntaggedVariantView {
    pub id: u8,
    pub name: Seq<char>,
}

/// The mathematical form of an enum declaration.
pub enum EnumView {
    Tagged { name: Seq<char>, variants: Seq<TaggedVariantView> },
    Untagged { name: Seq<char>, variants: Seq<UntaggedVariantView> },
}

/// The mathematical form of a type declaration.
pub enum TypeView {
    Enum(EnumView),
    Struct(StructView),
}

/// The mathematical form of a [`StructFieldType`].
pub open spec fn field_ty_view(t: StructFieldType) -> FieldTypeView
    decreases t,
{
    match t {
        StructFieldType::Bool => FieldTypeView::Bool,
        StructFieldType::U8 => FieldTypeView::U8,
        StructFieldType::I8 => FieldTypeView::I8,
        StructFieldType::U16 => FieldTypeView::U16,
        StructFieldType::I16 => FieldTypeView::I16,
        StructFieldType::U32 => FieldTypeView::U32,
        StructFieldType::I32 => FieldTypeView::I32,
        StructFieldType::U64 => FieldTypeView::U64,
        StructFieldType::I64 => FieldTypeView::I64,
        StructFieldType::F32 => FieldTypeView::F32,
        StructFieldType::F64 => FieldTypeView::F64,
        StructFieldType::String => FieldTypeView::String,
        StructFieldType::Bytes { len } => FieldTypeView::Bytes { len },
        StructFieldType::Array { items } => FieldTypeView::Array {
            items: Box::new(field_ty_view(*items)),
        },
        StructFieldType::Reference { name } => FieldTypeView::Reference { name: name@ },
    }
}

/// The mathematical form of a [`StructField`].
pub open spec fn field_view(f: StructField) -> FieldView {
    FieldView {
        id: f.id,
        name: f.name@,
        ty: field_ty_view(f.ty),
        optional: f.optional,
        nullable: f.nullable,
    }
}

/// The mathematical form of a [`Struct`].
pub open spec fn struct_view(s: Struct) -> StructView {
    StructView { name: s.name@, fields: s.fields@.map_values(|f: StructField| field_view(f)) }
}

/// The mathematical form of a [`TaggedEnumVariant`].
pub open spec fn tagged_variant_view(v: TaggedEnumVariant) -> TaggedVariantView {
    TaggedVariantView {
        id: v.id,
        name: v.name@,
        ty: v.ty@,
        line: v.pos.line as int,
        col: v.pos.column as int,
    }
}

/// The mathematical form of an [`UntaggedEnumVariant`].
pub open spec fn untagged_variant_view(v: UntaggedEnumVariant) -> UntaggedVariantView {
    UntaggedVariantView { id: v.id, name: v.name@ }
}

/// The mathematical form of an [`Enum`].
pub open spec fn enum_view(e: Enum) -> EnumView {
    match e {
        Enum::Tagged { name, variants } => EnumView::Tagged {
            name: name@,
            variants: variants@.map_values(|v: TaggedEnumVariant| tagged_variant_view(v)),
        },
        Enum::Untagged { name, variants } => EnumView::Untagged {
            name: name@,
            variants: variants@.map_values(|v: UntaggedEnumVariant| untagged_variant_view(v)),
        },
    }
}

/// The mathematical form of a [`Type`].
pub open spec fn type_view(t: Type) -> TypeView {
    match t {
        Type::Enum(e) => TypeView::Enum(enum_view(e)),
        Type::Struct(s) => TypeView::Struct(struct_view(s)),
    }
}

/// The mathematical form of a whole IR.
pub open spec fn types_view(ts: Seq<Type>) -> Seq<TypeView> {
    ts.map_values(|t: Type| type_view(t))
}

/// The declared name of a [`TypeView`].
pub open spec fn view_decl_name(t: TypeView) -> Seq<char> {
    match t {
        TypeView::Enum(EnumView::Tagged { name, .. }) => name,
        TypeView::Enum(EnumView::Untagged { name, .. }) => name,
        TypeView::Struct(s) => s.name,
    }
}

/// Some declaration in `ts` is a struct named `n`.
pub open spec fn view_has_struct(ts: Seq<TypeView>, n: Seq<char>) -> bool {
    exists|i: int|
        0 <= i < ts.len() && ts[i] is Struct && #[trigger] view_decl_name(ts[i]) == n
}

} // verus!
