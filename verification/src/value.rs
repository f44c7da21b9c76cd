//! Runtime values of schema types, and the conformance judgment that says
//! when a value belongs to a schema type.
//!
//! A [`Value`] is what the wire-format codec encodes and decodes.  Its
//! mathematical counterpart is [`Val`]; [`conforms`] is the typing relation
//! between a `Val` and a schema field type, resolved against the declared
//! types of a schema.  Struct values list their present entries in declared
//! field order, with [`Val::Nil`] standing for an explicit null; an absent
//! optional field has no entry.  An untagged enum value is the bare variant
//! id as an unsigned integer; a tagged enum value is [`Val::Variant`].

use vstd::prelude::*;

use crate::ir::{Enum, Struct, StructField, StructFieldType, TaggedEnumVariant, Type};

verus! {

/// A runtime value of a schema type.  Floats are carried as their raw IEEE
/// bit patterns: the codec moves them byte for byte and never computes with
/// them.
#[derive(Debug, PartialEq, Eq)]
pub enum Value {
    Bool(bool),
    UInt(u64),
    SInt(i64),
    F32Bits(u32),
    F64Bits(u64),
    Str(String),
    Bin(Vec<u8>),
    Arr(Vec<Value>),
    Rec(Vec<(u8, Value)>),
    Nil,
    Variant(u8, std::rc::Rc<Value>),
}

/// The mathematical form of a [`Value`].
pub enum Val {
    Bool(bool),
    UInt(u64),
    SInt(i64),
    F32Bits(u32),
    F64Bits(u64),
    Str(Seq<char>),
    Bin(Seq<u8>),
    Arr(Seq<Val>),
    Rec(Seq<(u8, Val)>),
    Nil,
    Variant(u8, Box<Val>),
}

/// The mathematical form of a sequence of values.
pub open spec fn vvals(vs: Seq<Value>) -> Seq<Val>
    decreases vs,
{
    if vs.len() == 0 {
        Seq::empty()
    } else {
        seq![vval(vs[0])] + vvals(vs.drop_first())
    }
}

/// The mathematical form of a sequence of struct-value entries.
pub open spec fn ventries(es: Seq<(u8, Value)>) -> Seq<(u8, Val)>
    decreases es,
{
    if es.len() == 0 {
        Seq::empty()
    } else {
        seq![(es[0].0, vval(es[0].1))] + ventries(es.drop_first())
    }
}

/// The mathematical form of a [`Value`].
pub open spec fn vval(v: Value) -> Val
    decreases v,
{
    match v {
        Value::Bool(b) => Val::Bool(b),
        Value::UInt(n) => Val::UInt(n),
        Value::SInt(n) => Val::SInt(n),
        Value::F32Bits(b) => Val::F32Bits(b),
        Value::F64Bits(b) => Val::F64Bits(b),
        Value::Str(s) => Val::Str(s@),
        Value::Bin(b) => Val::Bin(b@),
        Value::Arr(items) => Val::Arr(vvals(items@)),
        Value::Rec(entries) => Val::Rec(ventries(entries@)),
        Value::Nil => Val::Nil,
        Value::Variant(id, payload) => Val::Variant(id, Box::new(vval(*payload))),
    }
}

impl View for Value {
    type V = Val;

    open spec fn view(&self) -> Val {
        vval(*self)
    }
}

/// The first declared type of the given name, if any.
pub open spec fn lookup_type(ts: Seq<Type>, n: Seq<char>) -> Option<Type>
    decreases ts.len(),
{
    if ts.len() == 0 {
        None
    } else if crate::ir::decl_name(ts[0]) == n {
        Some(ts[0])
    } else {
        lookup_type(ts.drop_first(), n)
    }
}

/// The payload type name of the variant with the given id, if the id is
/// declared.
pub open spec fn find_variant_ty(vs: Seq<TaggedEnumVariant>, id: u8) -> Option<Seq<char>>
    decreases vs.len(),
{
    if vs.len() == 0 {
        None
    } else if vs[0].id == id {
        Some(vs[0].ty@)
    } else {
        find_variant_ty(vs.drop_first(), id)
    }
}

/// Whether `v` is a value of the field type `t`, with type references
/// resolved against `ts`.
pub open spec fn conforms(ts: Seq<Type>, t: StructFieldType, v: Val) -> bool
    decreases v, 2int, 0int,
{
    match t {
        StructFieldType::Bool => v is Bool,
        StructFieldType::U8 => v matches Val::UInt(n) && n <= u8::MAX,
        StructFieldType::U16 => v matches Val::UInt(n) && n <= u16::MAX,
        StructFieldType::U32 => v matches Val::UInt(n) && n <= u32::MAX,
        StructFieldType::U64 => v is UInt,
        StructFieldType::I8 => v matches Val::SInt(n) && i8::MIN <= n <= i8::MAX,
        StructFieldType::I16 => v matches Val::SInt(n) && i16::MIN <= n <= i16::MAX,
        StructFieldType::I32 => v matches Val::SInt(n) && i32::MIN <= n <= i32::MAX,
        StructFieldType::I64 => v is SInt,
        StructFieldType::F32 => v is F32Bits,
        StructFieldType::F64 => v is F64Bits,
        StructFieldType::String => v is Str,
        StructFieldType::Bytes { len } => match len {
            None => v is Bin,
            Some(l) => v matches Val::Bin(b) && b.len() == l,
        },
        StructFieldType::Array { items } => v matches Val::Arr(elems) && elems_conform(
            ts,
            *items,
            elems,
        ),
        StructFieldType::Reference { name } => match lookup_type(ts, name@) {
            Some(Type::Struct(st)) => rec_conforms(ts, st, v),
            Some(Type::Enum(e)) => enum_conforms(ts, e, v),
            None => false,
        },
    }
}

/// Whether every element of `vs` is a value of the element type `t`.
pub open spec fn elems_conform(ts: Seq<Type>, t: StructFieldType, vs: Seq<Val>) -> bool
    decreases vs, 2int, 0int,
{
    if vs.len() == 0 {
        true
    } else {
        conforms(ts, t, vs[0]) && elems_conform(ts, t, vs.drop_first())
    }
}

/// Whether `v` is a struct value of `st`: a record whose entries are, in
/// declared order, exactly the present fields.
pub open spec fn rec_conforms(ts: Seq<Type>, st: Struct, v: Val) -> bool
    decreases v, 1int, 0int,
{
    v matches Val::Rec(entries) && entries_match_from(ts, st.fields@, entries, 0, 0)
}

/// Whether the entries from `ei` on match the fields from `fi` on: each
/// required field has its entry, each optional field may or may not, and no
/// entry is left over.
pub open spec fn entries_match_from(
    ts: Seq<Type>,
    fields: Seq<StructField>,
    entries: Seq<(u8, Val)>,
    fi: int,
    ei: int,
) -> bool
    decreases entries, 1int, fields.len() - fi,
{
    if fi < 0 || ei < 0 {
        false
    } else if fi >= fields.len() {
        ei == entries.len()
    } else {
        let f = fields[fi];
        if ei < entries.len() && entries[ei].0 == f.id {
            entry_val_ok(ts, f, entries[ei].1) && entries_match_from(
                ts,
                fields,
                entries,
                fi + 1,
                ei + 1,
            )
        } else {
            f.optional && entries_match_from(ts, fields, entries, fi + 1, ei)
        }
    }
}

/// Whether a present entry's value fits its field: null only for a nullable
/// field, otherwise a value of the field's type.
pub open spec fn entry_val_ok(ts: Seq<Type>, f: StructField, ev: Val) -> bool
    decreases ev, 2int, 1int,
{
    if ev is Nil {
        f.nullable
    } else {
        conforms(ts, f.ty, ev)
    }
}

/// Whether `v` is a value of the enum `e`: for an untagged enum a declared
/// variant id, for a tagged enum a declared id with a payload conforming to
/// the variant's payload struct.
pub open spec fn enum_conforms(ts: Seq<Type>, e: Enum, v: Val) -> bool
    decreases v, 1int, 0int,
{
    match e {
        Enum::Untagged { variants, .. } => v matches Val::UInt(n) && exists|k: int|
            0 <= k < variants@.len() && (#[trigger] variants@[k]).id == n,
        Enum::Tagged { variants, .. } => v matches Val::Variant(id, payload)
            && match find_variant_ty(variants@, id) {
            Some(tyn) => match lookup_type(ts, tyn) {
                Some(Type::Struct(st)) => rec_conforms(ts, st, *payload),
                _ => false,
            },
            None => false,
        },
    }
}


/// `vvals` maps element by element.
pub proof fn lemma_vvals_len_index(vs: Seq<Value>)
    ensures
        vvals(vs).len() == vs.len(),
        forall|i: int| 0 <= i < vs.len() ==> vvals(vs)[i] == vval(vs[i]),
    decreases vs.len(),
{
    if vs.len() > 0 {
        lemma_vvals_len_index(vs.drop_first());
        assert forall|i: int| 0 <= i < vs.len() implies vvals(vs)[i] == vval(vs[i]) by {
            if i > 0 {
                assert(vs.drop_first()[i - 1] == vs[i]);
            }
        }
    }
}

/// `ventries` maps entry by entry, keeping the ids.
pub proof fn lemma_ventries_len_index(es: Seq<(u8, Value)>)
    ensures
        ventries(es).len() == es.len(),
        forall|i: int|
            0 <= i < es.len() ==> (#[trigger] ventries(es)[i]).0 == es[i].0 && ventries(es)[i].1
                == vval(es[i].1),
    decreases es.len(),
{
    if es.len() > 0 {
        lemma_ventries_len_index(es.drop_first());
        assert forall|i: int|
            0 <= i < es.len() implies (#[trigger] ventries(es)[i]).0 == es[i].0 && ventries(
            es,
        )[i].1 == vval(es[i].1) by {
            if i > 0 {
                assert(es.drop_first()[i - 1] == es[i]);
            }
        }
    }
}


/// `vval` maps exactly the `Nil` value to `Val::Nil`.
pub proof fn lemma_vval_nil(x: Value)
    ensures
        (vval(x) is Nil) <==> (x is Nil),
{
    match x {
        Value::Bool(_) => {}
        Value::UInt(_) => {}
        Value::SInt(_) => {}
        Value::F32Bits(_) => {}
        Value::F64Bits(_) => {}
        Value::Str(_) => {}
        Value::Bin(_) => {}
        Value::Arr(_) => {}
        Value::Rec(_) => {}
        Value::Nil => {}
        Value::Variant(_, _) => {}
    }
}


/// `vvals` distributes over `push`.
pub proof fn lemma_vvals_push(vs: Seq<Value>, v: Value)
    ensures
        vvals(vs.push(v)) == vvals(vs).push(vval(v)),
{
    lemma_vvals_len_index(vs);
    lemma_vvals_len_index(vs.push(v));
    assert forall|i: int| 0 <= i < vs.len() + 1 implies vvals(vs.push(v))[i] == vvals(vs).push(
        vval(v),
    )[i] by {
        if i < vs.len() {
            assert(vs.push(v)[i] == vs[i]);
        } else {
            assert(vs.push(v)[i] == v);
        }
    }
    assert(vvals(vs.push(v)) =~= vvals(vs).push(vval(v)));
}

/// `ventries` distributes over `push`.
pub proof fn lemma_ventries_push(es: Seq<(u8, Value)>, x: (u8, Value))
    ensures
        ventries(es.push(x)) == ventries(es).push((x.0, vval(x.1))),
{
    lemma_ventries_len_index(es);
    lemma_ventries_len_index(es.push(x));
    assert forall|i: int|
        0 <= i < es.len() + 1 implies ventries(es.push(x))[i] == ventries(es).push(
        (x.0, vval(x.1)),
    )[i] by {
        if i < es.len() {
            assert(es.push(x)[i] == es[i]);
        } else {
            assert(es.push(x)[i] == x);
        }
    }
    assert(ventries(es.push(x)) =~= ventries(es).push((x.0, vval(x.1))));
}


/// MessagePack caps every container at `u32::MAX` items or bytes; a value
/// within those caps has a faithful wire form.
pub open spec fn val_sizes_ok(v: Val) -> bool
    decreases v, 2int, 0int,
{
    match v {
        Val::Str(s) => vstd::utf8::encode_utf8(s).len() <= 0xffffffff,
        Val::Bin(b) => b.len() <= 0xffffffff,
        Val::Arr(vs) => vs.len() <= 0xffffffff && vals_sizes_ok(vs),
        Val::Rec(es) => es.len() <= 0xffffffff && entries_sizes_ok(es),
        Val::Variant(_, p) => val_sizes_ok(*p),
        _ => true,
    }
}

/// Size caps for every element of a sequence of values.
pub open spec fn vals_sizes_ok(vs: Seq<Val>) -> bool
    decreases vs, 2int, 0int,
{
    if vs.len() == 0 {
        true
    } else {
        val_sizes_ok(vs[0]) && vals_sizes_ok(vs.drop_first())
    }
}

/// Size caps for every value of a sequence of entries.
pub open spec fn entries_sizes_ok(es: Seq<(u8, Val)>) -> bool
    decreases es, 2int, 0int,
{
    if es.len() == 0 {
        true
    } else {
        val_sizes_ok(es[0].1) && entries_sizes_ok(es.drop_first())
    }
}

/// Elementwise reading of `vals_sizes_ok`.
pub proof fn lemma_vals_sizes_ok_index(vs: Seq<Val>)
    requires
        vals_sizes_ok(vs),
    ensures
        forall|i: int| 0 <= i < vs.len() ==> val_sizes_ok(#[trigger] vs[i]),
    decreases vs.len(),
{
    if vs.len() > 0 {
        lemma_vals_sizes_ok_index(vs.drop_first());
        assert forall|i: int| 0 <= i < vs.len() implies val_sizes_ok(#[trigger] vs[i]) by {
            if i > 0 {
                assert(vs.drop_first()[i - 1] == vs[i]);
            }
        }
    }
}

/// Elementwise reading of `entries_sizes_ok`.
pub proof fn lemma_entries_sizes_ok_index(es: Seq<(u8, Val)>)
    requires
        entries_sizes_ok(es),
    ensures
        forall|i: int| 0 <= i < es.len() ==> val_sizes_ok((#[trigger] es[i]).1),
    decreases es.len(),
{
    if es.len() > 0 {
        lemma_entries_sizes_ok_index(es.drop_first());
        assert forall|i: int| 0 <= i < es.len() implies val_sizes_ok((#[trigger] es[i]).1) by {
            if i > 0 {
                assert(es.drop_first()[i - 1] == es[i]);
            }
        }
    }
}

} // verus!
