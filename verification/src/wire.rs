//! The MessagePack wire contract: the canonical (tightest) encoding of every
//! conforming value, a verified encoder that produces it, and a verified
//! decoder that accepts any valid MessagePack form of the schema type.

use vstd::prelude::*;

use crate::ir::{Enum, Struct, StructField, StructFieldType, Type};
use crate::value::{conforms, elems_conform, entries_match_from, entries_sizes_ok,
    entry_val_ok, enum_conforms, find_variant_ty, lookup_type, rec_conforms, val_sizes_ok,
    vals_sizes_ok, vval, ventries, vvals, Val, Value};
use vstd::string::StrSliceExecFns;

verus! {

/// The two big-endian bytes of `n`.
pub open spec fn be16(n: int) -> Seq<u8> {
    seq![((n / 0x100) % 0x100) as u8, (n % 0x100) as u8]
}

/// The four big-endian bytes of `n`.
pub open spec fn be32(n: int) -> Seq<u8> {
    seq![
        ((n / 0x1000000) % 0x100) as u8,
        ((n / 0x10000) % 0x100) as u8,
        ((n / 0x100) % 0x100) as u8,
        (n % 0x100) as u8,
    ]
}

/// The eight big-endian bytes of `n`.
pub open spec fn be64(n: int) -> Seq<u8> {
    seq![
        ((n / 0x100000000000000) % 0x100) as u8,
        ((n / 0x1000000000000) % 0x100) as u8,
        ((n / 0x10000000000) % 0x100) as u8,
        ((n / 0x100000000) % 0x100) as u8,
        ((n / 0x1000000) % 0x100) as u8,
        ((n / 0x10000) % 0x100) as u8,
        ((n / 0x100) % 0x100) as u8,
        (n % 0x100) as u8,
    ]
}

/// The tightest MessagePack form of an unsigned integer.
pub open spec fn enc_uint(n: u64) -> Seq<u8> {
    if n <= 0x7f {
        seq![n as u8]
    } else if n <= 0xff {
        seq![0xccu8, n as u8]
    } else if n <= 0xffff {
        seq![0xcdu8] + be16(n as int)
    } else if n <= 0xffffffff {
        seq![0xceu8] + be32(n as int)
    } else {
        seq![0xcfu8] + be64(n as int)
    }
}

/// The tightest MessagePack form of a signed integer: non-negative values
/// use the unsigned families, negative values the tightest signed family in
/// two's complement.
pub open spec fn enc_sint(n: i64) -> Seq<u8> {
    if n >= 0 {
        enc_uint(n as u64)
    } else if n >= -32 {
        seq![(n + 0x100) as u8]
    } else if n >= -0x80 {
        seq![0xd0u8, (n + 0x100) as u8]
    } else if n >= -0x8000 {
        seq![0xd1u8] + be16(n + 0x10000)
    } else if n >= -0x80000000 {
        seq![0xd2u8] + be32(n + 0x100000000)
    } else {
        seq![0xd3u8] + be64(n + 0x10000000000000000)
    }
}

/// The tightest str-family header for a byte length.
pub open spec fn enc_strhead(l: int) -> Seq<u8> {
    if l <= 0x1f {
        seq![(0xa0 + l) as u8]
    } else if l <= 0xff {
        seq![0xd9u8, l as u8]
    } else if l <= 0xffff {
        seq![0xdau8] + be16(l)
    } else {
        seq![0xdbu8] + be32(l)
    }
}

/// The tightest bin-family header for a byte length.
pub open spec fn enc_binhead(l: int) -> Seq<u8> {
    if l <= 0xff {
        seq![0xc4u8, l as u8]
    } else if l <= 0xffff {
        seq![0xc5u8] + be16(l)
    } else {
        seq![0xc6u8] + be32(l)
    }
}

/// The tightest array-family header for an element count.
pub open spec fn enc_arrhead(n: int) -> Seq<u8> {
    if n <= 0xf {
        seq![(0x90 + n) as u8]
    } else if n <= 0xffff {
        seq![0xdcu8] + be16(n)
    } else {
        seq![0xddu8] + be32(n)
    }
}

/// The tightest map-family header for a key count.
pub open spec fn enc_maphead(n: int) -> Seq<u8> {
    if n <= 0xf {
        seq![(0x80 + n) as u8]
    } else if n <= 0xffff {
        seq![0xdeu8] + be16(n)
    } else {
        seq![0xdfu8] + be32(n)
    }
}

/// The element type behind an `Array`'s shared pointer.
pub open spec fn rc_ty(items: &std::rc::Rc<StructFieldType>) -> StructFieldType {
    **items
}

/// The canonical wire form of a conforming value at a field type.
pub open spec fn enc_val(ts: Seq<Type>, t: StructFieldType, v: Val) -> Seq<u8>
    decreases v, 2int, 0int,
{
    match t {
        StructFieldType::Bool => match v {
            Val::Bool(b) => seq![if b { 0xc3u8 } else { 0xc2u8 }],
            _ => Seq::empty(),
        },
        StructFieldType::U8 | StructFieldType::U16 | StructFieldType::U32
            | StructFieldType::U64 => match v {
            Val::UInt(n) => enc_uint(n),
            _ => Seq::empty(),
        },
        StructFieldType::I8 | StructFieldType::I16 | StructFieldType::I32
            | StructFieldType::I64 => match v {
            Val::SInt(n) => enc_sint(n),
            _ => Seq::empty(),
        },
        StructFieldType::F32 => match v {
            Val::F32Bits(b) => seq![0xcau8] + be32(b as int),
            _ => Seq::empty(),
        },
        StructFieldType::F64 => match v {
            Val::F64Bits(b) => seq![0xcbu8] + be64(b as int),
            _ => Seq::empty(),
        },
        StructFieldType::String => match v {
            Val::Str(s) => enc_strhead(vstd::utf8::encode_utf8(s).len() as int)
                + vstd::utf8::encode_utf8(s),
            _ => Seq::empty(),
        },
        StructFieldType::Bytes { .. } => match v {
            Val::Bin(b) => enc_binhead(b.len() as int) + b,
            _ => Seq::empty(),
        },
        StructFieldType::Array { items } => match v {
            Val::Arr(elems) => enc_arrhead(elems.len() as int) + enc_elems(ts, *items, elems),
            _ => Seq::empty(),
        },
        StructFieldType::Reference { name } => match lookup_type(ts, name@) {
            Some(Type::Struct(st)) => enc_rec(ts, st, v),
            Some(Type::Enum(e)) => enc_enum(ts, e, v),
            None => Seq::empty(),
        },
    }
}

/// The concatenated canonical forms of array elements.
pub open spec fn enc_elems(ts: Seq<Type>, t: StructFieldType, vs: Seq<Val>) -> Seq<u8>
    decreases vs, 2int, 0int,
{
    if vs.len() == 0 {
        Seq::empty()
    } else {
        enc_val(ts, t, vs[0]) + enc_elems(ts, t, vs.drop_first())
    }
}

/// The canonical wire form of a struct value: a map of the present entries,
/// keyed by field id, in declared field order.
pub open spec fn enc_rec(ts: Seq<Type>, st: Struct, v: Val) -> Seq<u8>
    decreases v, 1int, 0int,
{
    match v {
        Val::Rec(entries) => enc_maphead(entries.len() as int) + enc_entries_from(
            ts,
            st.fields@,
            entries,
            0,
            0,
        ),
        _ => Seq::empty(),
    }
}

/// The concatenated key-value encodings of the entries from `ei` on against
/// the fields from `fi` on.
pub open spec fn enc_entries_from(
    ts: Seq<Type>,
    fields: Seq<StructField>,
    entries: Seq<(u8, Val)>,
    fi: int,
    ei: int,
) -> Seq<u8>
    decreases entries, 1int, fields.len() - fi,
{
    if fi < 0 || ei < 0 || fi >= fields.len() {
        Seq::empty()
    } else {
        let f = fields[fi];
        if ei < entries.len() && entries[ei].0 == f.id {
            enc_uint(f.id as u64) + enc_entry_val(ts, f, entries[ei].1) + enc_entries_from(
                ts,
                fields,
                entries,
                fi + 1,
                ei + 1,
            )
        } else {
            enc_entries_from(ts, fields, entries, fi + 1, ei)
        }
    }
}

/// The canonical wire form of one present entry's value.
pub open spec fn enc_entry_val(ts: Seq<Type>, f: StructField, ev: Val) -> Seq<u8>
    decreases ev, 2int, 1int,
{
    if ev is Nil {
        seq![0xc0u8]
    } else {
        enc_val(ts, f.ty, ev)
    }
}

/// The canonical wire form of an enum value: a bare integer for an untagged
/// enum, a two-element array of id and payload for a tagged enum.
pub open spec fn enc_enum(ts: Seq<Type>, e: Enum, v: Val) -> Seq<u8>
    decreases v, 1int, 0int,
{
    match e {
        Enum::Untagged { .. } => match v {
            Val::UInt(n) => enc_uint(n),
            _ => Seq::empty(),
        },
        Enum::Tagged { variants, .. } => match v {
            Val::Variant(id, payload) => enc_arrhead(2) + enc_uint(id as u64) + (
            match find_variant_ty(variants@, id) {
                Some(tyn) => match lookup_type(ts, tyn) {
                    Some(Type::Struct(st)) => enc_rec(ts, st, *payload),
                    _ => Seq::empty(),
                },
                None => Seq::empty(),
            }),
            _ => Seq::empty(),
        },
    }
}


proof fn lemma_lookup_prefix_miss(ts: Seq<Type>, n: Seq<char>, k: int)
    requires
        0 <= k <= ts.len(),
        forall|m: int| 0 <= m < k ==> crate::ir::decl_name(#[trigger] ts[m]) != n,
    ensures
        lookup_type(ts, n) == lookup_type(ts.skip(k), n),
    decreases k,
{
    if k > 0 {
        assert(crate::ir::decl_name(ts[0]) != n);
        assert forall|m: int| 0 <= m < k - 1 implies crate::ir::decl_name(
            #[trigger] ts.drop_first()[m],
        ) != n by {
            assert(ts.drop_first()[m] == ts[m + 1]);
        }
        lemma_lookup_prefix_miss(ts.drop_first(), n, k - 1);
        assert(ts.drop_first().skip(k - 1) =~= ts.skip(k));
    } else {
        assert(ts.skip(0) =~= ts);
    }
}

proof fn lemma_find_variant_prefix_miss(
    vs: Seq<crate::ir::TaggedEnumVariant>,
    id: u8,
    k: int,
)
    requires
        0 <= k <= vs.len(),
        forall|m: int| 0 <= m < k ==> (#[trigger] vs[m]).id != id,
    ensures
        find_variant_ty(vs, id) == find_variant_ty(vs.skip(k), id),
    decreases k,
{
    if k > 0 {
        assert forall|m: int| 0 <= m < k - 1 implies (#[trigger] vs.drop_first()[m]).id != id by {
            assert(vs.drop_first()[m] == vs[m + 1]);
        }
        lemma_find_variant_prefix_miss(vs.drop_first(), id, k - 1);
        assert(vs.drop_first().skip(k - 1) =~= vs.skip(k));
    } else {
        assert(vs.skip(0) =~= vs);
    }
}

/// Finds the declared type of the given name, returning its index.
fn lookup_idx(ts: &Vec<Type>, n: &str) -> (r: Option<usize>)
    ensures
        match r {
            Some(i) => i < ts@.len() && lookup_type(ts@, n@) == Some(ts@[i as int]),
            None => lookup_type(ts@, n@) is None,
        },
{
    let mut k: usize = 0;
    while k < ts.len()
        invariant
            k <= ts@.len(),
            forall|m: int| 0 <= m < k ==> crate::ir::decl_name(#[trigger] ts@[m]) != n@,
        decreases ts@.len() - k,
    {
        if crate::parse::str_eq(ts[k].name(), n) {
            proof {
                lemma_lookup_prefix_miss(ts@, n@, k as int);
                assert(ts@.skip(k as int)[0] == ts@[k as int]);
            }
            return Some(k);
        }
        k += 1;
    }
    proof {
        lemma_lookup_prefix_miss(ts@, n@, ts@.len() as int);
        assert(ts@.skip(ts@.len() as int) =~= Seq::<Type>::empty());
    }
    None
}

/// Finds the tagged variant with the given id, returning its index.
fn find_variant(vs: &Vec<crate::ir::TaggedEnumVariant>, id: u8) -> (r: Option<usize>)
    ensures
        match r {
            Some(k) => k < vs@.len() && vs@[k as int].id == id && find_variant_ty(vs@, id)
                == Some(vs@[k as int].ty@),
            None => find_variant_ty(vs@, id) is None,
        },
{
    let mut k: usize = 0;
    while k < vs.len()
        invariant
            k <= vs@.len(),
            forall|m: int| 0 <= m < k ==> (#[trigger] vs@[m]).id != id,
        decreases vs@.len() - k,
    {
        if vs[k].id == id {
            proof {
                lemma_find_variant_prefix_miss(vs@, id, k as int);
                assert(vs@.skip(k as int)[0] == vs@[k as int]);
            }
            return Some(k);
        }
        k += 1;
    }
    proof {
        lemma_find_variant_prefix_miss(vs@, id, vs@.len() as int);
        assert(vs@.skip(vs@.len() as int) =~= Seq::<crate::ir::TaggedEnumVariant>::empty());
    }
    None
}

fn push_be16(out: &mut Vec<u8>, m: u64)
    ensures
        final(out)@ == old(out)@ + be16(m as int),
{
    out.push(((m / 0x100) % 0x100) as u8);
    out.push((m % 0x100) as u8);
    proof {
        assert(out@ =~= old(out)@ + be16(m as int));
    }
}

fn push_be32(out: &mut Vec<u8>, m: u64)
    ensures
        final(out)@ == old(out)@ + be32(m as int),
{
    out.push(((m / 0x1000000) % 0x100) as u8);
    out.push(((m / 0x10000) % 0x100) as u8);
    out.push(((m / 0x100) % 0x100) as u8);
    out.push((m % 0x100) as u8);
    proof {
        assert(out@ =~= old(out)@ + be32(m as int));
    }
}

fn push_be64(out: &mut Vec<u8>, m: u64)
    ensures
        final(out)@ == old(out)@ + be64(m as int),
{
    out.push(((m / 0x100000000000000) % 0x100) as u8);
    out.push(((m / 0x1000000000000) % 0x100) as u8);
    out.push(((m / 0x10000000000) % 0x100) as u8);
    out.push(((m / 0x100000000) % 0x100) as u8);
    out.push(((m / 0x1000000) % 0x100) as u8);
    out.push(((m / 0x10000) % 0x100) as u8);
    out.push(((m / 0x100) % 0x100) as u8);
    out.push((m % 0x100) as u8);
    proof {
        assert(out@ =~= old(out)@ + be64(m as int));
    }
}

fn push_uint(out: &mut Vec<u8>, n: u64)
    ensures
        final(out)@ == old(out)@ + enc_uint(n),
{
    if n <= 0x7f {
        out.push(n as u8);
        proof {
            assert(out@ =~= old(out)@ + enc_uint(n));
        }
    } else if n <= 0xff {
        out.push(0xcc);
        out.push(n as u8);
        proof {
            assert(out@ =~= old(out)@ + enc_uint(n));
        }
    } else if n <= 0xffff {
        out.push(0xcd);
        push_be16(out, n);
        proof {
            assert(out@ =~= old(out)@ + enc_uint(n));
        }
    } else if n <= 0xffffffff {
        out.push(0xce);
        push_be32(out, n);
        proof {
            assert(out@ =~= old(out)@ + enc_uint(n));
        }
    } else {
        out.push(0xcf);
        push_be64(out, n);
        proof {
            assert(out@ =~= old(out)@ + enc_uint(n));
        }
    }
}

fn push_sint(out: &mut Vec<u8>, n: i64)
    ensures
        final(out)@ == old(out)@ + enc_sint(n),
{
    if n >= 0 {
        push_uint(out, n as u64);
    } else if n >= -32 {
        out.push((n + 0x100) as u8);
        proof {
            assert(out@ =~= old(out)@ + enc_sint(n));
        }
    } else if n >= -0x80 {
        out.push(0xd0);
        out.push((n + 0x100) as u8);
        proof {
            assert(out@ =~= old(out)@ + enc_sint(n));
        }
    } else if n >= -0x8000 {
        out.push(0xd1);
        push_be16(out, (n + 0x10000) as u64);
        proof {
            assert(out@ =~= old(out)@ + enc_sint(n));
        }
    } else if n >= -0x80000000 {
        out.push(0xd2);
        push_be32(out, (n + 0x100000000) as u64);
        proof {
            assert(out@ =~= old(out)@ + enc_sint(n));
        }
    } else {
        out.push(0xd3);
        let m: u64 = ((n as i128) + 0x10000000000000000i128) as u64;
        push_be64(out, m);
        proof {
            assert(out@ =~= old(out)@ + enc_sint(n));
        }
    }
}

fn push_strhead(out: &mut Vec<u8>, l: usize)
    ensures
        final(out)@ == old(out)@ + enc_strhead(l as int),
{
    if l <= 0x1f {
        out.push((0xa0 + l) as u8);
        proof {
            assert(out@ =~= old(out)@ + enc_strhead(l as int));
        }
    } else if l <= 0xff {
        out.push(0xd9);
        out.push(l as u8);
        proof {
            assert(out@ =~= old(out)@ + enc_strhead(l as int));
        }
    } else if l <= 0xffff {
        out.push(0xda);
        push_be16(out, l as u64);
        proof {
            assert(out@ =~= old(out)@ + enc_strhead(l as int));
        }
    } else {
        out.push(0xdb);
        push_be32(out, l as u64);
        proof {
            assert(out@ =~= old(out)@ + enc_strhead(l as int));
        }
    }
}

fn push_binhead(out: &mut Vec<u8>, l: usize)
    ensures
        final(out)@ == old(out)@ + enc_binhead(l as int),
{
    if l <= 0xff {
        out.push(0xc4);
        out.push(l as u8);
        proof {
            assert(out@ =~= old(out)@ + enc_binhead(l as int));
        }
    } else if l <= 0xffff {
        out.push(0xc5);
        push_be16(out, l as u64);
        proof {
            assert(out@ =~= old(out)@ + enc_binhead(l as int));
        }
    } else {
        out.push(0xc6);
        push_be32(out, l as u64);
        proof {
            assert(out@ =~= old(out)@ + enc_binhead(l as int));
        }
    }
}

fn push_arrhead(out: &mut Vec<u8>, n: usize)
    ensures
        final(out)@ == old(out)@ + enc_arrhead(n as int),
{
    if n <= 0xf {
        out.push((0x90 + n) as u8);
        proof {
            assert(out@ =~= old(out)@ + enc_arrhead(n as int));
        }
    } else if n <= 0xffff {
        out.push(0xdc);
        push_be16(out, n as u64);
        proof {
            assert(out@ =~= old(out)@ + enc_arrhead(n as int));
        }
    } else {
        out.push(0xdd);
        push_be32(out, n as u64);
        proof {
            assert(out@ =~= old(out)@ + enc_arrhead(n as int));
        }
    }
}

fn push_maphead(out: &mut Vec<u8>, n: usize)
    ensures
        final(out)@ == old(out)@ + enc_maphead(n as int),
{
    if n <= 0xf {
        out.push((0x80 + n) as u8);
        proof {
            assert(out@ =~= old(out)@ + enc_maphead(n as int));
        }
    } else if n <= 0xffff {
        out.push(0xde);
        push_be16(out, n as u64);
        proof {
            assert(out@ =~= old(out)@ + enc_maphead(n as int));
        }
    } else {
        out.push(0xdf);
        push_be32(out, n as u64);
        proof {
            assert(out@ =~= old(out)@ + enc_maphead(n as int));
        }
    }
}


/// Appends the canonical forms of the array elements, deciding conformance
/// and size caps element by element.
#[verifier::rlimit(100)]
#[verifier::loop_isolation(false)]
fn encode_elems_into(
    ts: &Vec<Type>,
    item_t: &StructFieldType,
    elems: &Vec<Value>,
    out: &mut Vec<u8>,
) -> (ok: bool)
    ensures
        ok == (elems_conform(ts@, *item_t, vvals(elems@)) && vals_sizes_ok(vvals(elems@))),
        ok ==> final(out)@ == old(out)@ + enc_elems(ts@, *item_t, vvals(elems@)),
    decreases *elems, 1int, 0int,
{
    let ghost it: StructFieldType = *item_t;
    let ghost evs = vvals(elems@);
    proof {
        crate::value::lemma_vvals_len_index(elems@);
    }
    let ghost base = out@;
    let ghost mut acc: Seq<u8> = Seq::empty();
    proof {
        assert(evs.skip(0) =~= evs);
        assert(base + acc =~= base);
    }
    let mut k: usize = 0;
    while k < elems.len()
        invariant
            k <= elems@.len(),
            evs == vvals(elems@),
            evs.len() == elems@.len(),
            forall|i: int| 0 <= i < elems@.len() ==> #[trigger] evs[i] == vval(elems@[i]),
            out@ == base + acc,
            enc_elems(ts@, it, evs) == acc + enc_elems(ts@, it, evs.skip(k as int)),
            elems_conform(ts@, it, evs) == elems_conform(ts@, it, evs.skip(k as int)),
            vals_sizes_ok(evs) == vals_sizes_ok(evs.skip(k as int)),
        decreases elems@.len() - k,
    {
        proof {
            assert(evs.skip(k as int)[0] == evs[k as int]);
            assert(evs.skip(k as int).drop_first() =~= evs.skip(k as int + 1));
            assert(decreases_to!(*elems => elems@));
            assert(decreases_to!(elems@ => elems@[k as int]));
            assert(decreases_to!(*elems => elems@[k as int]));
        }
        let ok1 = encode_into(ts, item_t, &elems[k], out);
        if !ok1 {
            proof {
                if !conforms(ts@, it, evs[k as int]) {
                    assert(!elems_conform(ts@, it, evs.skip(k as int)));
                } else {
                    assert(!val_sizes_ok(evs[k as int]));
                    assert(!vals_sizes_ok(evs.skip(k as int)));
                }
            }
            return false;
        }
        proof {
            acc = acc + enc_val(ts@, it, evs[k as int]);
        }
        k += 1;
    }
    proof {
        assert(evs.skip(evs.len() as int) =~= Seq::<Val>::empty());
        assert(out@ =~= old(out)@ + enc_elems(ts@, it, evs));
    }
    true
}

/// Appends the canonical form of `v` at field type `t`, deciding along the
/// way both conformance and MessagePack's `u32` container size caps.
#[verifier::rlimit(100)]
#[verifier::loop_isolation(false)]
fn encode_into(ts: &Vec<Type>, t: &StructFieldType, v: &Value, out: &mut Vec<u8>) -> (ok: bool)
    ensures
        ok == (conforms(ts@, *t, vval(*v)) && val_sizes_ok(vval(*v))),
        ok ==> final(out)@ == old(out)@ + enc_val(ts@, *t, vval(*v)),
    decreases *v, 2int, 0int,
{
    match t {
        StructFieldType::Bool => match v {
            Value::Bool(b) => {
                out.push(if *b { 0xc3 } else { 0xc2 });
                proof {
                    assert(out@ =~= old(out)@ + enc_val(ts@, *t, vval(*v)));
                }
                true
            }
            _ => false,
        },
        StructFieldType::U8 => match v {
            Value::UInt(n) => {
                if *n <= 0xff {
                    push_uint(out, *n);
                    true
                } else {
                    false
                }
            }
            _ => false,
        },
        StructFieldType::U16 => match v {
            Value::UInt(n) => {
                if *n <= 0xffff {
                    push_uint(out, *n);
                    true
                } else {
                    false
                }
            }
            _ => false,
        },
        StructFieldType::U32 => match v {
            Value::UInt(n) => {
                if *n <= 0xffffffff {
                    push_uint(out, *n);
                    true
                } else {
                    false
                }
            }
            _ => false,
        },
        StructFieldType::U64 => match v {
            Value::UInt(n) => {
                push_uint(out, *n);
                true
            }
            _ => false,
        },
        StructFieldType::I8 => match v {
            Value::SInt(n) => {
                if -0x80 <= *n && *n <= 0x7f {
                    push_sint(out, *n);
                    true
                } else {
                    false
                }
            }
            _ => false,
        },
        StructFieldType::I16 => match v {
            Value::SInt(n) => {
                if -0x8000 <= *n && *n <= 0x7fff {
                    push_sint(out, *n);
                    true
                } else {
                    false
                }
            }
            _ => false,
        },
        StructFieldType::I32 => match v {
            Value::SInt(n) => {
                if -0x80000000 <= *n && *n <= 0x7fffffff {
                    push_sint(out, *n);
                    true
                } else {
                    false
                }
            }
            _ => false,
        },
        StructFieldType::I64 => match v {
            Value::SInt(n) => {
                push_sint(out, *n);
                true
            }
            _ => false,
        },
        StructFieldType::F32 => match v {
            Value::F32Bits(b) => {
                out.push(0xca);
                push_be32(out, *b as u64);
                proof {
                    assert(out@ =~= old(out)@ + enc_val(ts@, *t, vval(*v)));
                }
                true
            }
            _ => false,
        },
        StructFieldType::F64 => match v {
            Value::F64Bits(b) => {
                out.push(0xcb);
                push_be64(out, *b);
                proof {
                    assert(out@ =~= old(out)@ + enc_val(ts@, *t, vval(*v)));
                }
                true
            }
            _ => false,
        },
        StructFieldType::String => match v {
            Value::Str(s) => {
                let mut bytes = s.as_str().as_bytes_vec();
                if bytes.len() as u64 > 0xffffffff {
                    return false;
                }
                push_strhead(out, bytes.len());
                out.append(&mut bytes);
                proof {
                    assert(out@ =~= old(out)@ + enc_val(ts@, *t, vval(*v)));
                }
                true
            }
            _ => false,
        },
        StructFieldType::Bytes { len } => match v {
            Value::Bin(b) => {
                if b.len() as u64 > 0xffffffff {
                    return false;
                }
                match len {
                    Some(l) => {
                        if b.len() as u64 != *l as u64 {
                            return false;
                        }
                    }
                    None => {}
                }
                push_binhead(out, b.len());
                let mut copy = b.clone();
                out.append(&mut copy);
                proof {
                    assert(out@ =~= old(out)@ + enc_val(ts@, *t, vval(*v)));
                }
                true
            }
            _ => false,
        },
        StructFieldType::Array { items } => match v {
            Value::Arr(elems) => {
                proof {
                    crate::value::lemma_vvals_len_index(elems@);
                }
                if elems.len() as u64 > 0xffffffff {
                    return false;
                }
                push_arrhead(out, elems.len());
                proof {
                    assert(decreases_to!(*v => (*v)->Arr_0));
                    assert((*v)->Arr_0 == *elems);
                }
                let ok1 = encode_elems_into(ts, &**items, elems, out);
                if !ok1 {
                    return false;
                }
                proof {
                    assert(out@ =~= old(out)@ + enc_val(ts@, *t, vval(*v)));
                }
                true
            }
            _ => false,
        },
        StructFieldType::Reference { name } => {
            match lookup_idx(ts, name.as_str()) {
                None => false,
                Some(ti) => match &ts[ti] {
                    Type::Struct(st) => encode_rec_into(ts, st, v, out),
                    Type::Enum(e) => encode_enum_into(ts, e, v, out),
                },
            }
        }
    }
}

/// Appends the canonical map form of a struct value.
#[verifier::rlimit(60)]
#[verifier::loop_isolation(false)]
fn encode_rec_into(ts: &Vec<Type>, st: &Struct, v: &Value, out: &mut Vec<u8>) -> (ok: bool)
    ensures
        ok == (rec_conforms(ts@, *st, vval(*v)) && val_sizes_ok(vval(*v))),
        ok ==> final(out)@ == old(out)@ + enc_rec(ts@, *st, vval(*v)),
    decreases *v, 1int, 0int,
{
    match v {
        Value::Rec(entries) => {
            let ghost ens = ventries(entries@);
            proof {
                crate::value::lemma_ventries_len_index(entries@);
            }
            if entries.len() as u64 > 0xffffffff {
                return false;
            }
            push_maphead(out, entries.len());
            let fields = &st.fields;
            let ghost fseq = st.fields@;
            let ghost base = out@;
            let ghost mut acc: Seq<u8> = Seq::empty();
            proof {
                assert(base + acc =~= base);
                assert(ens.skip(0) =~= ens);
            }
            let mut fi: usize = 0;
            let mut ei: usize = 0;
            while fi < fields.len()
                invariant
                    fseq == fields@,
                    fi <= fseq.len(),
                    ei <= entries@.len(),
                    ens == ventries(entries@),
                    ens.len() == entries@.len(),
                    forall|i: int|
                        0 <= i < entries@.len() ==> (#[trigger] ens[i]).0 == entries@[i].0
                            && ens[i].1 == vval(entries@[i].1),
                    out@ == base + acc,
                    enc_entries_from(ts@, fseq, ens, 0, 0) == acc + enc_entries_from(
                        ts@,
                        fseq,
                        ens,
                        fi as int,
                        ei as int,
                    ),
                    entries_match_from(ts@, fseq, ens, 0, 0) == entries_match_from(
                        ts@,
                        fseq,
                        ens,
                        fi as int,
                        ei as int,
                    ),
                    entries_sizes_ok(ens) == entries_sizes_ok(ens.skip(ei as int)),
                decreases fseq.len() - fi,
            {
                let f = &fields[fi];
                let present = ei < entries.len() && entries[ei].0 == f.id;
                if present {
                    push_uint(out, f.id as u64);
                    let nil_entry = matches!(&entries[ei].1, Value::Nil);
                    proof {
                        crate::value::lemma_vval_nil(entries@[ei as int].1);
                    }
                    if nil_entry {
                        if !f.nullable {
                            proof {
                                assert(ens[ei as int].1 is Nil);
                                assert(!entry_val_ok(ts@, fseq[fi as int], ens[ei as int].1));
                                assert(!entries_match_from(ts@, fseq, ens, fi as int, ei as int));
                            }
                            return false;
                        }
                        out.push(0xc0);
                        proof {
                            assert(ens.skip(ei as int)[0] == ens[ei as int]);
                            assert(ens.skip(ei as int).drop_first() =~= ens.skip(ei as int + 1));
                            assert(val_sizes_ok(ens[ei as int].1));
                            assert(entries_sizes_ok(ens.skip(ei as int)) == (val_sizes_ok(
                                ens[ei as int].1,
                            ) && entries_sizes_ok(ens.skip(ei as int + 1))));
                            let ghost_a = enc_uint(fseq[fi as int].id as u64);
                            let ghost_b = enc_entry_val(ts@, fseq[fi as int], ens[ei as int].1);
                            let rest = enc_entries_from(ts@, fseq, ens, fi as int + 1, ei as int + 1);
                            assert(ens[ei as int].1 is Nil);
                            assert(entry_val_ok(ts@, fseq[fi as int], ens[ei as int].1));
                            assert(entries_match_from(ts@, fseq, ens, fi as int, ei as int)
                                == entries_match_from(ts@, fseq, ens, fi as int + 1, ei as int + 1));
                            assert(enc_entries_from(ts@, fseq, ens, fi as int, ei as int)
                                == ghost_a + ghost_b + rest);
                            let old_acc = acc;
                            acc = acc + ghost_a + ghost_b;
                            assert(out@ =~= base + acc);
                            assert(old_acc + (ghost_a + ghost_b + rest) =~= acc + rest);
                        }
                    } else {
                        proof {
                            assert(decreases_to!(*v => (*v)->Rec_0));
                            assert((*v)->Rec_0 == *entries);
                            assert(decreases_to!(*entries => entries@));
                            assert(decreases_to!(entries@ => entries@[ei as int]));
                            assert(decreases_to!(entries@[ei as int] => entries@[ei as int].1));
                            assert(decreases_to!(*v => entries@[ei as int].1));
                        }
                        let ok1 = encode_into(ts, &f.ty, &entries[ei].1, out);
                        if !ok1 {
                            proof {
                                assert(ens.skip(ei as int)[0] == ens[ei as int]);
                                if !conforms(ts@, fseq[fi as int].ty, ens[ei as int].1) {
                                    assert(!entry_val_ok(ts@, fseq[fi as int], ens[ei as int].1));
                                    assert(!entries_match_from(
                                        ts@,
                                        fseq,
                                        ens,
                                        fi as int,
                                        ei as int,
                                    ));
                                } else {
                                    assert(!val_sizes_ok(ens[ei as int].1));
                                    assert(!entries_sizes_ok(ens.skip(ei as int)));
                                }
                            }
                            return false;
                        }
                        proof {
                            assert(ens.skip(ei as int)[0] == ens[ei as int]);
                            assert(ens.skip(ei as int).drop_first() =~= ens.skip(ei as int + 1));
                            assert(entries_sizes_ok(ens.skip(ei as int)) == (val_sizes_ok(
                                ens[ei as int].1,
                            ) && entries_sizes_ok(ens.skip(ei as int + 1))));
                            let ghost_a = enc_uint(fseq[fi as int].id as u64);
                            let ghost_b = enc_entry_val(ts@, fseq[fi as int], ens[ei as int].1);
                            let rest = enc_entries_from(ts@, fseq, ens, fi as int + 1, ei as int + 1);
                            assert(!(ens[ei as int].1 is Nil));
                            assert(entry_val_ok(ts@, fseq[fi as int], ens[ei as int].1));
                            assert(entries_match_from(ts@, fseq, ens, fi as int, ei as int)
                                == entries_match_from(ts@, fseq, ens, fi as int + 1, ei as int + 1));
                            assert(enc_entries_from(ts@, fseq, ens, fi as int, ei as int)
                                == ghost_a + ghost_b + rest);
                            let old_acc = acc;
                            acc = acc + ghost_a + ghost_b;
                            assert(out@ =~= base + acc);
                            assert(old_acc + (ghost_a + ghost_b + rest) =~= acc + rest);
                        }
                    }
                    fi += 1;
                    ei += 1;
                } else {
                    if !f.optional {
                        return false;
                    }
                    fi += 1;
                }
            }
            if ei != entries.len() {
                return false;
            }
            proof {
                assert(ens.skip(ens.len() as int) =~= Seq::<(u8, Val)>::empty());
                assert(out@ =~= old(out)@ + enc_rec(ts@, *st, vval(*v)));
            }
            true
        }
        _ => false,
    }
}

/// Appends the canonical form of an enum value: the bare id for an untagged
/// enum, the two-element array for a tagged enum.
#[verifier::rlimit(60)]
#[verifier::loop_isolation(false)]
fn encode_enum_into(ts: &Vec<Type>, e: &Enum, v: &Value, out: &mut Vec<u8>) -> (ok: bool)
    ensures
        ok == (enum_conforms(ts@, *e, vval(*v)) && val_sizes_ok(vval(*v))),
        ok ==> final(out)@ == old(out)@ + enc_enum(ts@, *e, vval(*v)),
    decreases *v, 1int, 0int,
{
    match e {
        Enum::Untagged { variants, .. } => match v {
            Value::UInt(n) => {
                let mut k: usize = 0;
                while k < variants.len()
                    invariant
                        k <= variants@.len(),
                        out@ == old(out)@,
                        forall|m: int| 0 <= m < k ==> !((#[trigger] variants@[m]).id == *n),
                    decreases variants@.len() - k,
                {
                    if variants[k].id as u64 == *n {
                        push_uint(out, *n);
                        proof {
                            assert((variants@[k as int]).id == *n);
                        }
                        return true;
                    }
                    k += 1;
                }
                false
            }
            _ => false,
        },
        Enum::Tagged { variants, .. } => match v {
            Value::Variant(id, payload) => {
                match find_variant(variants, *id) {
                    None => false,
                    Some(k) => {
                        match lookup_idx(ts, variants[k].ty.as_str()) {
                            None => false,
                            Some(ti) => match &ts[ti] {
                                Type::Struct(st2) => {
                                    push_arrhead(out, 2);
                                    push_uint(out, *id as u64);
                                    proof {
                                        assert(decreases_to!(*v => (*v)->Variant_1));
                                        assert((*v)->Variant_1 == **payload);
                                        assert(decreases_to!(*v => **payload));
                                    }
                                    let ok1 = encode_rec_into(ts, st2, &**payload, out);
                                    if !ok1 {
                                        return false;
                                    }
                                    proof {
                                        assert(out@ =~= old(out)@ + enc_enum(
                                            ts@,
                                            *e,
                                            vval(*v),
                                        ));
                                    }
                                    true
                                }
                                Type::Enum(_) => false,
                            },
                        }
                    }
                }
            }
            _ => false,
        },
    }
}

/// Encodes a conforming value of the field type `t` into its canonical
/// (tightest) MessagePack form.  Returns `None` exactly when the value does
/// not conform to the type under the declared types `ts`, or holds a
/// container beyond MessagePack's `u32` size caps.
pub fn encode_value(ts: &Vec<Type>, t: &StructFieldType, v: &Value) -> (r: Option<Vec<u8>>)
    ensures
        r is Some <==> conforms(ts@, *t, v@) && val_sizes_ok(v@),
        r matches Some(out) ==> out@ == enc_val(ts@, *t, v@),
{
    let mut out: Vec<u8> = Vec::new();
    if encode_into(ts, t, v, &mut out) {
        Some(out)
    } else {
        None
    }
}


/// The big-endian 16-bit value at `pos`.
pub open spec fn rd16(bytes: Seq<u8>, pos: int) -> int {
    bytes[pos] * 0x100 + bytes[pos + 1]
}

/// The big-endian 32-bit value at `pos`.
pub open spec fn rd32(bytes: Seq<u8>, pos: int) -> int {
    bytes[pos] * 0x1000000 + bytes[pos + 1] * 0x10000 + bytes[pos + 2] * 0x100 + bytes[pos + 3]
}

/// The big-endian 64-bit value at `pos`.
pub open spec fn rd64(bytes: Seq<u8>, pos: int) -> int {
    bytes[pos] * 0x100000000000000 + bytes[pos + 1] * 0x1000000000000 + bytes[pos + 2]
        * 0x10000000000 + bytes[pos + 3] * 0x100000000 + bytes[pos + 4] * 0x1000000 + bytes[pos
        + 5] * 0x10000 + bytes[pos + 6] * 0x100 + bytes[pos + 7]
}

/// Reads any MessagePack integer form at `pos`: its mathematical value and
/// the position after it.
pub open spec fn sd_int(bytes: Seq<u8>, pos: int) -> Option<(int, int)> {
    if pos < 0 || pos >= bytes.len() {
        None
    } else {
        let b = bytes[pos];
        if b <= 0x7f {
            Some((b as int, pos + 1))
        } else if b >= 0xe0 {
            Some((b - 0x100, pos + 1))
        } else if b == 0xcc {
            if pos + 2 <= bytes.len() {
                Some((bytes[pos + 1] as int, pos + 2))
            } else {
                None
            }
        } else if b == 0xcd {
            if pos + 3 <= bytes.len() {
                Some((rd16(bytes, pos + 1), pos + 3))
            } else {
                None
            }
        } else if b == 0xce {
            if pos + 5 <= bytes.len() {
                Some((rd32(bytes, pos + 1), pos + 5))
            } else {
                None
            }
        } else if b == 0xcf {
            if pos + 9 <= bytes.len() {
                Some((rd64(bytes, pos + 1), pos + 9))
            } else {
                None
            }
        } else if b == 0xd0 {
            if pos + 2 <= bytes.len() {
                let m = bytes[pos + 1] as int;
                Some(((if m >= 0x80 { m - 0x100 } else { m }), pos + 2))
            } else {
                None
            }
        } else if b == 0xd1 {
            if pos + 3 <= bytes.len() {
                let m = rd16(bytes, pos + 1);
                Some(((if m >= 0x8000 { m - 0x10000 } else { m }), pos + 3))
            } else {
                None
            }
        } else if b == 0xd2 {
            if pos + 5 <= bytes.len() {
                let m = rd32(bytes, pos + 1);
                Some(((if m >= 0x80000000 { m - 0x100000000 } else { m }), pos + 5))
            } else {
                None
            }
        } else if b == 0xd3 {
            if pos + 9 <= bytes.len() {
                let m = rd64(bytes, pos + 1);
                Some(
                    ((if m >= 0x8000000000000000 {
                        m - 0x10000000000000000
                    } else {
                        m
                    }), pos + 9),
                )
            } else {
                None
            }
        } else {
            None
        }
    }
}

/// Reads any str-family header: the payload byte length and the position
/// after the header.
pub open spec fn sd_strhead(bytes: Seq<u8>, pos: int) -> Option<(int, int)> {
    if pos < 0 || pos >= bytes.len() {
        None
    } else {
        let b = bytes[pos];
        if 0xa0 <= b <= 0xbf {
            Some(((b - 0xa0) as int, pos + 1))
        } else if b == 0xd9 {
            if pos + 2 <= bytes.len() {
                Some((bytes[pos + 1] as int, pos + 2))
            } else {
                None
            }
        } else if b == 0xda {
            if pos + 3 <= bytes.len() {
                Some((rd16(bytes, pos + 1), pos + 3))
            } else {
                None
            }
        } else if b == 0xdb {
            if pos + 5 <= bytes.len() {
                Some((rd32(bytes, pos + 1), pos + 5))
            } else {
                None
            }
        } else {
            None
        }
    }
}

/// Reads any bin-family header.
pub open spec fn sd_binhead(bytes: Seq<u8>, pos: int) -> Option<(int, int)> {
    if pos < 0 || pos >= bytes.len() {
        None
    } else {
        let b = bytes[pos];
        if b == 0xc4 {
            if pos + 2 <= bytes.len() {
                Some((bytes[pos + 1] as int, pos + 2))
            } else {
                None
            }
        } else if b == 0xc5 {
            if pos + 3 <= bytes.len() {
                Some((rd16(bytes, pos + 1), pos + 3))
            } else {
                None
            }
        } else if b == 0xc6 {
            if pos + 5 <= bytes.len() {
                Some((rd32(bytes, pos + 1), pos + 5))
            } else {
                None
            }
        } else {
            None
        }
    }
}

/// Reads any array-family header: the element count and the position after
/// the header.
pub open spec fn sd_arrhead(bytes: Seq<u8>, pos: int) -> Option<(int, int)> {
    if pos < 0 || pos >= bytes.len() {
        None
    } else {
        let b = bytes[pos];
        if 0x90 <= b <= 0x9f {
            Some(((b - 0x90) as int, pos + 1))
        } else if b == 0xdc {
            if pos + 3 <= bytes.len() {
                Some((rd16(bytes, pos + 1), pos + 3))
            } else {
                None
            }
        } else if b == 0xdd {
            if pos + 5 <= bytes.len() {
                Some((rd32(bytes, pos + 1), pos + 5))
            } else {
                None
            }
        } else {
            None
        }
    }
}

/// Reads any map-family header: the key count and the position after the
/// header.
pub open spec fn sd_maphead(bytes: Seq<u8>, pos: int) -> Option<(int, int)> {
    if pos < 0 || pos >= bytes.len() {
        None
    } else {
        let b = bytes[pos];
        if 0x80 <= b <= 0x8f {
            Some(((b - 0x80) as int, pos + 1))
        } else if b == 0xde {
            if pos + 3 <= bytes.len() {
                Some((rd16(bytes, pos + 1), pos + 3))
            } else {
                None
            }
        } else if b == 0xdf {
            if pos + 5 <= bytes.len() {
                Some((rd32(bytes, pos + 1), pos + 5))
            } else {
                None
            }
        } else {
            None
        }
    }
}

/// Skips `count` arbitrary MessagePack values starting at `pos`, returning
/// the position after them, or `None` if the input is malformed or
/// truncated.
pub open spec fn sd_skip(bytes: Seq<u8>, pos: int, count: int) -> Option<int>
    decreases bytes.len() - pos, 0int, count,
{
    if count <= 0 {
        Some(pos)
    } else if pos < 0 || pos >= bytes.len() {
        None
    } else {
        let b = bytes[pos];
        let step: Option<(int, int)> = if b <= 0x7f || b >= 0xe0 {
            Some((pos + 1, 0))
        } else if 0x80 <= b <= 0x8f {
            Some((pos + 1, 2 * ((b - 0x80) as int)))
        } else if 0x90 <= b <= 0x9f {
            Some((pos + 1, (b - 0x90) as int))
        } else if 0xa0 <= b <= 0xbf {
            Some((pos + 1 + ((b - 0xa0) as int), 0))
        } else if b == 0xc0 || b == 0xc2 || b == 0xc3 {
            Some((pos + 1, 0))
        } else if b == 0xc4 || b == 0xd9 {
            if pos + 2 <= bytes.len() {
                Some((pos + 2 + bytes[pos + 1], 0))
            } else {
                None
            }
        } else if b == 0xc5 || b == 0xda {
            if pos + 3 <= bytes.len() {
                Some((pos + 3 + rd16(bytes, pos + 1), 0))
            } else {
                None
            }
        } else if b == 0xc6 || b == 0xdb {
            if pos + 5 <= bytes.len() {
                Some((pos + 5 + rd32(bytes, pos + 1), 0))
            } else {
                None
            }
        } else if b == 0xc7 {
            if pos + 2 <= bytes.len() {
                Some((pos + 3 + bytes[pos + 1], 0))
            } else {
                None
            }
        } else if b == 0xc8 {
            if pos + 3 <= bytes.len() {
                Some((pos + 4 + rd16(bytes, pos + 1), 0))
            } else {
                None
            }
        } else if b == 0xc9 {
            if pos + 5 <= bytes.len() {
                Some((pos + 6 + rd32(bytes, pos + 1), 0))
            } else {
                None
            }
        } else if b == 0xca || b == 0xd2 || b == 0xce {
            Some((pos + 5, 0))
        } else if b == 0xcb || b == 0xd3 || b == 0xcf {
            Some((pos + 9, 0))
        } else if b == 0xcc || b == 0xd0 {
            Some((pos + 2, 0))
        } else if b == 0xcd || b == 0xd1 {
            Some((pos + 3, 0))
        } else if b == 0xd4 {
            Some((pos + 3, 0))
        } else if b == 0xd5 {
            Some((pos + 4, 0))
        } else if b == 0xd6 {
            Some((pos + 6, 0))
        } else if b == 0xd7 {
            Some((pos + 10, 0))
        } else if b == 0xd8 {
            Some((pos + 18, 0))
        } else if b == 0xdc {
            if pos + 3 <= bytes.len() {
                Some((pos + 3, rd16(bytes, pos + 1)))
            } else {
                None
            }
        } else if b == 0xdd {
            if pos + 5 <= bytes.len() {
                Some((pos + 5, rd32(bytes, pos + 1)))
            } else {
                None
            }
        } else if b == 0xde {
            if pos + 3 <= bytes.len() {
                Some((pos + 3, 2 * rd16(bytes, pos + 1)))
            } else {
                None
            }
        } else if b == 0xdf {
            if pos + 5 <= bytes.len() {
                Some((pos + 5, 2 * rd32(bytes, pos + 1)))
            } else {
                None
            }
        } else {
            None
        };
        match step {
            Some((newpos, extra)) => {
                if newpos <= bytes.len() {
                    sd_skip(bytes, newpos, count - 1 + extra)
                } else {
                    None
                }
            }
            None => None,
        }
    }
}

/// The position of the field with the given id, if any.
pub open spec fn field_index_of(fields: Seq<StructField>, key: int) -> Option<int>
    decreases fields.len(),
{
    if fields.len() == 0 {
        None
    } else if fields[0].id == key {
        Some(0int)
    } else {
        match field_index_of(fields.drop_first(), key) {
            Some(i) => Some(i + 1),
            None => None,
        }
    }
}

/// Builds the record entries, in declared field order, from the decoded
/// per-field assignment; `None` when a required field was never assigned.
pub open spec fn assemble_rec(
    fields: Seq<StructField>,
    acc: Seq<Option<Val>>,
    i: int,
) -> Option<Seq<(u8, Val)>>
    decreases fields.len() - i,
{
    if i < 0 || i >= fields.len() {
        Some(Seq::empty())
    } else {
        match assemble_rec(fields, acc, i + 1) {
            Some(rest) => match acc[i] {
                Some(v) => Some(seq![(fields[i].id, v)] + rest),
                None => {
                    if fields[i].optional {
                        Some(rest)
                    } else {
                        None
                    }
                }
            },
            None => None,
        }
    }
}

/// Decodes a value of field type `t` at `pos`, accepting any valid
/// MessagePack form of the type.
pub open spec fn sd_value(ts: Seq<Type>, t: StructFieldType, bytes: Seq<u8>, pos: int) -> Option<
    (Val, int),
>
    decreases bytes.len() - pos, 2int, 0int,
{
    match t {
        StructFieldType::Bool => {
            if 0 <= pos < bytes.len() && bytes[pos] == 0xc2 {
                Some((Val::Bool(false), pos + 1))
            } else if 0 <= pos < bytes.len() && bytes[pos] == 0xc3 {
                Some((Val::Bool(true), pos + 1))
            } else {
                None
            }
        }
        StructFieldType::U8 => sd_uint_range(bytes, pos, u8::MAX as int),
        StructFieldType::U16 => sd_uint_range(bytes, pos, u16::MAX as int),
        StructFieldType::U32 => sd_uint_range(bytes, pos, u32::MAX as int),
        StructFieldType::U64 => sd_uint_range(bytes, pos, u64::MAX as int),
        StructFieldType::I8 => sd_sint_range(bytes, pos, i8::MIN as int, i8::MAX as int),
        StructFieldType::I16 => sd_sint_range(bytes, pos, i16::MIN as int, i16::MAX as int),
        StructFieldType::I32 => sd_sint_range(bytes, pos, i32::MIN as int, i32::MAX as int),
        StructFieldType::I64 => sd_sint_range(bytes, pos, i64::MIN as int, i64::MAX as int),
        StructFieldType::F32 => {
            if 0 <= pos && pos + 5 <= bytes.len() && bytes[pos] == 0xca {
                Some((Val::F32Bits(rd32(bytes, pos + 1) as u32), pos + 5))
            } else {
                None
            }
        }
        StructFieldType::F64 => {
            if 0 <= pos && pos + 9 <= bytes.len() && bytes[pos] == 0xcb {
                Some((Val::F64Bits(rd64(bytes, pos + 1) as u64), pos + 9))
            } else {
                None
            }
        }
        StructFieldType::String => match sd_strhead(bytes, pos) {
            Some((l, p)) => {
                if p + l <= bytes.len() {
                    let data = bytes.subrange(p, p + l);
                    if vstd::utf8::valid_utf8(data) {
                        Some((Val::Str(vstd::utf8::decode_utf8(data)), p + l))
                    } else {
                        None
                    }
                } else {
                    None
                }
            }
            None => None,
        },
        StructFieldType::Bytes { len } => match sd_binhead(bytes, pos) {
            Some((l, p)) => {
                if p + l <= bytes.len() {
                    match len {
                        Some(n) => {
                            if l == n {
                                Some((Val::Bin(bytes.subrange(p, p + l)), p + l))
                            } else {
                                None
                            }
                        }
                        None => Some((Val::Bin(bytes.subrange(p, p + l)), p + l)),
                    }
                } else {
                    None
                }
            }
            None => None,
        },
        StructFieldType::Array { items } => match sd_arrhead(bytes, pos) {
            Some((n, p)) => match sd_elems(ts, *items, bytes, p, n) {
                Some((vs, e)) => Some((Val::Arr(vs), e)),
                None => None,
            },
            None => None,
        },
        StructFieldType::Reference { name } => match lookup_type(ts, name@) {
            Some(Type::Struct(st)) => sd_rec(ts, st, bytes, pos),
            Some(Type::Enum(e)) => sd_enum(ts, e, bytes, pos),
            None => None,
        },
    }
}

/// An unsigned integer decoded by `sd_int` and checked against `max`.
pub open spec fn sd_uint_range(bytes: Seq<u8>, pos: int, max: int) -> Option<(Val, int)> {
    match sd_int(bytes, pos) {
        Some((n, e)) => {
            if 0 <= n <= max {
                Some((Val::UInt(n as u64), e))
            } else {
                None
            }
        }
        None => None,
    }
}

/// A signed integer decoded by `sd_int` and checked against `[min, max]`.
pub open spec fn sd_sint_range(bytes: Seq<u8>, pos: int, min: int, max: int) -> Option<
    (Val, int),
> {
    match sd_int(bytes, pos) {
        Some((n, e)) => {
            if min <= n <= max {
                Some((Val::SInt(n as i64), e))
            } else {
                None
            }
        }
        None => None,
    }
}

/// Decodes `n` array elements of type `t` starting at `pos`.
pub open spec fn sd_elems(
    ts: Seq<Type>,
    t: StructFieldType,
    bytes: Seq<u8>,
    pos: int,
    n: int,
) -> Option<(Seq<Val>, int)>
    decreases bytes.len() - pos, 3int, n,
{
    if n <= 0 {
        Some((Seq::empty(), pos))
    } else {
        match sd_value(ts, t, bytes, pos) {
            Some((v, p1)) => {
                if p1 <= pos || p1 > bytes.len() {
                    None
                } else {
                    match sd_elems(ts, t, bytes, p1, n - 1) {
                        Some((vs, e)) => Some((seq![v] + vs, e)),
                        None => None,
                    }
                }
            }
            None => None,
        }
    }
}

/// Decodes a struct value at `pos`: a map whose keys may come in any order,
/// with unknown keys skipped, every required field present, and nil only for
/// nullable fields.
pub open spec fn sd_rec(ts: Seq<Type>, st: Struct, bytes: Seq<u8>, pos: int) -> Option<
    (Val, int),
>
    decreases bytes.len() - pos, 1int, 0int,
{
    match sd_maphead(bytes, pos) {
        Some((n, p)) => {
            if p <= pos || p > bytes.len() {
                None
            } else {
                match sd_entries(
                    ts,
                    st.fields@,
                    bytes,
                    p,
                    n,
                    Seq::new(st.fields@.len(), |i: int| None),
                ) {
                    Some((acc, e)) => match assemble_rec(st.fields@, acc, 0) {
                        Some(entries) => Some((Val::Rec(entries), e)),
                        None => None,
                    },
                    None => None,
                }
            }
        }
        None => None,
    }
}

/// Decodes `n` map entries, assigning each known key's value to its field
/// and skipping unknown keys; a later entry for the same key overwrites an
/// earlier one.
pub open spec fn sd_entries(
    ts: Seq<Type>,
    fields: Seq<StructField>,
    bytes: Seq<u8>,
    pos: int,
    n: int,
    acc: Seq<Option<Val>>,
) -> Option<(Seq<Option<Val>>, int)>
    decreases bytes.len() - pos, 3int, n,
{
    if n <= 0 {
        Some((acc, pos))
    } else {
        match sd_int(bytes, pos) {
            Some((key, p1)) => {
                if p1 <= pos || p1 > bytes.len() {
                    None
                } else {
                    match field_index_of(fields, key) {
                        Some(fidx) => {
                            if p1 < bytes.len() && bytes[p1] == 0xc0 {
                                if fields[fidx].nullable {
                                    sd_entries(
                                        ts,
                                        fields,
                                        bytes,
                                        p1 + 1,
                                        n - 1,
                                        acc.update(fidx, Some(Val::Nil)),
                                    )
                                } else {
                                    None
                                }
                            } else {
                                match sd_value(ts, fields[fidx].ty, bytes, p1) {
                                    Some((v, p2)) => {
                                        if p2 <= p1 || p2 > bytes.len() {
                                            None
                                        } else {
                                            sd_entries(
                                                ts,
                                                fields,
                                                bytes,
                                                p2,
                                                n - 1,
                                                acc.update(fidx, Some(v)),
                                            )
                                        }
                                    }
                                    None => None,
                                }
                            }
                        }
                        None => match sd_skip(bytes, p1, 1) {
                            Some(p2) => {
                                if p2 <= p1 || p2 > bytes.len() {
                                    None
                                } else {
                                    sd_entries(ts, fields, bytes, p2, n - 1, acc)
                                }
                            }
                            None => None,
                        },
                    }
                }
            }
            None => None,
        }
    }
}

/// Decodes an enum value at `pos`: a declared id for an untagged enum, or a
/// two-element array of a declared id and its payload struct for a tagged
/// enum.
pub open spec fn sd_enum(ts: Seq<Type>, e: Enum, bytes: Seq<u8>, pos: int) -> Option<(Val, int)>
    decreases bytes.len() - pos, 1int, 0int,
{
    match e {
        Enum::Untagged { variants, .. } => match sd_int(bytes, pos) {
            Some((n, p)) => {
                if exists|k: int| 0 <= k < variants@.len() && (#[trigger] variants@[k]).id == n {
                    Some((Val::UInt(n as u64), p))
                } else {
                    None
                }
            }
            None => None,
        },
        Enum::Tagged { variants, .. } => match sd_arrhead(bytes, pos) {
            Some((n, p)) => {
                if n != 2 || p <= pos || p > bytes.len() {
                    None
                } else {
                    match sd_int(bytes, p) {
                        Some((id, p1)) => {
                            if p1 <= p || p1 > bytes.len() || !(0 <= id <= 0xff) {
                                None
                            } else {
                                match find_variant_ty(variants@, id as u8) {
                                    Some(tyn) => match lookup_type(ts, tyn) {
                                        Some(Type::Struct(st)) => match sd_rec(
                                            ts,
                                            st,
                                            bytes,
                                            p1,
                                        ) {
                                            Some((pv, e2)) => Some(
                                                (Val::Variant(id as u8, Box::new(pv)), e2),
                                            ),
                                            None => None,
                                        },
                                        _ => None,
                                    },
                                    None => None,
                                }
                            }
                        }
                        None => None,
                    }
                }
            }
            None => None,
        },
    }
}


/// The first required field that the decoded assignment leaves unassigned,
/// scanning from `i`.
pub open spec fn first_missing(
    fields: Seq<StructField>,
    acc: Seq<Option<Val>>,
    i: int,
) -> Option<int>
    decreases fields.len() - i,
{
    if i < 0 || i >= fields.len() {
        None
    } else if acc[i] is None && !fields[i].optional {
        Some(i)
    } else {
        first_missing(fields, acc, i + 1)
    }
}

proof fn lemma_first_missing_prefix(fields: Seq<StructField>, acc: Seq<Option<Val>>, i: int)
    requires
        0 <= i <= fields.len(),
        forall|m: int| 0 <= m < i ==> (#[trigger] acc[m]) is Some || fields[m].optional,
    ensures
        first_missing(fields, acc, 0) == first_missing(fields, acc, i),
    decreases i,
{
    if i > 0 {
        lemma_first_missing_prefix(fields, acc, i - 1);
    }
}

/// Why a decode failed.  `MissingField` names the absent required field;
/// the other kinds classify the first offending byte sequence.
#[derive(Clone, Debug, PartialEq, Eq)]
pub enum DecodeError {
    Truncated,
    TypeMismatch,
    IntOutOfRange,
    WrongLength,
    InvalidUtf8,
    NullNotAllowed,
    MissingField { name: String },
    UnknownVariantId,
    WrongArity,
    UnknownType { name: String },
    TrailingBytes,
    Malformed,
}

fn rd16e(bytes: &Vec<u8>, pos: usize) -> (r: u64)
    requires
        pos + 2 <= bytes@.len(),
    ensures
        r as int == rd16(bytes@, pos as int),
{
    let n = bytes.len();
    (bytes[pos] as u64) * 0x100 + (bytes[pos + 1] as u64)
}

fn rd32e(bytes: &Vec<u8>, pos: usize) -> (r: u64)
    requires
        pos + 4 <= bytes@.len(),
    ensures
        r as int == rd32(bytes@, pos as int),
{
    let n = bytes.len();
    (bytes[pos] as u64) * 0x1000000 + (bytes[pos + 1] as u64) * 0x10000 + (bytes[pos + 2]
        as u64) * 0x100 + (bytes[pos + 3] as u64)
}

fn rd64e(bytes: &Vec<u8>, pos: usize) -> (r: u64)
    requires
        pos + 8 <= bytes@.len(),
    ensures
        r as int == rd64(bytes@, pos as int),
{
    let n = bytes.len();
    (bytes[pos] as u64) * 0x100000000000000 + (bytes[pos + 1] as u64) * 0x1000000000000 + (
    bytes[pos + 2] as u64) * 0x10000000000 + (bytes[pos + 3] as u64) * 0x100000000 + (bytes[pos
        + 4] as u64) * 0x1000000 + (bytes[pos + 5] as u64) * 0x10000 + (bytes[pos + 6] as u64)
        * 0x100 + (bytes[pos + 7] as u64)
}

/// Reads any MessagePack integer form.
fn dec_int(bytes: &Vec<u8>, pos: usize) -> (r: Option<(i128, usize)>)
    ensures
        match r {
            Some((n, e)) => sd_int(bytes@, pos as int) == Some((n as int, e as int)) && pos < e
                <= bytes@.len(),
            None => sd_int(bytes@, pos as int) is None,
        },
{
    if pos >= bytes.len() {
        return None;
    }
    let b = bytes[pos];
    if b <= 0x7f {
        Some((b as i128, pos + 1))
    } else if b >= 0xe0 {
        Some((b as i128 - 0x100, pos + 1))
    } else if b == 0xcc {
        if bytes.len() - pos >= 2 {
            Some((bytes[pos + 1] as i128, pos + 2))
        } else {
            None
        }
    } else if b == 0xcd {
        if bytes.len() - pos >= 3 {
            Some((rd16e(bytes, pos + 1) as i128, pos + 3))
        } else {
            None
        }
    } else if b == 0xce {
        if bytes.len() - pos >= 5 {
            Some((rd32e(bytes, pos + 1) as i128, pos + 5))
        } else {
            None
        }
    } else if b == 0xcf {
        if bytes.len() - pos >= 9 {
            Some((rd64e(bytes, pos + 1) as i128, pos + 9))
        } else {
            None
        }
    } else if b == 0xd0 {
        if bytes.len() - pos >= 2 {
            let m = bytes[pos + 1];
            Some((if m >= 0x80 { m as i128 - 0x100 } else { m as i128 }, pos + 2))
        } else {
            None
        }
    } else if b == 0xd1 {
        if bytes.len() - pos >= 3 {
            let m = rd16e(bytes, pos + 1);
            Some((if m >= 0x8000 { m as i128 - 0x10000 } else { m as i128 }, pos + 3))
        } else {
            None
        }
    } else if b == 0xd2 {
        if bytes.len() - pos >= 5 {
            let m = rd32e(bytes, pos + 1);
            Some((if m >= 0x80000000 { m as i128 - 0x100000000 } else { m as i128 }, pos + 5))
        } else {
            None
        }
    } else if b == 0xd3 {
        if bytes.len() - pos >= 9 {
            let m = rd64e(bytes, pos + 1);
            Some(
                (
                    if m >= 0x8000000000000000 {
                        m as i128 - 0x10000000000000000i128
                    } else {
                        m as i128
                    },
                    pos + 9,
                ),
            )
        } else {
            None
        }
    } else {
        None
    }
}

/// Reads any str-family header.
fn dec_strhead(bytes: &Vec<u8>, pos: usize) -> (r: Option<(usize, usize)>)
    ensures
        match r {
            Some((l, p)) => sd_strhead(bytes@, pos as int) == Some((l as int, p as int)) && pos
                < p <= bytes@.len(),
            None => sd_strhead(bytes@, pos as int) is None,
        },
{
    if pos >= bytes.len() {
        return None;
    }
    let b = bytes[pos];
    if 0xa0 <= b && b <= 0xbf {
        Some(((b - 0xa0) as usize, pos + 1))
    } else if b == 0xd9 {
        if bytes.len() - pos >= 2 {
            Some((bytes[pos + 1] as usize, pos + 2))
        } else {
            None
        }
    } else if b == 0xda {
        if bytes.len() - pos >= 3 {
            Some((rd16e(bytes, pos + 1) as usize, pos + 3))
        } else {
            None
        }
    } else if b == 0xdb {
        if bytes.len() - pos >= 5 {
            Some((rd32e(bytes, pos + 1) as usize, pos + 5))
        } else {
            None
        }
    } else {
        None
    }
}

/// Reads any bin-family header.
fn dec_binhead(bytes: &Vec<u8>, pos: usize) -> (r: Option<(usize, usize)>)
    ensures
        match r {
            Some((l, p)) => sd_binhead(bytes@, pos as int) == Some((l as int, p as int)) && pos
                < p <= bytes@.len(),
            None => sd_binhead(bytes@, pos as int) is None,
        },
{
    if pos >= bytes.len() {
        return None;
    }
    let b = bytes[pos];
    if b == 0xc4 {
        if bytes.len() - pos >= 2 {
            Some((bytes[pos + 1] as usize, pos + 2))
        } else {
            None
        }
    } else if b == 0xc5 {
        if bytes.len() - pos >= 3 {
            Some((rd16e(bytes, pos + 1) as usize, pos + 3))
        } else {
            None
        }
    } else if b == 0xc6 {
        if bytes.len() - pos >= 5 {
            Some((rd32e(bytes, pos + 1) as usize, pos + 5))
        } else {
            None
        }
    } else {
        None
    }
}

/// Reads any array-family header.
fn dec_arrhead(bytes: &Vec<u8>, pos: usize) -> (r: Option<(usize, usize)>)
    ensures
        match r {
            Some((n, p)) => sd_arrhead(bytes@, pos as int) == Some((n as int, p as int)) && pos
                < p <= bytes@.len(),
            None => sd_arrhead(bytes@, pos as int) is None,
        },
{
    if pos >= bytes.len() {
        return None;
    }
    let b = bytes[pos];
    if 0x90 <= b && b <= 0x9f {
        Some(((b - 0x90) as usize, pos + 1))
    } else if b == 0xdc {
        if bytes.len() - pos >= 3 {
            Some((rd16e(bytes, pos + 1) as usize, pos + 3))
        } else {
            None
        }
    } else if b == 0xdd {
        if bytes.len() - pos >= 5 {
            Some((rd32e(bytes, pos + 1) as usize, pos + 5))
        } else {
            None
        }
    } else {
        None
    }
}

/// Reads any map-family header.
fn dec_maphead(bytes: &Vec<u8>, pos: usize) -> (r: Option<(usize, usize)>)
    ensures
        match r {
            Some((n, p)) => sd_maphead(bytes@, pos as int) == Some((n as int, p as int)) && pos
                < p <= bytes@.len(),
            None => sd_maphead(bytes@, pos as int) is None,
        },
{
    if pos >= bytes.len() {
        return None;
    }
    let b = bytes[pos];
    if 0x80 <= b && b <= 0x8f {
        Some(((b - 0x80) as usize, pos + 1))
    } else if b == 0xde {
        if bytes.len() - pos >= 3 {
            Some((rd16e(bytes, pos + 1) as usize, pos + 3))
        } else {
            None
        }
    } else if b == 0xdf {
        if bytes.len() - pos >= 5 {
            Some((rd32e(bytes, pos + 1) as usize, pos + 5))
        } else {
            None
        }
    } else {
        None
    }
}

/// Skips `count` arbitrary MessagePack values.
#[verifier::rlimit(100)]
#[verifier::loop_isolation(false)]
fn skip_values(bytes: &Vec<u8>, pos: usize, count: usize) -> (r: Option<usize>)
    requires
        pos <= bytes@.len(),
    ensures
        match r {
            Some(e) => sd_skip(bytes@, pos as int, count as int) == Some(e as int) && pos <= e
                <= bytes@.len() && (count > 0 ==> pos < e),
            None => sd_skip(bytes@, pos as int, count as int) is None,
        },
{
    let mut cur = pos;
    let mut cnt: u128 = count as u128;
    while cnt > 0
        invariant
            pos <= cur <= bytes@.len(),
            cur == pos ==> cnt == count as u128,
            cnt as int <= count + (cur - pos) * 0x200000000,
            sd_skip(bytes@, pos as int, count as int) == sd_skip(bytes@, cur as int, cnt as int),
        decreases bytes@.len() - cur,
    {
        if cur >= bytes.len() {
            return None;
        }
        let b = bytes[cur];
        let step: Option<(u128, u128)> = if b <= 0x7f || b >= 0xe0 {
            Some((cur as u128 + 1, 0))
        } else if 0x80 <= b && b <= 0x8f {
            Some((cur as u128 + 1, 2 * ((b - 0x80) as u128)))
        } else if 0x90 <= b && b <= 0x9f {
            Some((cur as u128 + 1, (b - 0x90) as u128))
        } else if b == 0xc0 || b == 0xc2 || b == 0xc3 {
            Some((cur as u128 + 1, 0))
        } else if 0xa0 <= b && b <= 0xbf {
            Some((cur as u128 + 1 + ((b - 0xa0) as u128), 0))
        } else if b == 0xc4 || b == 0xd9 {
            if bytes.len() - cur >= 2 {
                Some((cur as u128 + 2 + (bytes[cur + 1] as u128), 0))
            } else {
                None
            }
        } else if b == 0xc5 || b == 0xda {
            if bytes.len() - cur >= 3 {
                Some((cur as u128 + 3 + (rd16e(bytes, cur + 1) as u128), 0))
            } else {
                None
            }
        } else if b == 0xc6 || b == 0xdb {
            if bytes.len() - cur >= 5 {
                Some((cur as u128 + 5 + (rd32e(bytes, cur + 1) as u128), 0))
            } else {
                None
            }
        } else if b == 0xc7 {
            if bytes.len() - cur >= 2 {
                Some((cur as u128 + 3 + (bytes[cur + 1] as u128), 0))
            } else {
                None
            }
        } else if b == 0xc8 {
            if bytes.len() - cur >= 3 {
                Some((cur as u128 + 4 + (rd16e(bytes, cur + 1) as u128), 0))
            } else {
                None
            }
        } else if b == 0xc9 {
            if bytes.len() - cur >= 5 {
                Some((cur as u128 + 6 + (rd32e(bytes, cur + 1) as u128), 0))
            } else {
                None
            }
        } else if b == 0xca || b == 0xd2 || b == 0xce {
            Some((cur as u128 + 5, 0))
        } else if b == 0xcb || b == 0xd3 || b == 0xcf {
            Some((cur as u128 + 9, 0))
        } else if b == 0xcc || b == 0xd0 {
            Some((cur as u128 + 2, 0))
        } else if b == 0xcd || b == 0xd1 {
            Some((cur as u128 + 3, 0))
        } else if b == 0xd4 {
            Some((cur as u128 + 3, 0))
        } else if b == 0xd5 {
            Some((cur as u128 + 4, 0))
        } else if b == 0xd6 {
            Some((cur as u128 + 6, 0))
        } else if b == 0xd7 {
            Some((cur as u128 + 10, 0))
        } else if b == 0xd8 {
            Some((cur as u128 + 18, 0))
        } else if b == 0xdc {
            if bytes.len() - cur >= 3 {
                Some((cur as u128 + 3, rd16e(bytes, cur + 1) as u128))
            } else {
                None
            }
        } else if b == 0xdd {
            if bytes.len() - cur >= 5 {
                Some((cur as u128 + 5, rd32e(bytes, cur + 1) as u128))
            } else {
                None
            }
        } else if b == 0xde {
            if bytes.len() - cur >= 3 {
                Some((cur as u128 + 3, 2 * (rd16e(bytes, cur + 1) as u128)))
            } else {
                None
            }
        } else if b == 0xdf {
            if bytes.len() - cur >= 5 {
                Some((cur as u128 + 5, 2 * (rd32e(bytes, cur + 1) as u128)))
            } else {
                None
            }
        } else {
            None
        };
        match step {
            Some((np, extra)) => {
                if np > bytes.len() as u128 {
                    return None;
                }
                cnt = cnt - 1 + extra;
                cur = np as usize;
            }
            None => {
                return None;
            }
        }
    }
    Some(cur)
}

/// Copies `bytes[from..to]` into a fresh vector.
fn copy_range(bytes: &Vec<u8>, from: usize, to: usize) -> (r: Vec<u8>)
    requires
        from <= to <= bytes@.len(),
    ensures
        r@ == bytes@.subrange(from as int, to as int),
{
    let mut r: Vec<u8> = Vec::new();
    let mut k = from;
    while k < to
        invariant
            from <= k <= to <= bytes@.len(),
            r@ == bytes@.subrange(from as int, k as int),
        decreases to - k,
    {
        r.push(bytes[k]);
        proof {
            assert(r@ =~= bytes@.subrange(from as int, k as int + 1));
        }
        k += 1;
    }
    proof {
        assert(r@ =~= bytes@.subrange(from as int, to as int));
    }
    r
}

/// Relies on String::from_utf8: it succeeds exactly on valid UTF-8 input,
/// and the returned string's UTF-8 bytes are the input bytes.
#[verifier::external_body]
fn string_from_utf8(v: Vec<u8>) -> (r: Option<String>)
    ensures
        r is Some <==> vstd::utf8::valid_utf8(v@),
        r matches Some(s) ==> vstd::utf8::encode_utf8(s@) == v@,
{
    String::from_utf8(v).ok()
}

proof fn lemma_field_index_found(fields: Seq<StructField>, key: int, k: int)
    requires
        0 <= k < fields.len(),
        fields[k].id == key,
        forall|m: int| 0 <= m < k ==> (#[trigger] fields[m]).id != key,
    ensures
        field_index_of(fields, key) == Some(k),
    decreases fields.len(),
{
    if k == 0 {
    } else {
        assert(fields[0].id != key);
        assert forall|m: int| 0 <= m < k - 1 implies (#[trigger] fields.drop_first()[m]).id
            != key by {
            assert(fields.drop_first()[m] == fields[m + 1]);
        }
        assert(fields.drop_first()[k - 1] == fields[k]);
        lemma_field_index_found(fields.drop_first(), key, k - 1);
    }
}

proof fn lemma_field_index_none(fields: Seq<StructField>, key: int, k: int)
    requires
        forall|m: int| 0 <= m < fields.len() ==> (#[trigger] fields[m]).id != key,
    ensures
        field_index_of(fields, key) is None,
    decreases fields.len(),
{
    if fields.len() > 0 {
        assert forall|m: int|
            0 <= m < fields.drop_first().len() implies (#[trigger] fields.drop_first()[m]).id
            != key by {
            assert(fields.drop_first()[m] == fields[m + 1]);
        }
        lemma_field_index_none(fields.drop_first(), key, 0);
    }
}

/// Finds the field with the given id.
fn field_idx(fields: &Vec<StructField>, key: i128) -> (r: Option<usize>)
    ensures
        match r {
            Some(i) => field_index_of(fields@, key as int) == Some(i as int) && i < fields@.len()
                && fields@[i as int].id == key,
            None => field_index_of(fields@, key as int) is None,
        },
{
    let mut k: usize = 0;
    while k < fields.len()
        invariant
            k <= fields@.len(),
            forall|m: int| 0 <= m < k ==> (#[trigger] fields@[m]).id != key,
        decreases fields@.len() - k,
    {
        if fields[k].id as i128 == key {
            proof {
                lemma_field_index_found(fields@, key as int, k as int);
            }
            return Some(k);
        }
        k += 1;
    }
    proof {
        lemma_field_index_none(fields@, key as int, 0);
    }
    None
}


/// Prepends already-decoded elements to the rest of an element decode.
pub open spec fn elems_combine(prefix: Seq<Val>, r: Option<(Seq<Val>, int)>) -> Option<
    (Seq<Val>, int),
> {
    match r {
        Some((vs, e)) => Some((prefix + vs, e)),
        None => None,
    }
}

/// Prepends already-assembled entries to the rest of a record assembly.
pub open spec fn rec_combine(prefix: Seq<(u8, Val)>, r: Option<Seq<(u8, Val)>>) -> Option<
    Seq<(u8, Val)>,
> {
    match r {
        Some(rest) => Some(prefix + rest),
        None => None,
    }
}

fn dec_uint_of(bytes: &Vec<u8>, pos: usize, max: u64) -> (r: Result<(Value, usize), DecodeError>)
    ensures
        match r {
            Ok((v, e)) => sd_uint_range(bytes@, pos as int, max as int) == Some((v@, e as int))
                && pos < e <= bytes@.len(),
            Err(_) => sd_uint_range(bytes@, pos as int, max as int) is None,
        },
{
    match dec_int(bytes, pos) {
        Some((n, e)) => {
            if 0 <= n && n <= max as i128 {
                Ok((Value::UInt(n as u64), e))
            } else {
                Err(DecodeError::IntOutOfRange)
            }
        }
        None => Err(DecodeError::TypeMismatch),
    }
}

fn dec_sint_of(bytes: &Vec<u8>, pos: usize, min: i64, max: i64) -> (r: Result<
    (Value, usize),
    DecodeError,
>)
    ensures
        match r {
            Ok((v, e)) => sd_sint_range(bytes@, pos as int, min as int, max as int) == Some(
                (v@, e as int),
            ) && pos < e <= bytes@.len(),
            Err(_) => sd_sint_range(bytes@, pos as int, min as int, max as int) is None,
        },
{
    match dec_int(bytes, pos) {
        Some((n, e)) => {
            if min as i128 <= n && n <= max as i128 {
                Ok((Value::SInt(n as i64), e))
            } else {
                Err(DecodeError::IntOutOfRange)
            }
        }
        None => Err(DecodeError::TypeMismatch),
    }
}

/// Decodes one value of field type `t` at `pos`, accepting any valid
/// MessagePack form of the type.
#[verifier::rlimit(100)]
#[verifier::loop_isolation(false)]
fn dec_value(ts: &Vec<Type>, t: &StructFieldType, bytes: &Vec<u8>, pos: usize) -> (r: Result<
    (Value, usize),
    DecodeError,
>)
    requires
        pos <= bytes@.len(),
    ensures
        match r {
            Ok((v, e)) => sd_value(ts@, *t, bytes@, pos as int) == Some((v@, e as int)) && pos
                < e <= bytes@.len(),
            Err(_) => sd_value(ts@, *t, bytes@, pos as int) is None,
        },
        (match *t {
            StructFieldType::Reference { name } => match lookup_type(ts@, name@) {
                Some(Type::Struct(st)) => rec_missing_reported(ts@, st, bytes@, pos as int, r),
                _ => true,
            },
            _ => true,
        }),
    decreases bytes@.len() - pos, 2int, 0int,
{
    match t {
        StructFieldType::Bool => {
            if pos < bytes.len() && bytes[pos] == 0xc2 {
                Ok((Value::Bool(false), pos + 1))
            } else if pos < bytes.len() && bytes[pos] == 0xc3 {
                Ok((Value::Bool(true), pos + 1))
            } else {
                Err(DecodeError::TypeMismatch)
            }
        }
        StructFieldType::U8 => dec_uint_of(bytes, pos, 0xff),
        StructFieldType::U16 => dec_uint_of(bytes, pos, 0xffff),
        StructFieldType::U32 => dec_uint_of(bytes, pos, 0xffffffff),
        StructFieldType::U64 => dec_uint_of(bytes, pos, 0xffffffffffffffff),
        StructFieldType::I8 => dec_sint_of(bytes, pos, -0x80, 0x7f),
        StructFieldType::I16 => dec_sint_of(bytes, pos, -0x8000, 0x7fff),
        StructFieldType::I32 => dec_sint_of(bytes, pos, -0x80000000, 0x7fffffff),
        StructFieldType::I64 => dec_sint_of(bytes, pos, i64::MIN, i64::MAX),
        StructFieldType::F32 => {
            if bytes.len() - pos >= 5 && bytes[pos] == 0xca {
                Ok((Value::F32Bits(rd32e(bytes, pos + 1) as u32), pos + 5))
            } else {
                Err(DecodeError::TypeMismatch)
            }
        }
        StructFieldType::F64 => {
            if bytes.len() - pos >= 9 && bytes[pos] == 0xcb {
                Ok((Value::F64Bits(rd64e(bytes, pos + 1)), pos + 9))
            } else {
                Err(DecodeError::TypeMismatch)
            }
        }
        StructFieldType::String => {
            match dec_strhead(bytes, pos) {
                None => Err(DecodeError::TypeMismatch),
                Some((l, p)) => {
                    if bytes.len() - p < l {
                        Err(DecodeError::Truncated)
                    } else {
                        let data = copy_range(bytes, p, p + l);
                        match string_from_utf8(data) {
                            Some(s) => {
                                proof {
                                    vstd::utf8::encode_utf8_decode_utf8(s@);
                                }
                                Ok((Value::Str(s), p + l))
                            }
                            None => Err(DecodeError::InvalidUtf8),
                        }
                    }
                }
            }
        }
        StructFieldType::Bytes { len } => {
            match dec_binhead(bytes, pos) {
                None => Err(DecodeError::TypeMismatch),
                Some((l, p)) => {
                    if bytes.len() - p < l {
                        Err(DecodeError::Truncated)
                    } else {
                        match len {
                            Some(n) => {
                                if l as u64 != *n as u64 {
                                    return Err(DecodeError::WrongLength);
                                }
                            }
                            None => {}
                        }
                        let data = copy_range(bytes, p, p + l);
                        Ok((Value::Bin(data), p + l))
                    }
                }
            }
        }
        StructFieldType::Array { items } => {
            match dec_arrhead(bytes, pos) {
                None => Err(DecodeError::TypeMismatch),
                Some((n, p)) => {
                    let ghost it = rc_ty(items);
                    let mut out_vec: Vec<Value> = Vec::new();
                    let mut cur = p;
                    let mut k: usize = 0;
                    proof {
                        assert(vvals(out_vec@) =~= Seq::<Val>::empty());
                    }
                    while k < n
                        invariant
                            k <= n,
                            pos < cur <= bytes@.len(),
                            out_vec@.len() == k,
                            sd_elems(ts@, it, bytes@, p as int, n as int) == elems_combine(
                                vvals(out_vec@),
                                sd_elems(ts@, it, bytes@, cur as int, (n - k) as int),
                            ),
                        decreases n - k,
                    {
                        let (v, e) = match dec_value(ts, &**items, bytes, cur) {
                            Ok(x) => x,
                            Err(er) => {
                                return Err(er);
                            }
                        };
                        proof {
                            crate::value::lemma_vvals_push(out_vec@, v);
                            let rest = sd_elems(ts@, it, bytes@, e as int, (n - k - 1) as int);
                            match rest {
                                Some((vs, e2)) => {
                                    assert(vvals(out_vec@) + (seq![v@] + vs) =~= vvals(
                                        out_vec@,
                                    ).push(v@) + vs);
                                }
                                None => {}
                            }
                        }
                        out_vec.push(v);
                        cur = e;
                        k += 1;
                    }
                    proof {
                        assert(vvals(out_vec@) + Seq::<Val>::empty() =~= vvals(out_vec@));
                    }
                    Ok((Value::Arr(out_vec), cur))
                }
            }
        }
        StructFieldType::Reference { name } => {
            match lookup_idx(ts, name.as_str()) {
                None => Err(DecodeError::UnknownType { name: name.clone() }),
                Some(ti) => match &ts[ti] {
                    Type::Struct(st) => dec_rec(ts, st, bytes, pos),
                    Type::Enum(e) => dec_enum(ts, e, bytes, pos),
                },
            }
        }
    }
}

/// When a struct decode reads its map and entries successfully but a
/// required field was never assigned, the reported error is `MissingField`
/// naming the first such field.
pub open spec fn rec_missing_reported(
    ts: Seq<Type>,
    st: Struct,
    bytes: Seq<u8>,
    pos: int,
    r: Result<(Value, usize), DecodeError>,
) -> bool {
    match sd_maphead(bytes, pos) {
        Some((n, p)) => {
            if p <= pos || p > bytes.len() {
                true
            } else {
                match sd_entries(
                    ts,
                    st.fields@,
                    bytes,
                    p,
                    n,
                    Seq::new(st.fields@.len(), |i: int| None),
                ) {
                    Some((acc2, e)) => match first_missing(st.fields@, acc2, 0) {
                        Some(fi) => r matches Err(DecodeError::MissingField { name })
                            && name@ == st.fields@[fi].name@,
                        None => true,
                    },
                    None => true,
                }
            }
        }
        None => true,
    }
}

/// Decodes a struct value: a map whose keys may come in any order, with
/// unknown keys skipped, every required field present, and nil only for
/// nullable fields.
#[verifier::rlimit(100)]
#[verifier::loop_isolation(false)]
fn dec_rec(ts: &Vec<Type>, st: &Struct, bytes: &Vec<u8>, pos: usize) -> (r: Result<
    (Value, usize),
    DecodeError,
>)
    requires
        pos <= bytes@.len(),
    ensures
        match r {
            Ok((v, e)) => sd_rec(ts@, *st, bytes@, pos as int) == Some((v@, e as int)) && pos
                < e <= bytes@.len(),
            Err(_) => sd_rec(ts@, *st, bytes@, pos as int) is None,
        },
        rec_missing_reported(ts@, *st, bytes@, pos as int, r),
    decreases bytes@.len() - pos, 1int, 0int,
{
    match dec_maphead(bytes, pos) {
        None => Err(DecodeError::TypeMismatch),
        Some((n, p)) => {
            let fields = &st.fields;
            let mut acc: Vec<Option<Value>> = Vec::new();
            let mut i: usize = 0;
            while i < fields.len()
                invariant
                    i <= fields@.len(),
                    acc@.len() == i,
                    forall|q: int| 0 <= q < i ==> (#[trigger] acc@[q]) is None,
                decreases fields@.len() - i,
            {
                acc.push(None);
                i += 1;
            }
            let ghost sacc0: Seq<Option<Val>> = Seq::new(st.fields@.len(), |q: int| None);
            let ghost mut sacc = sacc0;
            let mut cur = p;
            let mut rem = n;
            while rem > 0
                invariant
                    pos < cur <= bytes@.len(),
                    acc@.len() == fields@.len(),
                    sacc.len() == fields@.len(),
                    forall|q: int|
                        0 <= q < fields@.len() ==> ((#[trigger] acc@[q]) is None ==> sacc[q]
                            is None) && (acc@[q] matches Some(v) ==> sacc[q] == Some(vval(v))),
                    sd_entries(ts@, fields@, bytes@, p as int, n as int, sacc0) == sd_entries(
                        ts@,
                        fields@,
                        bytes@,
                        cur as int,
                        rem as int,
                        sacc,
                    ),
                decreases rem,
            {
                let (key, p1) = match dec_int(bytes, cur) {
                    Some(x) => x,
                    None => {
                        return Err(DecodeError::Malformed);
                    }
                };
                match field_idx(fields, key) {
                    Some(fidx) => {
                        if p1 < bytes.len() && bytes[p1] == 0xc0 {
                            if !fields[fidx].nullable {
                                return Err(DecodeError::NullNotAllowed);
                            }
                            acc[fidx] = Some(Value::Nil);
                            proof {
                                sacc = sacc.update(fidx as int, Some(Val::Nil));
                            }
                            cur = p1 + 1;
                        } else {
                            let (v, p2) = match dec_value(ts, &fields[fidx].ty, bytes, p1) {
                                Ok(x) => x,
                                Err(er) => {
                                    return Err(er);
                                }
                            };
                            proof {
                                sacc = sacc.update(fidx as int, Some(v@));
                            }
                            acc[fidx] = Some(v);
                            cur = p2;
                        }
                    }
                    None => {
                        let p2 = match skip_values(bytes, p1, 1) {
                            Some(x) => x,
                            None => {
                                return Err(DecodeError::Malformed);
                            }
                        };
                        cur = p2;
                    }
                }
                rem -= 1;
            }
            let mut entries: Vec<(u8, Value)> = Vec::new();
            let mut i: usize = 0;
            proof {
                assert(ventries(entries@) =~= Seq::<(u8, Val)>::empty());
            }
            while i < fields.len()
                invariant
                    i <= fields@.len(),
                    acc@.len() == fields@.len(),
                    sacc.len() == fields@.len(),
                    forall|q: int|
                        i <= q < fields@.len() ==> ((#[trigger] acc@[q]) is None ==> sacc[q]
                            is None) && (acc@[q] matches Some(v) ==> sacc[q] == Some(vval(v))),
                    forall|m: int|
                        0 <= m < i ==> (#[trigger] sacc[m]) is Some || fields@[m].optional,
                    assemble_rec(st.fields@, sacc, 0) == rec_combine(
                        ventries(entries@),
                        assemble_rec(st.fields@, sacc, i as int),
                    ),
                decreases fields@.len() - i,
            {
                let slot = acc[i].take();
                match slot {
                    Some(v) => {
                        proof {
                            crate::value::lemma_ventries_push(entries@, (fields@[i as int].id, v));
                            match assemble_rec(st.fields@, sacc, i as int + 1) {
                                Some(rest) => {
                                    assert(ventries(entries@) + (seq![
                                        (fields@[i as int].id, v@),
                                    ] + rest) =~= ventries(entries@).push(
                                        (fields@[i as int].id, v@),
                                    ) + rest);
                                }
                                None => {}
                            }
                        }
                        entries.push((fields[i].id, v));
                    }
                    None => {
                        if !fields[i].optional {
                            proof {
                                lemma_first_missing_prefix(fields@, sacc, i as int);
                                assert(sacc[i as int] is None);
                                assert(first_missing(fields@, sacc, i as int) == Some(i as int));
                            }
                            return Err(DecodeError::MissingField { name: fields[i].name.clone() });
                        }
                    }
                }
                i += 1;
            }
            proof {
                assert(ventries(entries@) + Seq::<(u8, Val)>::empty() =~= ventries(entries@));
                lemma_first_missing_prefix(fields@, sacc, fields@.len() as int);
            }
            Ok((Value::Rec(entries), cur))
        }
    }
}

/// Decodes an enum value: a declared id for an untagged enum, a two-element
/// array of id and payload struct for a tagged enum.
#[verifier::rlimit(100)]
#[verifier::loop_isolation(false)]
fn dec_enum(ts: &Vec<Type>, e: &Enum, bytes: &Vec<u8>, pos: usize) -> (r: Result<
    (Value, usize),
    DecodeError,
>)
    requires
        pos <= bytes@.len(),
    ensures
        match r {
            Ok((v, e2)) => sd_enum(ts@, *e, bytes@, pos as int) == Some((v@, e2 as int)) && pos
                < e2 <= bytes@.len(),
            Err(_) => sd_enum(ts@, *e, bytes@, pos as int) is None,
        },
    decreases bytes@.len() - pos, 1int, 0int,
{
    match e {
        Enum::Untagged { variants, .. } => {
            let (n, p) = match dec_int(bytes, pos) {
                Some(x) => x,
                None => {
                    return Err(DecodeError::TypeMismatch);
                }
            };
            let mut k: usize = 0;
            while k < variants.len()
                invariant
                    k <= variants@.len(),
                    forall|m: int| 0 <= m < k ==> !((#[trigger] variants@[m]).id == n as int),
                decreases variants@.len() - k,
            {
                if variants[k].id as i128 == n {
                    proof {
                        assert((variants@[k as int]).id == n as int);
                    }
                    return Ok((Value::UInt(n as u64), p));
                }
                k += 1;
            }
            Err(DecodeError::UnknownVariantId)
        }
        Enum::Tagged { variants, .. } => {
            let (n, p) = match dec_arrhead(bytes, pos) {
                Some(x) => x,
                None => {
                    return Err(DecodeError::TypeMismatch);
                }
            };
            if n != 2 {
                return Err(DecodeError::WrongArity);
            }
            let (id, p1) = match dec_int(bytes, p) {
                Some(x) => x,
                None => {
                    return Err(DecodeError::Malformed);
                }
            };
            if id < 0 || id > 0xff {
                return Err(DecodeError::UnknownVariantId);
            }
            match find_variant(variants, id as u8) {
                None => Err(DecodeError::UnknownVariantId),
                Some(k) => {
                    match lookup_idx(ts, variants[k].ty.as_str()) {
                        None => Err(DecodeError::UnknownType { name: variants[k].ty.clone() }),
                        Some(ti) => match &ts[ti] {
                            Type::Struct(st) => {
                                let (pv, e2) = match dec_rec(ts, st, bytes, p1) {
                                    Ok(x) => x,
                                    Err(er) => {
                                        return Err(er);
                                    }
                                };
                                Ok((Value::Variant(id as u8, std::rc::Rc::new(pv)), e2))
                            }
                            Type::Enum(_) => Err(
                                DecodeError::UnknownType { name: variants[k].ty.clone() },
                            ),
                        },
                    }
                }
            }
        }
    }
}

/// Decodes a whole buffer as one value of the field type `t`, accepting any
/// valid MessagePack form and requiring the buffer to be fully consumed.
pub fn decode_value(ts: &Vec<Type>, t: &StructFieldType, bytes: &Vec<u8>) -> (r: Result<
    Value,
    DecodeError,
>)
    ensures
        match r {
            Ok(v) => sd_value(ts@, *t, bytes@, 0) == Some((v@, bytes@.len() as int)),
            Err(_) => (sd_value(ts@, *t, bytes@, 0) matches Some(we) ==> we.1
                != bytes@.len()),
        },
        (match *t {
            StructFieldType::Reference { name } => match lookup_type(ts@, name@) {
                Some(Type::Struct(st)) => match sd_maphead(bytes@, 0) {
                    Some((n, p)) => {
                        if p <= 0 || p > bytes@.len() {
                            true
                        } else {
                            match sd_entries(
                                ts@,
                                st.fields@,
                                bytes@,
                                p,
                                n,
                                Seq::new(st.fields@.len(), |q: int| None),
                            ) {
                                Some((acc2, e2)) => match first_missing(st.fields@, acc2, 0) {
                                    Some(fi) => r matches Err(
                                        DecodeError::MissingField { name: fname },
                                    ) && fname@ == st.fields@[fi].name@,
                                    None => true,
                                },
                                None => true,
                            }
                        }
                    }
                    None => true,
                },
                _ => true,
            },
            _ => true,
        }),
{
    match dec_value(ts, t, bytes, 0) {
        Ok((v, e)) => {
            if e == bytes.len() {
                Ok(v)
            } else {
                Err(DecodeError::TrailingBytes)
            }
        }
        Err(er) => Err(er),
    }
}


proof fn lemma_subrange_cat(bytes: Seq<u8>, pos: int, a: Seq<u8>, b: Seq<u8>)
    requires
        0 <= pos,
        pos + a.len() + b.len() <= bytes.len(),
        bytes.subrange(pos, pos + a.len() + b.len()) == a + b,
    ensures
        bytes.subrange(pos, pos + a.len()) == a,
        bytes.subrange(pos + a.len(), pos + a.len() + b.len()) == b,
{
    assert forall|i: int| 0 <= i < a.len() implies bytes.subrange(pos, pos + a.len())[i] == a[i]
        by {
        assert((a + b)[i] == bytes.subrange(pos, pos + a.len() + b.len())[i]);
    }
    assert(bytes.subrange(pos, pos + a.len()) =~= a);
    assert forall|i: int|
        0 <= i < b.len() implies bytes.subrange(
        pos + a.len(),
        pos + a.len() + b.len(),
    )[i] == b[i] by {
        assert(bytes.subrange(pos, pos + a.len() + b.len())[a.len() + i] == bytes[pos + a.len()
            + i]);
        assert((a + b)[a.len() + i] == b[i]);
        assert(bytes.subrange(pos + a.len(), pos + a.len() + b.len())[i] == bytes[pos + a.len()
            + i]);
    }
    assert(bytes.subrange(pos + a.len(), pos + a.len() + b.len()) =~= b);
}

proof fn lemma_rd_be16(bytes: Seq<u8>, pos: int, m: int)
    requires
        0 <= m < 0x10000,
        0 <= pos,
        pos + 2 <= bytes.len(),
        bytes.subrange(pos, pos + 2) == be16(m),
    ensures
        rd16(bytes, pos) == m,
{
    assert(bytes[pos] == be16(m)[0] && bytes[pos + 1] == be16(m)[1]) by {
        assert(bytes.subrange(pos, pos + 2)[0] == bytes[pos]);
        assert(bytes.subrange(pos, pos + 2)[1] == bytes[pos + 1]);
    }
    assert((m / 0x100) % 0x100 == m / 0x100);
    assert(m / 0x100 * 0x100 + m % 0x100 == m) by (nonlinear_arith)
        requires 0 <= m;
}

proof fn lemma_rd_be32(bytes: Seq<u8>, pos: int, m: int)
    requires
        0 <= m < 0x100000000,
        0 <= pos,
        pos + 4 <= bytes.len(),
        bytes.subrange(pos, pos + 4) == be32(m),
    ensures
        rd32(bytes, pos) == m,
{
    assert(bytes[pos] == be32(m)[0] && bytes[pos + 1] == be32(m)[1] && bytes[pos + 2] == be32(
        m,
    )[2] && bytes[pos + 3] == be32(m)[3]) by {
        assert(bytes.subrange(pos, pos + 4)[0] == bytes[pos]);
        assert(bytes.subrange(pos, pos + 4)[1] == bytes[pos + 1]);
        assert(bytes.subrange(pos, pos + 4)[2] == bytes[pos + 2]);
        assert(bytes.subrange(pos, pos + 4)[3] == bytes[pos + 3]);
    }
    assert((m / 0x1000000) % 0x100 == m / 0x1000000);
    vstd::arithmetic::div_mod::lemma_fundamental_div_mod(m, 0x100);
    vstd::arithmetic::div_mod::lemma_fundamental_div_mod(m / 0x100, 0x100);
    vstd::arithmetic::div_mod::lemma_fundamental_div_mod(m / 0x10000, 0x100);
    vstd::arithmetic::div_mod::lemma_div_denominator(m, 0x100, 0x100);
    vstd::arithmetic::div_mod::lemma_div_denominator(m, 0x10000, 0x100);
}

proof fn lemma_rd_be64(bytes: Seq<u8>, pos: int, m: int)
    requires
        0 <= m < 0x10000000000000000,
        0 <= pos,
        pos + 8 <= bytes.len(),
        bytes.subrange(pos, pos + 8) == be64(m),
    ensures
        rd64(bytes, pos) == m,
{
    assert forall|i: int| 0 <= i < 8 implies bytes[pos + i] == be64(m)[i] by {
        assert(bytes.subrange(pos, pos + 8)[i] == bytes[pos + i]);
    }
    assert(bytes[pos] == be64(m)[0]);
    assert(bytes[pos + 1] == be64(m)[1]);
    assert(bytes[pos + 2] == be64(m)[2]);
    assert(bytes[pos + 3] == be64(m)[3]);
    assert(bytes[pos + 4] == be64(m)[4]);
    assert(bytes[pos + 5] == be64(m)[5]);
    assert(bytes[pos + 6] == be64(m)[6]);
    assert(bytes[pos + 7] == be64(m)[7]);
    assert((m / 0x100000000000000) % 0x100 == m / 0x100000000000000);
    vstd::arithmetic::div_mod::lemma_fundamental_div_mod(m, 0x100);
    vstd::arithmetic::div_mod::lemma_fundamental_div_mod(m / 0x100, 0x100);
    vstd::arithmetic::div_mod::lemma_fundamental_div_mod(m / 0x10000, 0x100);
    vstd::arithmetic::div_mod::lemma_fundamental_div_mod(m / 0x1000000, 0x100);
    vstd::arithmetic::div_mod::lemma_fundamental_div_mod(m / 0x100000000, 0x100);
    vstd::arithmetic::div_mod::lemma_fundamental_div_mod(m / 0x10000000000, 0x100);
    vstd::arithmetic::div_mod::lemma_fundamental_div_mod(m / 0x1000000000000, 0x100);
    vstd::arithmetic::div_mod::lemma_div_denominator(m, 0x100, 0x100);
    vstd::arithmetic::div_mod::lemma_div_denominator(m, 0x10000, 0x100);
    vstd::arithmetic::div_mod::lemma_div_denominator(m, 0x1000000, 0x100);
    vstd::arithmetic::div_mod::lemma_div_denominator(m, 0x100000000, 0x100);
    vstd::arithmetic::div_mod::lemma_div_denominator(m, 0x10000000000, 0x100);
    vstd::arithmetic::div_mod::lemma_div_denominator(m, 0x1000000000000, 0x100);
}

/// Decoding the canonical form of an unsigned integer yields it back.
proof fn lemma_rt_uint(bytes: Seq<u8>, pos: int, n: u64)
    requires
        0 <= pos,
        pos + enc_uint(n).len() <= bytes.len(),
        bytes.subrange(pos, pos + enc_uint(n).len() as int) == enc_uint(n),
    ensures
        sd_int(bytes, pos) == Some((n as int, pos + enc_uint(n).len())),
{
    if n <= 0x7f {
        assert(bytes.subrange(pos, pos + 1)[0] == bytes[pos]);
    } else if n <= 0xff {
        assert(enc_uint(n) =~= seq![0xccu8] + seq![n as u8]);
        lemma_subrange_cat(bytes, pos, seq![0xccu8], seq![n as u8]);
        assert(bytes.subrange(pos, pos + 1)[0] == bytes[pos]);
        assert(bytes.subrange(pos + 1, pos + 2)[0] == bytes[pos + 1]);
    } else if n <= 0xffff {
        lemma_subrange_cat(bytes, pos, seq![0xcdu8], be16(n as int));
        assert(bytes.subrange(pos, pos + 1)[0] == bytes[pos]);
        lemma_rd_be16(bytes, pos + 1, n as int);
    } else if n <= 0xffffffff {
        lemma_subrange_cat(bytes, pos, seq![0xceu8], be32(n as int));
        assert(bytes.subrange(pos, pos + 1)[0] == bytes[pos]);
        lemma_rd_be32(bytes, pos + 1, n as int);
    } else {
        lemma_subrange_cat(bytes, pos, seq![0xcfu8], be64(n as int));
        assert(bytes.subrange(pos, pos + 1)[0] == bytes[pos]);
        lemma_rd_be64(bytes, pos + 1, n as int);
    }
}

/// Decoding the canonical form of a signed integer yields it back.
proof fn lemma_rt_sint(bytes: Seq<u8>, pos: int, n: i64)
    requires
        0 <= pos,
        pos + enc_sint(n).len() <= bytes.len(),
        bytes.subrange(pos, pos + enc_sint(n).len() as int) == enc_sint(n),
    ensures
        sd_int(bytes, pos) == Some((n as int, pos + enc_sint(n).len())),
{
    if n >= 0 {
        lemma_rt_uint(bytes, pos, n as u64);
    } else if n >= -32 {
        assert(bytes.subrange(pos, pos + 1)[0] == bytes[pos]);
    } else if n >= -0x80 {
        assert(enc_sint(n) =~= seq![0xd0u8] + seq![(n + 0x100) as u8]);
        lemma_subrange_cat(bytes, pos, seq![0xd0u8], seq![(n + 0x100) as u8]);
        assert(bytes.subrange(pos, pos + 1)[0] == bytes[pos]);
        assert(bytes.subrange(pos + 1, pos + 2)[0] == bytes[pos + 1]);
    } else if n >= -0x8000 {
        lemma_subrange_cat(bytes, pos, seq![0xd1u8], be16(n + 0x10000));
        assert(bytes.subrange(pos, pos + 1)[0] == bytes[pos]);
        lemma_rd_be16(bytes, pos + 1, n + 0x10000);
    } else if n >= -0x80000000 {
        lemma_subrange_cat(bytes, pos, seq![0xd2u8], be32(n + 0x100000000));
        assert(bytes.subrange(pos, pos + 1)[0] == bytes[pos]);
        lemma_rd_be32(bytes, pos + 1, n + 0x100000000);
    } else {
        lemma_subrange_cat(bytes, pos, seq![0xd3u8], be64(n + 0x10000000000000000));
        assert(bytes.subrange(pos, pos + 1)[0] == bytes[pos]);
        lemma_rd_be64(bytes, pos + 1, n + 0x10000000000000000);
    }
}

/// Decoding a canonical str header yields the payload length.
proof fn lemma_rt_strhead(bytes: Seq<u8>, pos: int, l: int)
    requires
        0 <= l <= 0xffffffff,
        0 <= pos,
        pos + enc_strhead(l).len() <= bytes.len(),
        bytes.subrange(pos, pos + enc_strhead(l).len() as int) == enc_strhead(l),
    ensures
        sd_strhead(bytes, pos) == Some((l, pos + enc_strhead(l).len())),
{
    if l <= 0x1f {
        assert(bytes.subrange(pos, pos + 1)[0] == bytes[pos]);
    } else if l <= 0xff {
        assert(enc_strhead(l) =~= seq![0xd9u8] + seq![l as u8]);
        lemma_subrange_cat(bytes, pos, seq![0xd9u8], seq![l as u8]);
        assert(bytes.subrange(pos, pos + 1)[0] == bytes[pos]);
        assert(bytes.subrange(pos + 1, pos + 2)[0] == bytes[pos + 1]);
    } else if l <= 0xffff {
        lemma_subrange_cat(bytes, pos, seq![0xdau8], be16(l));
        assert(bytes.subrange(pos, pos + 1)[0] == bytes[pos]);
        lemma_rd_be16(bytes, pos + 1, l);
    } else {
        lemma_subrange_cat(bytes, pos, seq![0xdbu8], be32(l));
        assert(bytes.subrange(pos, pos + 1)[0] == bytes[pos]);
        lemma_rd_be32(bytes, pos + 1, l);
    }
}

/// Decoding a canonical bin header yields the payload length.
proof fn lemma_rt_binhead(bytes: Seq<u8>, pos: int, l: int)
    requires
        0 <= l <= 0xffffffff,
        0 <= pos,
        pos + enc_binhead(l).len() <= bytes.len(),
        bytes.subrange(pos, pos + enc_binhead(l).len() as int) == enc_binhead(l),
    ensures
        sd_binhead(bytes, pos) == Some((l, pos + enc_binhead(l).len())),
{
    if l <= 0xff {
        assert(enc_binhead(l) =~= seq![0xc4u8] + seq![l as u8]);
        lemma_subrange_cat(bytes, pos, seq![0xc4u8], seq![l as u8]);
        assert(bytes.subrange(pos, pos + 1)[0] == bytes[pos]);
        assert(bytes.subrange(pos + 1, pos + 2)[0] == bytes[pos + 1]);
    } else if l <= 0xffff {
        lemma_subrange_cat(bytes, pos, seq![0xc5u8], be16(l));
        assert(bytes.subrange(pos, pos + 1)[0] == bytes[pos]);
        lemma_rd_be16(bytes, pos + 1, l);
    } else {
        lemma_subrange_cat(bytes, pos, seq![0xc6u8], be32(l));
        assert(bytes.subrange(pos, pos + 1)[0] == bytes[pos]);
        lemma_rd_be32(bytes, pos + 1, l);
    }
}

/// Decoding a canonical array header yields the element count.
proof fn lemma_rt_arrhead(bytes: Seq<u8>, pos: int, n: int)
    requires
        0 <= n <= 0xffffffff,
        0 <= pos,
        pos + enc_arrhead(n).len() <= bytes.len(),
        bytes.subrange(pos, pos + enc_arrhead(n).len() as int) == enc_arrhead(n),
    ensures
        sd_arrhead(bytes, pos) == Some((n, pos + enc_arrhead(n).len())),
{
    if n <= 0xf {
        assert(bytes.subrange(pos, pos + 1)[0] == bytes[pos]);
    } else if n <= 0xffff {
        lemma_subrange_cat(bytes, pos, seq![0xdcu8], be16(n));
        assert(bytes.subrange(pos, pos + 1)[0] == bytes[pos]);
        lemma_rd_be16(bytes, pos + 1, n);
    } else {
        lemma_subrange_cat(bytes, pos, seq![0xddu8], be32(n));
        assert(bytes.subrange(pos, pos + 1)[0] == bytes[pos]);
        lemma_rd_be32(bytes, pos + 1, n);
    }
}

/// Decoding a canonical map header yields the key count.
proof fn lemma_rt_maphead(bytes: Seq<u8>, pos: int, n: int)
    requires
        0 <= n <= 0xffffffff,
        0 <= pos,
        pos + enc_maphead(n).len() <= bytes.len(),
        bytes.subrange(pos, pos + enc_maphead(n).len() as int) == enc_maphead(n),
    ensures
        sd_maphead(bytes, pos) == Some((n, pos + enc_maphead(n).len())),
{
    if n <= 0xf {
        assert(bytes.subrange(pos, pos + 1)[0] == bytes[pos]);
    } else if n <= 0xffff {
        lemma_subrange_cat(bytes, pos, seq![0xdeu8], be16(n));
        assert(bytes.subrange(pos, pos + 1)[0] == bytes[pos]);
        lemma_rd_be16(bytes, pos + 1, n);
    } else {
        lemma_subrange_cat(bytes, pos, seq![0xdfu8], be32(n));
        assert(bytes.subrange(pos, pos + 1)[0] == bytes[pos]);
        lemma_rd_be32(bytes, pos + 1, n);
    }
}

/// The canonical form of a conforming value is non-empty and never begins
/// with the nil byte.
proof fn lemma_enc_val_first(ts: Seq<Type>, t: StructFieldType, v: Val)
    requires
        conforms(ts, t, v),
    ensures
        enc_val(ts, t, v).len() >= 1,
        enc_val(ts, t, v)[0] != 0xc0,
{
    match t {
        StructFieldType::Reference { name } => {
            match lookup_type(ts, name@) {
                Some(Type::Struct(st)) => {
                    assert(v is Rec);
                }
                Some(Type::Enum(e)) => {
                    match e {
                        Enum::Untagged { .. } => {
                            assert(v is UInt);
                        }
                        Enum::Tagged { .. } => {
                            assert(v is Variant);
                        }
                    }
                }
                None => {}
            }
        }
        _ => {}
    }
}


/// The per-field assignment that decoding the canonical entries produces:
/// each present field's value at its position, walked in declared order.
pub open spec fn fill_acc(
    fields: Seq<StructField>,
    entries: Seq<(u8, Val)>,
    fi: int,
    ei: int,
    acc: Seq<Option<Val>>,
) -> Seq<Option<Val>>
    decreases fields.len() - fi,
{
    if fi < 0 || fi >= fields.len() || ei < 0 {
        acc
    } else if ei < entries.len() && entries[ei].0 == fields[fi].id {
        fill_acc(fields, entries, fi + 1, ei + 1, acc.update(fi, Some(entries[ei].1)))
    } else {
        fill_acc(fields, entries, fi + 1, ei, acc)
    }
}

proof fn lemma_fill_low(
    fields: Seq<StructField>,
    entries: Seq<(u8, Val)>,
    fi: int,
    ei: int,
    acc: Seq<Option<Val>>,
)
    requires
        acc.len() == fields.len(),
    ensures
        fill_acc(fields, entries, fi, ei, acc).len() == acc.len(),
        forall|j: int|
            (j < fi || j < 0 || j >= fields.len()) && 0 <= j < acc.len() ==> fill_acc(
                fields,
                entries,
                fi,
                ei,
                acc,
            )[j] == acc[j],
    decreases fields.len() - fi,
{
    if 0 <= fi < fields.len() && ei >= 0 {
        if ei < entries.len() && entries[ei].0 == fields[fi].id {
            let acc2 = acc.update(fi, Some(entries[ei].1));
            lemma_fill_low(fields, entries, fi + 1, ei + 1, acc2);
            assert(acc2.len() == acc.len());
            assert forall|j: int|
                (j < fi || j < 0 || j >= fields.len()) && 0 <= j < acc.len() implies fill_acc(
                fields,
                entries,
                fi,
                ei,
                acc,
            )[j] == acc[j] by {
                assert((j < fi + 1 || j < 0 || j >= fields.len()) && 0 <= j < acc2.len());
                assert(fill_acc(fields, entries, fi + 1, ei + 1, acc2)[j] == acc2[j]);
                assert(acc2[j] == acc[j]);
            }
        } else {
            lemma_fill_low(fields, entries, fi + 1, ei, acc);
            assert forall|j: int|
                (j < fi || j < 0 || j >= fields.len()) && 0 <= j < acc.len() implies fill_acc(
                fields,
                entries,
                fi,
                ei,
                acc,
            )[j] == acc[j] by {
                assert(fill_acc(fields, entries, fi + 1, ei, acc)[j] == acc[j]);
            }
        }
    }
}

proof fn lemma_fill_assemble(
    ts: Seq<Type>,
    fields: Seq<StructField>,
    entries: Seq<(u8, Val)>,
    fi: int,
    ei: int,
    acc: Seq<Option<Val>>,
)
    requires
        0 <= fi <= fields.len(),
        0 <= ei <= entries.len(),
        entries_match_from(ts, fields, entries, fi, ei),
        acc.len() == fields.len(),
        forall|j: int| fi <= j < fields.len() ==> (#[trigger] acc[j]) is None,
    ensures
        assemble_rec(fields, fill_acc(fields, entries, fi, ei, acc), fi) == Some(
            entries.subrange(ei, entries.len() as int),
        ),
    decreases fields.len() - fi,
{
    if fi >= fields.len() {
        assert(entries.subrange(ei, entries.len() as int) =~= Seq::<(u8, Val)>::empty());
    } else {
        let f = fields[fi];
        if ei < entries.len() && entries[ei].0 == f.id {
            let acc2 = acc.update(fi, Some(entries[ei].1));
            lemma_fill_assemble(ts, fields, entries, fi + 1, ei + 1, acc2);
            lemma_fill_low(fields, entries, fi + 1, ei + 1, acc2);
            assert(fill_acc(fields, entries, fi, ei, acc) == fill_acc(
                fields,
                entries,
                fi + 1,
                ei + 1,
                acc2,
            ));
            assert(fill_acc(fields, entries, fi + 1, ei + 1, acc2)[fi] == acc2[fi]);
            assert(fill_acc(fields, entries, fi, ei, acc)[fi] == Some(entries[ei].1));
            assert(entries.subrange(ei, entries.len() as int) =~= seq![entries[ei]]
                + entries.subrange(ei + 1, entries.len() as int));
            assert(entries[ei] == (fields[fi].id, entries[ei].1));
        } else {
            lemma_fill_assemble(ts, fields, entries, fi + 1, ei, acc);
            lemma_fill_low(fields, entries, fi + 1, ei, acc);
            assert(fill_acc(fields, entries, fi, ei, acc) == fill_acc(
                fields,
                entries,
                fi + 1,
                ei,
                acc,
            ));
            assert(fill_acc(fields, entries, fi + 1, ei, acc)[fi] == acc[fi]);
            assert(fill_acc(fields, entries, fi, ei, acc)[fi] == acc[fi]);
        }
    }
}

proof fn lemma_lookup_elem(ts: Seq<Type>, n: Seq<char>)
    ensures
        lookup_type(ts, n) matches Some(t) ==> exists|i: int|
            0 <= i < ts.len() && #[trigger] ts[i] == t,
    decreases ts.len(),
{
    if ts.len() > 0 {
        if crate::ir::decl_name(ts[0]) == n {
            assert(ts[0] == ts[0]);
        } else {
            lemma_lookup_elem(ts.drop_first(), n);
            match lookup_type(ts.drop_first(), n) {
                Some(t) => {
                    let i = choose|i: int|
                        0 <= i < ts.drop_first().len() && #[trigger] ts.drop_first()[i] == t;
                    assert(ts[i + 1] == t);
                }
                None => {}
            }
        }
    }
}

/// Decoding the canonical form of a conforming value yields that value.
#[verifier::rlimit(100)]
proof fn lemma_rt_value(ts: Seq<Type>, t: StructFieldType, v: Val, bytes: Seq<u8>, pos: int)
    requires
        crate::ir::types_wf(ts),
        conforms(ts, t, v),
        val_sizes_ok(v),
        0 <= pos,
        pos + enc_val(ts, t, v).len() <= bytes.len(),
        bytes.subrange(pos, pos + enc_val(ts, t, v).len() as int) == enc_val(ts, t, v),
    ensures
        sd_value(ts, t, bytes, pos) == Some((v, pos + enc_val(ts, t, v).len())),
    decreases v, 2int, 0int,
{
    let e = enc_val(ts, t, v);
    match t {
        StructFieldType::Bool => {
            assert(bytes.subrange(pos, pos + 1)[0] == bytes[pos]);
        }
        StructFieldType::U8 | StructFieldType::U16 | StructFieldType::U32
            | StructFieldType::U64 => {
            let n = v->UInt_0;
            lemma_rt_uint(bytes, pos, n);
        }
        StructFieldType::I8 | StructFieldType::I16 | StructFieldType::I32
            | StructFieldType::I64 => {
            let n = v->SInt_0;
            lemma_rt_sint(bytes, pos, n);
        }
        StructFieldType::F32 => {
            let b = v->F32Bits_0;
            lemma_subrange_cat(bytes, pos, seq![0xcau8], be32(b as int));
            assert(bytes.subrange(pos, pos + 1)[0] == bytes[pos]);
            lemma_rd_be32(bytes, pos + 1, b as int);
        }
        StructFieldType::F64 => {
            let b = v->F64Bits_0;
            lemma_subrange_cat(bytes, pos, seq![0xcbu8], be64(b as int));
            assert(bytes.subrange(pos, pos + 1)[0] == bytes[pos]);
            lemma_rd_be64(bytes, pos + 1, b as int);
        }
        StructFieldType::String => {
            let s = v->Str_0;
            let data = vstd::utf8::encode_utf8(s);
            lemma_subrange_cat(bytes, pos, enc_strhead(data.len() as int), data);
            lemma_rt_strhead(bytes, pos, data.len() as int);
            let p = pos + enc_strhead(data.len() as int).len();
            assert(bytes.subrange(p, p + data.len() as int) == data);
            vstd::utf8::encode_utf8_valid_utf8(s);
            vstd::utf8::encode_utf8_decode_utf8(s);
        }
        StructFieldType::Bytes { len } => {
            let b = v->Bin_0;
            lemma_subrange_cat(bytes, pos, enc_binhead(b.len() as int), b);
            lemma_rt_binhead(bytes, pos, b.len() as int);
            let p = pos + enc_binhead(b.len() as int).len();
            assert(bytes.subrange(p, p + b.len() as int) == b);
        }
        StructFieldType::Array { items } => {
            let vs = v->Arr_0;
            let it = rc_ty(&items);
            lemma_subrange_cat(bytes, pos, enc_arrhead(vs.len() as int), enc_elems(ts, it, vs));
            lemma_rt_arrhead(bytes, pos, vs.len() as int);
            let p = pos + enc_arrhead(vs.len() as int).len();
            lemma_rt_elems(ts, it, vs, bytes, p);
        }
        StructFieldType::Reference { name } => {
            lemma_lookup_elem(ts, name@);
            match lookup_type(ts, name@) {
                Some(Type::Struct(st)) => {
                    let i = choose|i: int|
                        0 <= i < ts.len() && #[trigger] ts[i] == Type::Struct(st);
                    assert(crate::ir::struct_wf(st));
                    lemma_rt_rec(ts, st, v, bytes, pos);
                }
                Some(Type::Enum(en)) => {
                    lemma_rt_enum(ts, en, v, bytes, pos);
                }
                None => {}
            }
        }
    }
}

/// Decoding the canonical forms of a sequence of conforming elements yields
/// them back.
proof fn lemma_rt_elems(ts: Seq<Type>, t: StructFieldType, vs: Seq<Val>, bytes: Seq<u8>, pos: int)
    requires
        crate::ir::types_wf(ts),
        elems_conform(ts, t, vs),
        vals_sizes_ok(vs),
        0 <= pos,
        pos + enc_elems(ts, t, vs).len() <= bytes.len(),
        bytes.subrange(pos, pos + enc_elems(ts, t, vs).len() as int) == enc_elems(ts, t, vs),
    ensures
        sd_elems(ts, t, bytes, pos, vs.len() as int) == Some(
            (vs, pos + enc_elems(ts, t, vs).len()),
        ),
    decreases vs, 2int, 0int,
{
    if vs.len() == 0 {
        assert(sd_elems(ts, t, bytes, pos, 0) == Some((Seq::<Val>::empty(), pos)));
        assert(vs =~= Seq::<Val>::empty());
    } else {
        let e0 = enc_val(ts, t, vs[0]);
        let erest = enc_elems(ts, t, vs.drop_first());
        lemma_subrange_cat(bytes, pos, e0, erest);
        lemma_enc_val_first(ts, t, vs[0]);
        lemma_rt_value(ts, t, vs[0], bytes, pos);
        let p1 = pos + e0.len();
        lemma_rt_elems(ts, t, vs.drop_first(), bytes, p1);
        assert(seq![vs[0]] + vs.drop_first() =~= vs);
    }
}

/// Decoding the canonical map form of a conforming struct value yields it
/// back.
#[verifier::rlimit(100)]
proof fn lemma_rt_rec(ts: Seq<Type>, st: Struct, v: Val, bytes: Seq<u8>, pos: int)
    requires
        crate::ir::types_wf(ts),
        crate::ir::struct_wf(st),
        rec_conforms(ts, st, v),
        val_sizes_ok(v),
        0 <= pos,
        pos + enc_rec(ts, st, v).len() <= bytes.len(),
        bytes.subrange(pos, pos + enc_rec(ts, st, v).len() as int) == enc_rec(ts, st, v),
    ensures
        sd_rec(ts, st, bytes, pos) == Some((v, pos + enc_rec(ts, st, v).len())),
    decreases v, 1int, 0int,
{
    let entries = v->Rec_0;
    let fields = st.fields@;
    let ee = enc_entries_from(ts, fields, entries, 0, 0);
    lemma_subrange_cat(bytes, pos, enc_maphead(entries.len() as int), ee);
    lemma_rt_maphead(bytes, pos, entries.len() as int);
    let p = pos + enc_maphead(entries.len() as int).len();
    let sacc0 = Seq::new(fields.len(), |i: int| None::<Val>);
    assert forall|a: int, b: int|
        0 <= a < b < fields.len() implies (#[trigger] fields[a]).id != (#[trigger] fields[b]).id
        by {}
    lemma_rt_entries(ts, fields, entries, 0, 0, bytes, p, sacc0);
    assert forall|j: int| 0 <= j < fields.len() implies (#[trigger] sacc0[j]) is None by {}
    lemma_fill_assemble(ts, fields, entries, 0, 0, sacc0);
    assert(entries.subrange(0, entries.len() as int) =~= entries);
}

/// Decoding the canonical entry stream of a conforming struct value fills in
/// exactly the present fields.
#[verifier::rlimit(100)]
proof fn lemma_rt_entries(
    ts: Seq<Type>,
    fields: Seq<StructField>,
    entries: Seq<(u8, Val)>,
    fi: int,
    ei: int,
    bytes: Seq<u8>,
    pos: int,
    acc: Seq<Option<Val>>,
)
    requires
        crate::ir::types_wf(ts),
        forall|a: int, b: int|
            0 <= a < b < fields.len() ==> (#[trigger] fields[a]).id != (#[trigger] fields[b]).id,
        0 <= fi <= fields.len(),
        0 <= ei <= entries.len(),
        entries_match_from(ts, fields, entries, fi, ei),
        entries_sizes_ok(entries),
        acc.len() == fields.len(),
        0 <= pos,
        pos + enc_entries_from(ts, fields, entries, fi, ei).len() <= bytes.len(),
        bytes.subrange(
            pos,
            pos + enc_entries_from(ts, fields, entries, fi, ei).len() as int,
        ) == enc_entries_from(ts, fields, entries, fi, ei),
    ensures
        sd_entries(ts, fields, bytes, pos, entries.len() - ei, acc) == Some(
            (
                fill_acc(fields, entries, fi, ei, acc),
                pos + enc_entries_from(ts, fields, entries, fi, ei).len(),
            ),
        ),
    decreases entries, 1int, fields.len() - fi,
{
    if fi >= fields.len() {
        assert(ei == entries.len());
    } else {
        let f = fields[fi];
        if ei < entries.len() && entries[ei].0 == f.id {
            let key_enc = enc_uint(f.id as u64);
            let val_enc = enc_entry_val(ts, f, entries[ei].1);
            let rest_enc = enc_entries_from(ts, fields, entries, fi + 1, ei + 1);
            assert(enc_entries_from(ts, fields, entries, fi, ei) == key_enc + val_enc
                + rest_enc);
            assert((key_enc + val_enc) + rest_enc =~= key_enc + (val_enc + rest_enc));
            lemma_subrange_cat(bytes, pos, key_enc, val_enc + rest_enc);
            let p1 = pos + key_enc.len();
            lemma_subrange_cat(bytes, p1, val_enc, rest_enc);
            let p2 = p1 + val_enc.len();
            lemma_rt_uint(bytes, pos, f.id as u64);
            assert forall|m: int| 0 <= m < fi implies (#[trigger] fields[m]).id != f.id as int
                by {
                assert(fields[m].id != fields[fi].id);
            }
            lemma_field_index_found(fields, f.id as int, fi);
            crate::value::lemma_entries_sizes_ok_index(entries);
            if entries[ei].1 is Nil {
                assert(val_enc == seq![0xc0u8]);
                assert(bytes.subrange(p1, p1 + 1)[0] == bytes[p1]);
                assert(bytes[p1] == 0xc0);
                assert(entry_val_ok(ts, f, entries[ei].1));
                assert(f.nullable);
                lemma_rt_entries(
                    ts,
                    fields,
                    entries,
                    fi + 1,
                    ei + 1,
                    bytes,
                    p1 + 1,
                    acc.update(fi, Some(Val::Nil)),
                );
                assert(entries[ei].1 == Val::Nil);
            } else {
                assert(entry_val_ok(ts, f, entries[ei].1));
                assert(conforms(ts, f.ty, entries[ei].1));
                lemma_enc_val_first(ts, f.ty, entries[ei].1);
                assert(bytes.subrange(p1, p1 + val_enc.len() as int)[0] == bytes[p1]);
                assert(bytes[p1] != 0xc0);
                lemma_rt_value(ts, f.ty, entries[ei].1, bytes, p1);
                lemma_rt_entries(
                    ts,
                    fields,
                    entries,
                    fi + 1,
                    ei + 1,
                    bytes,
                    p2,
                    acc.update(fi, Some(entries[ei].1)),
                );
            }
        } else {
            assert(f.optional);
            lemma_rt_entries(ts, fields, entries, fi + 1, ei, bytes, pos, acc);
        }
    }
}

/// Decoding the canonical form of a conforming enum value yields it back.
#[verifier::rlimit(100)]
proof fn lemma_rt_enum(ts: Seq<Type>, e: Enum, v: Val, bytes: Seq<u8>, pos: int)
    requires
        crate::ir::types_wf(ts),
        enum_conforms(ts, e, v),
        val_sizes_ok(v),
        0 <= pos,
        pos + enc_enum(ts, e, v).len() <= bytes.len(),
        bytes.subrange(pos, pos + enc_enum(ts, e, v).len() as int) == enc_enum(ts, e, v),
    ensures
        sd_enum(ts, e, bytes, pos) == Some((v, pos + enc_enum(ts, e, v).len())),
    decreases v, 1int, 0int,
{
    match e {
        Enum::Untagged { .. } => {
            let n = v->UInt_0;
            lemma_rt_uint(bytes, pos, n);
        }
        Enum::Tagged { variants, .. } => {
            let id = v->Variant_0;
            let payload = v->Variant_1;
            let tyn = find_variant_ty(variants@, id)->Some_0;
            let st = match lookup_type(ts, tyn) {
                Some(Type::Struct(st)) => st,
                _ => arbitrary(),
            };
            let id_enc = enc_uint(id as u64);
            let pay_enc = enc_rec(ts, st, *payload);
            assert(enc_enum(ts, e, v) == enc_arrhead(2) + id_enc + pay_enc);
            assert((enc_arrhead(2) + id_enc) + pay_enc =~= enc_arrhead(2) + (id_enc + pay_enc));
            lemma_subrange_cat(bytes, pos, enc_arrhead(2), id_enc + pay_enc);
            let p = pos + enc_arrhead(2).len();
            lemma_subrange_cat(bytes, p, id_enc, pay_enc);
            let p1 = p + id_enc.len();
            lemma_rt_arrhead(bytes, pos, 2);
            lemma_rt_uint(bytes, p, id as u64);
            lemma_lookup_elem(ts, tyn);
            let i = choose|i: int| 0 <= i < ts.len() && #[trigger] ts[i] == Type::Struct(st);
            assert(crate::ir::struct_wf(st));
            lemma_rt_rec(ts, st, *payload, bytes, p1);
        }
    }
}

/// Round trip: decoding the canonical wire form of any conforming value of a
/// well-formed schema yields that value back, consuming the whole buffer.
/// Together with the contracts of [`encode_value`] and [`decode_value`],
/// this says `decode_value(ts, t, encode_value(ts, t, v)) == Ok(v)` for
/// every conforming `v` whose containers stay within MessagePack's `u32`
/// size caps.
pub proof fn lemma_round_trip(ts: Seq<Type>, t: StructFieldType, v: Val)
    requires
        crate::ir::types_wf(ts),
        conforms(ts, t, v),
        val_sizes_ok(v),
    ensures
        sd_value(ts, t, enc_val(ts, t, v), 0) == Some(
            (v, enc_val(ts, t, v).len() as int),
        ),
{
    let e = enc_val(ts, t, v);
    assert(e.subrange(0, e.len() as int) =~= e);
    lemma_rt_value(ts, t, v, e, 0);
}


/// The integer range a schema integer type admits, if the type is one.
pub open spec fn int_bounds(t: StructFieldType) -> Option<(int, int)> {
    match t {
        StructFieldType::U8 => Some((0int, u8::MAX as int)),
        StructFieldType::U16 => Some((0int, u16::MAX as int)),
        StructFieldType::U32 => Some((0int, u32::MAX as int)),
        StructFieldType::U64 => Some((0int, u64::MAX as int)),
        StructFieldType::I8 => Some((i8::MIN as int, i8::MAX as int)),
        StructFieldType::I16 => Some((i16::MIN as int, i16::MAX as int)),
        StructFieldType::I32 => Some((i32::MIN as int, i32::MAX as int)),
        StructFieldType::I64 => Some((i64::MIN as int, i64::MAX as int)),
        _ => None,
    }
}

/// Type strictness for integers: a decoder for an integer schema type
/// rejects any integer value outside the type's range.
pub proof fn lemma_int_range_strict(
    ts: Seq<Type>,
    t: StructFieldType,
    bytes: Seq<u8>,
    pos: int,
    m: int,
    e: int,
)
    requires
        int_bounds(t) matches Some((lo, hi)) && sd_int(bytes, pos) == Some((m, e)) && !(lo <= m
            <= hi),
    ensures
        sd_value(ts, t, bytes, pos) is None,
{
}

/// Type strictness for strings: a `string` decoder rejects any bin-family
/// value.
pub proof fn lemma_string_rejects_bin(ts: Seq<Type>, bytes: Seq<u8>, pos: int)
    requires
        0 <= pos < bytes.len(),
        bytes[pos] == 0xc4 || bytes[pos] == 0xc5 || bytes[pos] == 0xc6,
    ensures
        sd_value(ts, StructFieldType::String, bytes, pos) is None,
{
}

/// Type strictness for byte strings: a `bytes` decoder rejects any
/// str-family value.
pub proof fn lemma_bytes_rejects_str(
    ts: Seq<Type>,
    len: Option<u32>,
    bytes: Seq<u8>,
    pos: int,
)
    requires
        0 <= pos < bytes.len(),
        0xa0 <= bytes[pos] <= 0xbf || bytes[pos] == 0xd9 || bytes[pos] == 0xda || bytes[pos]
            == 0xdb,
    ensures
        sd_value(ts, StructFieldType::Bytes { len }, bytes, pos) is None,
{
}

/// Fixed-length byte strictness: a `bytesN` decoder rejects a bin value of
/// any other length.
pub proof fn lemma_bytes_fixed_length_strict(
    ts: Seq<Type>,
    n: u32,
    bytes: Seq<u8>,
    pos: int,
    l: int,
    p: int,
)
    requires
        sd_binhead(bytes, pos) == Some((l, p)),
        l != n,
    ensures
        sd_value(ts, StructFieldType::Bytes { len: Some(n) }, bytes, pos) is None,
{
}

/// Tagged arity: a tagged-enum decoder rejects any array whose length is not
/// exactly two.
pub proof fn lemma_tagged_arity_strict(
    ts: Seq<Type>,
    e: Enum,
    bytes: Seq<u8>,
    pos: int,
    n: int,
    p: int,
)
    requires
        e is Tagged,
        sd_arrhead(bytes, pos) == Some((n, p)),
        n != 2,
    ensures
        sd_enum(ts, e, bytes, pos) is None,
{
}

/// Unknown-field tolerance: a map entry whose key matches no declared field
/// id is skipped whole, and decoding continues with the remaining entries
/// and an unchanged assignment.
pub proof fn lemma_unknown_field_skipped(
    ts: Seq<Type>,
    fields: Seq<StructField>,
    bytes: Seq<u8>,
    pos: int,
    n: int,
    acc: Seq<Option<Val>>,
    key: int,
    p1: int,
    p2: int,
)
    requires
        n > 0,
        sd_int(bytes, pos) == Some((key, p1)),
        pos < p1 <= bytes.len(),
        field_index_of(fields, key) is None,
        sd_skip(bytes, p1, 1) == Some(p2),
        p1 < p2 <= bytes.len(),
    ensures
        sd_entries(ts, fields, bytes, pos, n, acc) == sd_entries(ts, fields, bytes, p2, n - 1, acc),
{
}

/// Required-field strictness: a struct decode fails whenever a required
/// field ends up unassigned, whatever else the map held.
pub proof fn lemma_missing_required_field(
    fields: Seq<StructField>,
    acc: Seq<Option<Val>>,
    j: int,
    i: int,
)
    requires
        0 <= j <= i < fields.len(),
        acc[i] is None,
        !fields[i].optional,
    ensures
        assemble_rec(fields, acc, j) is None,
    decreases i - j,
{
    if j < i {
        lemma_missing_required_field(fields, acc, j + 1, i);
    }
}

/// Cross-backend agreement: two encoders that both realize the canonical
/// wire form for the same schema and value produce byte-identical output.
pub proof fn lemma_encoders_agree(
    ts: Seq<Type>,
    t: StructFieldType,
    v: Val,
    out1: Seq<u8>,
    out2: Seq<u8>,
)
    requires
        out1 == enc_val(ts, t, v),
        out2 == enc_val(ts, t, v),
    ensures
        out1 == out2,
{
}


/// The keys that a struct decode reads from `n` map entries at `pos`,
/// traversing values exactly as `sd_entries` does.
pub open spec fn sd_keys(
    ts: Seq<Type>,
    fields: Seq<StructField>,
    bytes: Seq<u8>,
    pos: int,
    n: int,
) -> Option<Seq<int>>
    decreases bytes.len() - pos, 3int, n,
{
    if n <= 0 {
        Some(Seq::empty())
    } else {
        match sd_int(bytes, pos) {
            Some((key, p1)) => {
                if p1 <= pos || p1 > bytes.len() {
                    None
                } else {
                    match field_index_of(fields, key) {
                        Some(fidx) => {
                            if p1 < bytes.len() && bytes[p1] == 0xc0 {
                                if fields[fidx].nullable {
                                    match sd_keys(ts, fields, bytes, p1 + 1, n - 1) {
                                        Some(ks) => Some(seq![key] + ks),
                                        None => None,
                                    }
                                } else {
                                    None
                                }
                            } else {
                                match sd_value(ts, fields[fidx].ty, bytes, p1) {
                                    Some((v, p2)) => {
                                        if p2 <= p1 || p2 > bytes.len() {
                                            None
                                        } else {
                                            match sd_keys(ts, fields, bytes, p2, n - 1) {
                                                Some(ks) => Some(seq![key] + ks),
                                                None => None,
                                            }
                                        }
                                    }
                                    None => None,
                                }
                            }
                        }
                        None => match sd_skip(bytes, p1, 1) {
                            Some(p2) => {
                                if p2 <= p1 || p2 > bytes.len() {
                                    None
                                } else {
                                    match sd_keys(ts, fields, bytes, p2, n - 1) {
                                        Some(ks) => Some(seq![key] + ks),
                                        None => None,
                                    }
                                }
                            }
                            None => None,
                        },
                    }
                }
            }
            None => None,
        }
    }
}

proof fn lemma_field_index_props(fields: Seq<StructField>, key: int)
    ensures
        field_index_of(fields, key) matches Some(i) ==> 0 <= i < fields.len() && fields[i].id
            == key,
    decreases fields.len(),
{
    if fields.len() > 0 && fields[0].id != key {
        lemma_field_index_props(fields.drop_first(), key);
        match field_index_of(fields.drop_first(), key) {
            Some(i) => {
                assert(fields.drop_first()[i] == fields[i + 1]);
            }
            None => {}
        }
    }
}

proof fn lemma_key_not_required(fields: Seq<StructField>, fi0: int, key: int, rest: Seq<int>)
    requires
        0 <= fi0 < fields.len(),
        !(seq![key] + rest).contains(fields[fi0].id as int),
    ensures
        key != fields[fi0].id as int,
        !rest.contains(fields[fi0].id as int),
{
    let ksall = seq![key] + rest;
    assert(ksall[0] == key);
    if key == fields[fi0].id as int {
        assert(ksall.contains(fields[fi0].id as int));
    }
    if rest.contains(fields[fi0].id as int) {
        let w = choose|w: int| 0 <= w < rest.len() && rest[w] == fields[fi0].id as int;
        assert(ksall[w + 1] == rest[w]);
        assert(ksall.contains(fields[fi0].id as int));
    }
}

#[verifier::rlimit(100)]
proof fn lemma_entries_unassigned(
    ts: Seq<Type>,
    fields: Seq<StructField>,
    bytes: Seq<u8>,
    pos: int,
    n: int,
    acc: Seq<Option<Val>>,
    fi0: int,
)
    requires
        0 <= fi0 < fields.len(),
        acc.len() == fields.len(),
        sd_keys(ts, fields, bytes, pos, n) matches Some(ks) ==> !ks.contains(
            fields[fi0].id as int,
        ),
    ensures
        sd_entries(ts, fields, bytes, pos, n, acc) matches Some((acc2, e)) ==> (
        sd_keys(ts, fields, bytes, pos, n) is Some && 0 <= fi0 < acc.len() ==> acc2[fi0]
            == acc[fi0]),
        sd_entries(ts, fields, bytes, pos, n, acc) is Some ==> sd_keys(
            ts,
            fields,
            bytes,
            pos,
            n,
        ) is Some,
    decreases bytes.len() - pos, 3int, n,
{
    if n <= 0 {
    } else {
        match sd_int(bytes, pos) {
            Some((key, p1)) => {
                if p1 <= pos || p1 > bytes.len() {
                } else {
                    lemma_field_index_props(fields, key);
                    match field_index_of(fields, key) {
                        Some(fidx) => {
                            if p1 < bytes.len() && bytes[p1] == 0xc0 {
                                if fields[fidx].nullable {
                                    match sd_keys(ts, fields, bytes, p1 + 1, n - 1) {
                                        Some(rest) => {
                                            assert(sd_keys(ts, fields, bytes, pos, n) == Some(
                                                seq![key] + rest,
                                            ));
                                            lemma_key_not_required(fields, fi0, key, rest);
                                            assert(fidx != fi0);
                                        }
                                        None => {}
                                    }
                                    lemma_entries_unassigned(
                                        ts,
                                        fields,
                                        bytes,
                                        p1 + 1,
                                        n - 1,
                                        acc.update(fidx, Some(Val::Nil)),
                                        fi0,
                                    );
                                }
                            } else {
                                match sd_value(ts, fields[fidx].ty, bytes, p1) {
                                    Some((v, p2)) => {
                                        if p2 <= p1 || p2 > bytes.len() {
                                        } else {
                                            match sd_keys(ts, fields, bytes, p2, n - 1) {
                                                Some(rest) => {
                                                    assert(sd_keys(ts, fields, bytes, pos, n)
                                                        == Some(seq![key] + rest));
                                                    lemma_key_not_required(
                                                        fields,
                                                        fi0,
                                                        key,
                                                        rest,
                                                    );
                                                    assert(fidx != fi0);
                                                }
                                                None => {}
                                            }
                                            lemma_entries_unassigned(
                                                ts,
                                                fields,
                                                bytes,
                                                p2,
                                                n - 1,
                                                acc.update(fidx, Some(v)),
                                                fi0,
                                            );
                                        }
                                    }
                                    None => {}
                                }
                            }
                        }
                        None => {
                            match sd_skip(bytes, p1, 1) {
                                Some(p2) => {
                                    if p2 <= p1 || p2 > bytes.len() {
                                    } else {
                                        match sd_keys(ts, fields, bytes, p2, n - 1) {
                                            Some(rest) => {
                                                assert(sd_keys(ts, fields, bytes, pos, n)
                                                    == Some(seq![key] + rest));
                                                lemma_key_not_required(fields, fi0, key, rest);
                                            }
                                            None => {}
                                        }
                                        lemma_entries_unassigned(
                                            ts,
                                            fields,
                                            bytes,
                                            p2,
                                            n - 1,
                                            acc,
                                            fi0,
                                        );
                                    }
                                }
                                None => {}
                            }
                        }
                    }
                }
            }
            None => {}
        }
    }
}

/// Required-field strictness: a struct decode fails on any map none of whose
/// keys is a required field's id, however the other entries read.
pub proof fn lemma_required_key_absent_rejected(
    ts: Seq<Type>,
    st: Struct,
    bytes: Seq<u8>,
    pos: int,
    fi0: int,
)
    requires
        0 <= fi0 < st.fields@.len(),
        !st.fields@[fi0].optional,
        sd_maphead(bytes, pos) matches Some((n, p)) ==> (sd_keys(
            ts,
            st.fields@,
            bytes,
            p,
            n,
        ) matches Some(ks) ==> !ks.contains(st.fields@[fi0].id as int)),
    ensures
        sd_rec(ts, st, bytes, pos) is None,
{
    match sd_maphead(bytes, pos) {
        Some((n, p)) => {
            if p <= pos || p > bytes.len() {
            } else {
                let sacc0 = Seq::new(st.fields@.len(), |i: int| None::<Val>);
                lemma_entries_unassigned(ts, st.fields@, bytes, p, n, sacc0, fi0);
                match sd_entries(ts, st.fields@, bytes, p, n, sacc0) {
                    Some((acc2, e)) => {
                        assert(acc2[fi0] is None);
                        lemma_missing_required_field(st.fields@, acc2, 0, fi0);
                    }
                    None => {}
                }
            }
        }
        None => {}
    }
}


proof fn lemma_sd_entries_append(
    ts: Seq<Type>,
    fields: Seq<StructField>,
    bytes: Seq<u8>,
    pos: int,
    n1: int,
    n2: int,
    acc: Seq<Option<Val>>,
)
    requires
        0 <= n1,
        0 <= n2,
    ensures
        sd_entries(ts, fields, bytes, pos, n1 + n2, acc) == (match sd_entries(
            ts,
            fields,
            bytes,
            pos,
            n1,
            acc,
        ) {
            Some((acc1, e1)) => sd_entries(ts, fields, bytes, e1, n2, acc1),
            None => None,
        }),
    decreases bytes.len() - pos, 4int, n1,
{
    if n1 <= 0 {
    } else {
        match sd_int(bytes, pos) {
            Some((key, p1)) => {
                if p1 <= pos || p1 > bytes.len() {
                } else {
                    match field_index_of(fields, key) {
                        Some(fidx) => {
                            if p1 < bytes.len() && bytes[p1] == 0xc0 {
                                if fields[fidx].nullable {
                                    lemma_sd_entries_append(
                                        ts,
                                        fields,
                                        bytes,
                                        p1 + 1,
                                        n1 - 1,
                                        n2,
                                        acc.update(fidx, Some(Val::Nil)),
                                    );
                                }
                            } else {
                                match sd_value(ts, fields[fidx].ty, bytes, p1) {
                                    Some((v, p2)) => {
                                        if p2 <= p1 || p2 > bytes.len() {
                                        } else {
                                            lemma_sd_entries_append(
                                                ts,
                                                fields,
                                                bytes,
                                                p2,
                                                n1 - 1,
                                                n2,
                                                acc.update(fidx, Some(v)),
                                            );
                                        }
                                    }
                                    None => {}
                                }
                            }
                        }
                        None => {
                            match sd_skip(bytes, p1, 1) {
                                Some(p2) => {
                                    if p2 <= p1 || p2 > bytes.len() {
                                    } else {
                                        lemma_sd_entries_append(
                                            ts,
                                            fields,
                                            bytes,
                                            p2,
                                            n1 - 1,
                                            n2,
                                            acc,
                                        );
                                    }
                                }
                                None => {}
                            }
                        }
                    }
                }
            }
            None => {}
        }
    }
}

/// Unknown-field tolerance: appending one extra map entry whose key is not a
/// declared field id, and whose value the skipper accepts, to the canonical
/// encoding of a conforming struct value leaves the decoded value unchanged.
#[verifier::rlimit(100)]
pub proof fn lemma_unknown_field_tolerated(
    ts: Seq<Type>,
    st: Struct,
    v: Val,
    extra_key: u64,
    bytes: Seq<u8>,
    pos: int,
)
    requires
        crate::ir::types_wf(ts),
        crate::ir::struct_wf(st),
        rec_conforms(ts, st, v),
        val_sizes_ok(v),
        v->Rec_0.len() + 1 <= 0xffffffff,
        field_index_of(st.fields@, extra_key as int) is None,
        0 <= pos,
        ({
            let entries = v->Rec_0;
            let body = enc_entries_from(ts, st.fields@, entries, 0, 0);
            let head = enc_maphead(entries.len() as int + 1);
            let kenc = enc_uint(extra_key);
            &&& pos + head.len() + body.len() + kenc.len() <= bytes.len()
            &&& bytes.subrange(pos, pos + head.len() as int) == head
            &&& bytes.subrange(
                pos + head.len(),
                pos + head.len() + body.len() as int,
            ) == body
            &&& bytes.subrange(
                pos + head.len() + body.len(),
                pos + head.len() + body.len() + kenc.len() as int,
            ) == kenc
            &&& (match sd_skip(bytes, pos + head.len() + body.len() + kenc.len(), 1) {
                Some(e) => pos + head.len() + body.len() + kenc.len() < e <= bytes.len(),
                None => false,
            })
        }),
    ensures
        ({
            let entries = v->Rec_0;
            let body = enc_entries_from(ts, st.fields@, entries, 0, 0);
            let head = enc_maphead(entries.len() as int + 1);
            let kenc = enc_uint(extra_key);
            sd_rec(ts, st, bytes, pos) == Some(
                (
                    v,
                    sd_skip(bytes, pos + head.len() + body.len() + kenc.len(), 1)->Some_0,
                ),
            )
        }),
{
    let entries = v->Rec_0;
    let fields = st.fields@;
    let body = enc_entries_from(ts, fields, entries, 0, 0);
    let head = enc_maphead(entries.len() as int + 1);
    let kenc = enc_uint(extra_key);
    let p = pos + head.len();
    lemma_rt_maphead(bytes, pos, entries.len() as int + 1);
    let sacc0 = Seq::new(fields.len(), |i: int| None::<Val>);
    assert forall|a: int, b: int|
        0 <= a < b < fields.len() implies (#[trigger] fields[a]).id != (#[trigger] fields[b]).id
        by {}
    lemma_rt_entries(ts, fields, entries, 0, 0, bytes, p, sacc0);
    let fill = fill_acc(fields, entries, 0, 0, sacc0);
    let e1 = p + body.len();
    lemma_sd_entries_append(ts, fields, bytes, p, entries.len() as int, 1, sacc0);
    lemma_rt_uint(bytes, e1, extra_key);
    let e2 = e1 + kenc.len();
    let efin = sd_skip(bytes, e2, 1)->Some_0;
    assert(sd_int(bytes, e1) == Some((extra_key as int, e2)));
    assert(field_index_of(fields, extra_key as int) is None);
    assert(e1 < e2 <= bytes.len());
    assert(sd_skip(bytes, e2, 1) == Some(efin));
    assert(e2 < efin <= bytes.len());
    assert(sd_entries(ts, fields, bytes, efin, 0, fill) == Some((fill, efin)));
    assert(sd_entries(ts, fields, bytes, e1, 1, fill) == Some((fill, efin)));
    assert forall|j: int| 0 <= j < fields.len() implies (#[trigger] sacc0[j]) is None by {}
    lemma_fill_assemble(ts, fields, entries, 0, 0, sacc0);
    assert(entries.subrange(0, entries.len() as int) =~= entries);
}

} // verus!
