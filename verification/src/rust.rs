//! The Rust backend: pure renderers from the IR to Rust source text.
//!
//! Every emitter's output is specified exactly as a concatenation of the
//! template fragments and the schema's own names and numbers.

use vstd::prelude::*;

use crate::ir::{Enum, Struct, StructField, StructFieldType, TaggedEnumVariant,
    UntaggedEnumVariant};
use vstd::string::StringExecFns;

verus! {

/// The decimal digit character for `d`.
pub open spec fn digit_char_of(d: int) -> char {
    if d == 0 {
        '0'
    } else if d == 1 {
        '1'
    } else if d == 2 {
        '2'
    } else if d == 3 {
        '3'
    } else if d == 4 {
        '4'
    } else if d == 5 {
        '5'
    } else if d == 6 {
        '6'
    } else if d == 7 {
        '7'
    } else if d == 8 {
        '8'
    } else {
        '9'
    }
}

/// The decimal rendering of a non-negative integer.
pub open spec fn dec_str(n: int) -> Seq<char>
    decreases n,
{
    if n < 10 {
        seq![digit_char_of(n)]
    } else {
        dec_str(n / 10) + seq![digit_char_of(n % 10)]
    }
}

fn digit_str(d: u64) -> (r: &'static str)
    requires
        d < 10,
    ensures
        r@ == seq![digit_char_of(d as int)],
{
    if d == 0 {
        proof {
            reveal_strlit("0");
        }
        proof {
            assert("0"@ =~= seq![digit_char_of(d as int)]);
        }
        "0"
    } else if d == 1 {
        proof {
            reveal_strlit("1");
            assert("1"@ =~= seq![digit_char_of(d as int)]);
        }
        "1"
    } else if d == 2 {
        proof {
            reveal_strlit("2");
            assert("2"@ =~= seq![digit_char_of(d as int)]);
        }
        "2"
    } else if d == 3 {
        proof {
            reveal_strlit("3");
            assert("3"@ =~= seq![digit_char_of(d as int)]);
        }
        "3"
    } else if d == 4 {
        proof {
            reveal_strlit("4");
            assert("4"@ =~= seq![digit_char_of(d as int)]);
        }
        "4"
    } else if d == 5 {
        proof {
            reveal_strlit("5");
            assert("5"@ =~= seq![digit_char_of(d as int)]);
        }
        "5"
    } else if d == 6 {
        proof {
            reveal_strlit("6");
            assert("6"@ =~= seq![digit_char_of(d as int)]);
        }
        "6"
    } else if d == 7 {
        proof {
            reveal_strlit("7");
            assert("7"@ =~= seq![digit_char_of(d as int)]);
        }
        "7"
    } else if d == 8 {
        proof {
            reveal_strlit("8");
            assert("8"@ =~= seq![digit_char_of(d as int)]);
        }
        "8"
    } else {
        proof {
            reveal_strlit("9");
            assert("9"@ =~= seq![digit_char_of(d as int)]);
        }
        "9"
    }
}

/// Renders a non-negative integer in decimal.
fn u64_to_string(n: u64) -> (r: String)
    ensures
        r@ == dec_str(n as int),
    decreases n,
{
    if n < 10 {
        String::from_str(digit_str(n))
    } else {
        let mut s = u64_to_string(n / 10);
        s.append(digit_str(n % 10));
        s
    }
}

/// The Rust type emitted for a schema field type.
pub open spec fn spec_rust_type(t: StructFieldType) -> Seq<char>
    decreases t,
{
    match t {
        StructFieldType::Bool => "::std::primitive::bool"@,
        StructFieldType::U8 => "::std::primitive::u8"@,
        StructFieldType::I8 => "::std::primitive::i8"@,
        StructFieldType::U16 => "::std::primitive::u16"@,
        StructFieldType::I16 => "::std::primitive::i16"@,
        StructFieldType::U32 => "::std::primitive::u32"@,
        StructFieldType::I32 => "::std::primitive::i32"@,
        StructFieldType::U64 => "::std::primitive::u64"@,
        StructFieldType::I64 => "::std::primitive::i64"@,
        StructFieldType::F32 => "::std::primitive::f32"@,
        StructFieldType::F64 => "::std::primitive::f64"@,
        StructFieldType::String => "::std::string::String"@,
        StructFieldType::Bytes { len } => match len {
            Some(l) => "::typedpack::serde_bytes::ByteArray<"@ + dec_str(l as int) + ">"@,
            None => "::typedpack::serde_bytes::ByteBuf"@,
        },
        StructFieldType::Array { items } => "::std::boxed::Box<["@ + spec_rust_type(*items)
            + "]>"@,
        StructFieldType::Reference { name } => name@,
    }
}

impl StructFieldType {
    /// Returns the corresponding Rust type.
    pub fn rust_type(&self) -> (r: String)
        ensures
            r@ == spec_rust_type(*self),
        decreases *self,
    {
        match self {
            StructFieldType::Bool => String::from_str("::std::primitive::bool"),
            StructFieldType::U8 => String::from_str("::std::primitive::u8"),
            StructFieldType::I8 => String::from_str("::std::primitive::i8"),
            StructFieldType::U16 => String::from_str("::std::primitive::u16"),
            StructFieldType::I16 => String::from_str("::std::primitive::i16"),
            StructFieldType::U32 => String::from_str("::std::primitive::u32"),
            StructFieldType::I32 => String::from_str("::std::primitive::i32"),
            StructFieldType::U64 => String::from_str("::std::primitive::u64"),
            StructFieldType::I64 => String::from_str("::std::primitive::i64"),
            StructFieldType::F32 => String::from_str("::std::primitive::f32"),
            StructFieldType::F64 => String::from_str("::std::primitive::f64"),
            StructFieldType::String => String::from_str("::std::string::String"),
            StructFieldType::Bytes { len } => {
                match len {
                    Some(l) => {
                        let mut s = String::from_str("::typedpack::serde_bytes::ByteArray<");
                        let num = u64_to_string(*l as u64);
                        s.append(num.as_str());
                        s.append(">");
                        s
                    }
                    None => String::from_str("::typedpack::serde_bytes::ByteBuf"),
                }
            }
            StructFieldType::Array { items } => {
                let mut s = String::from_str("::std::boxed::Box<[");
                let inner = (&**items).rust_type();
                s.append(inner.as_str());
                s.append("]>");
                s
            }
            StructFieldType::Reference { name } => name.clone(),
        }
    }
}

/// The Rust struct-field declaration emitted for a schema field.
pub open spec fn spec_rust_struct_field(f: StructField) -> Seq<char> {
    "pub r#"@ + f.name@ + ": "@ + (if f.optional {
        "::std::option::Option<"@
    } else {
        Seq::empty()
    }) + (if f.nullable {
        "::std::option::Option<"@
    } else {
        Seq::empty()
    }) + spec_rust_type(f.ty) + (if f.nullable {
        ">"@
    } else {
        Seq::empty()
    }) + (if f.optional {
        ">"@
    } else {
        Seq::empty()
    }) + ","@
}

impl StructField {
    /// Generates a Rust `struct` field definition.
    pub fn rust_struct_field(&self) -> (r: String)
        ensures
            r@ == spec_rust_struct_field(*self),
    {
        let mut s = String::from_str("pub r#");
        s.append(self.name.as_str());
        s.append(": ");
        if self.optional {
            s.append("::std::option::Option<");
        }
        if self.nullable {
            s.append("::std::option::Option<");
        }
        let ty = self.ty.rust_type();
        s.append(ty.as_str());
        if self.nullable {
            s.append(">");
        }
        if self.optional {
            s.append(">");
        }
        s.append(",");
        s
    }
}


/// The per-field declaration lines of an emitted struct.
pub open spec fn sf_decl_lines(fs: Seq<StructField>) -> Seq<char>
    decreases fs.len(),
{
    if fs.len() == 0 {
        Seq::empty()
    } else {
        sf_decl_lines(fs.drop_last()) + "    "@ + spec_rust_struct_field(fs.last()) + "\n"@
    }
}

/// How many fields of a struct are required (not `optional`).
pub open spec fn spec_count_required(fs: Seq<StructField>) -> int
    decreases fs.len(),
{
    if fs.len() == 0 {
        0
    } else {
        spec_count_required(fs.drop_last()) + (if fs.last().optional {
            0int
        } else {
            1int
        })
    }
}

/// The `map_len` additions for the optional fields, in declared order.
pub open spec fn sf_len_adds(fs: Seq<StructField>) -> Seq<char>
    decreases fs.len(),
{
    if fs.len() == 0 {
        Seq::empty()
    } else {
        sf_len_adds(fs.drop_last()) + (if fs.last().optional {
            "\n            + if self.r#"@ + fs.last().name@ + ".is_some() { 1 } else { 0 }"@
        } else {
            Seq::empty()
        })
    }
}

/// The serializer statements for the fields, in declared order.
pub open spec fn sf_ser_entries(fs: Seq<StructField>) -> Seq<char>
    decreases fs.len(),
{
    if fs.len() == 0 {
        Seq::empty()
    } else {
        sf_ser_entries(fs.drop_last()) + (if fs.last().optional {
            "        if self.r#"@ + fs.last().name@ + ".is_some() {\n    "@
        } else {
            Seq::empty()
        }) + "        ::typedpack::serde::ser::SerializeMap::serialize_entry(&mut map, &"@
            + dec_str(fs.last().id as int) + ", &self.r#"@ + fs.last().name@ + ")?;\n"@ + (
        if fs.last().optional {
            "        }\n"@
        } else {
            Seq::empty()
        })
    }
}

/// The per-field accumulator declarations of the emitted deserializer.
pub open spec fn sf_deser_lets(fs: Seq<StructField>) -> Seq<char>
    decreases fs.len(),
{
    if fs.len() == 0 {
        Seq::empty()
    } else {
        sf_deser_lets(fs.drop_last()) + "        let mut r#"@ + fs.last().name@
            + " = ::std::option::Option::None;\n"@
    }
}

/// The per-field match arms of the emitted deserializer.
pub open spec fn sf_deser_arms(fs: Seq<StructField>) -> Seq<char>
    decreases fs.len(),
{
    if fs.len() == 0 {
        Seq::empty()
    } else {
        sf_deser_arms(fs.drop_last()) + "                "@ + dec_str(fs.last().id as int)
            + " => {\n                    r#"@ + fs.last().name@
            + " = ::std::option::Option::Some(::typedpack::FromRmpValue::from(value).map_err(|err| ::typedpack::serde::de::Error::custom(err))?);\n                }\n"@
    }
}

/// The field initializers of the emitted deserializer's final constructor.
pub open spec fn sf_build_fields(fs: Seq<StructField>) -> Seq<char>
    decreases fs.len(),
{
    if fs.len() == 0 {
        Seq::empty()
    } else {
        sf_build_fields(fs.drop_last()) + "            r#"@ + fs.last().name@ + (
        if fs.last().optional {
            ",\n"@
        } else {
            ": r#"@ + fs.last().name@
                + ".ok_or_else(|| ::typedpack::serde::de::Error::custom(\"missing `"@
                + fs.last().name@ + "`\"))?,\n"@
        })
    }
}

/// The whole Rust rendering of a schema struct: the type declaration and its
/// `Serialize`, `Deserialize` and `FromRmpValue` impls.
pub open spec fn spec_rust_struct(s: Struct) -> Seq<char> {
    let fs = s.fields@;
    "#[derive(::std::clone::Clone, ::std::fmt::Debug, ::std::cmp::PartialEq, ::std::cmp::Eq, ::std::hash::Hash)]\npub struct r#"@
        + s.name@ + " {\n"@ + sf_decl_lines(fs)
        + "}\n\nimpl ::typedpack::serde::Serialize for r#"@ + s.name@
        + " {\n    fn serialize<S>(&self, serializer: S) -> ::std::result::Result<S::Ok, S::Error>\n    where\n        S: ::typedpack::serde::Serializer,\n    {\n        let map_len = "@
        + dec_str(spec_count_required(fs)) + sf_len_adds(fs) + ";\n        let "@ + (if fs.len()
        > 0 {
        "mut "@
    } else {
        Seq::empty()
    }) + "map = serializer.serialize_map(::std::option::Option::Some(map_len))?;\n"@
        + sf_ser_entries(fs)
        + "        ::typedpack::serde::ser::SerializeMap::end(map)\n    }\n}\n\n"@
        + "\nimpl<'de> ::typedpack::serde::Deserialize<'de> for r#"@ + s.name@
        + " {\nfn deserialize<D>(deserializer: D) -> ::std::result::Result<Self, D::Error>\n    where\n        D: ::typedpack::serde::Deserializer<'de>,\n    {\n        "@
        + (if fs.len() > 0 {
        "let entries = "@
    } else {
        Seq::empty()
    }) + "deserializer.deserialize_map(::typedpack::MapVisitor)?;\n"@ + (if fs.len() == 0 {
        "        ::std::result::Result::Ok(Self {})\n    }\n}"@
    } else {
        sf_deser_lets(fs) + "\n        for (key, value) in entries {\n            match key {\n"@
            + sf_deser_arms(fs)
            + "                _ => {{}}\n            }\n        }\n        ::std::result::Result::Ok(Self {\n"@
            + sf_build_fields(fs) + "        })\n    }\n}\n\n"@
            + "impl ::typedpack::FromRmpValue for r#"@ + s.name@
            + "{\n    fn from(value: ::typedpack::rmpv::Value) -> ::std::result::Result<Self, &'static ::std::primitive::str> {\n        ::typedpack::serde::Deserialize::deserialize(value).map_err(|_| \"could not deserialize struct\")\n    }\n}"@
    })
}

impl Struct {
    /// Generates a Rust `struct` definition.
    pub fn rust_struct(&self) -> (r: String)
        ensures
            r@ == spec_rust_struct(*self),
    {
        let fields = &self.fields;
        let ghost fs = self.fields@;
        let mut s = String::from_str(
            "#[derive(::std::clone::Clone, ::std::fmt::Debug, ::std::cmp::PartialEq, ::std::cmp::Eq, ::std::hash::Hash)]\npub struct r#",
        );
        s.append(self.name.as_str());
        s.append(" {\n");

        let ghost p1 = s@;
        let mut k: usize = 0;
        while k < fields.len()
            invariant
                fs == fields@,
                k <= fs.len(),
                s@ == p1 + sf_decl_lines(fs.take(k as int)),
            decreases fs.len() - k,
        {
            let line = fields[k].rust_struct_field();
            s.append("    ");
            s.append(line.as_str());
            s.append("\n");
            proof {
                assert(fs.take(k + 1).drop_last() =~= fs.take(k as int));
                assert(fs.take(k + 1).last() == fs[k as int]);
                assert(s@ =~= p1 + sf_decl_lines(fs.take(k + 1)));
            }
            k += 1;
        }
        proof {
            assert(fs.take(fs.len() as int) =~= fs);
        }

        s.append(
            "}\n\nimpl ::typedpack::serde::Serialize for r#",
        );
        s.append(self.name.as_str());
        s.append(
            " {\n    fn serialize<S>(&self, serializer: S) -> ::std::result::Result<S::Ok, S::Error>\n    where\n        S: ::typedpack::serde::Serializer,\n    {\n        let map_len = ",
        );

        let mut required: usize = 0;
        let mut k: usize = 0;
        while k < fields.len()
            invariant
                fs == fields@,
                k <= fs.len(),
                required <= k,
                required as int == spec_count_required(fs.take(k as int)),
            decreases fs.len() - k,
        {
            if !fields[k].optional {
                required += 1;
            }
            proof {
                assert(fs.take(k + 1).drop_last() =~= fs.take(k as int));
                assert(fs.take(k + 1).last() == fs[k as int]);
            }
            k += 1;
        }
        proof {
            assert(fs.take(fs.len() as int) =~= fs);
        }
        let num = u64_to_string(required as u64);
        s.append(num.as_str());

        let ghost p2 = s@;
        let mut k: usize = 0;
        while k < fields.len()
            invariant
                fs == fields@,
                k <= fs.len(),
                s@ == p2 + sf_len_adds(fs.take(k as int)),
            decreases fs.len() - k,
        {
            if fields[k].optional {
                s.append("\n            + if self.r#");
                s.append(fields[k].name.as_str());
                s.append(".is_some() { 1 } else { 0 }");
            }
            proof {
                assert(fs.take(k + 1).drop_last() =~= fs.take(k as int));
                assert(fs.take(k + 1).last() == fs[k as int]);
                assert(s@ =~= p2 + sf_len_adds(fs.take(k + 1)));
            }
            k += 1;
        }
        proof {
            assert(fs.take(fs.len() as int) =~= fs);
        }

        s.append(";\n        let ");
        if fields.len() > 0 {
            s.append("mut ");
        }
        s.append("map = serializer.serialize_map(::std::option::Option::Some(map_len))?;\n");

        let ghost p3 = s@;
        let mut k: usize = 0;
        while k < fields.len()
            invariant
                fs == fields@,
                k <= fs.len(),
                s@ == p3 + sf_ser_entries(fs.take(k as int)),
            decreases fs.len() - k,
        {
            if fields[k].optional {
                s.append("        if self.r#");
                s.append(fields[k].name.as_str());
                s.append(".is_some() {\n    ");
            }
            s.append("        ::typedpack::serde::ser::SerializeMap::serialize_entry(&mut map, &");
            let num = u64_to_string(fields[k].id as u64);
            s.append(num.as_str());
            s.append(", &self.r#");
            s.append(fields[k].name.as_str());
            s.append(")?;\n");
            if fields[k].optional {
                s.append("        }\n");
            }
            proof {
                assert(fs.take(k + 1).drop_last() =~= fs.take(k as int));
                assert(fs.take(k + 1).last() == fs[k as int]);
                assert(s@ =~= p3 + sf_ser_entries(fs.take(k + 1)));
            }
            k += 1;
        }
        proof {
            assert(fs.take(fs.len() as int) =~= fs);
        }

        s.append("        ::typedpack::serde::ser::SerializeMap::end(map)\n    }\n}\n\n");
        s.append("\nimpl<'de> ::typedpack::serde::Deserialize<'de> for r#");
        s.append(self.name.as_str());
        s.append(
            " {\nfn deserialize<D>(deserializer: D) -> ::std::result::Result<Self, D::Error>\n    where\n        D: ::typedpack::serde::Deserializer<'de>,\n    {\n        ",
        );
        if fields.len() > 0 {
            s.append("let entries = ");
        }
        s.append("deserializer.deserialize_map(::typedpack::MapVisitor)?;\n");

        if fields.len() == 0 {
            s.append("        ::std::result::Result::Ok(Self {})\n    }\n}");
            proof {
                assert(s@ =~= spec_rust_struct(*self));
            }
            return s;
        }

        let ghost p4 = s@;
        let mut k: usize = 0;
        while k < fields.len()
            invariant
                fs == fields@,
                k <= fs.len(),
                s@ == p4 + sf_deser_lets(fs.take(k as int)),
            decreases fs.len() - k,
        {
            s.append("        let mut r#");
            s.append(fields[k].name.as_str());
            s.append(" = ::std::option::Option::None;\n");
            proof {
                assert(fs.take(k + 1).drop_last() =~= fs.take(k as int));
                assert(fs.take(k + 1).last() == fs[k as int]);
                assert(s@ =~= p4 + sf_deser_lets(fs.take(k + 1)));
            }
            k += 1;
        }
        proof {
            assert(fs.take(fs.len() as int) =~= fs);
        }

        s.append("\n        for (key, value) in entries {\n            match key {\n");

        let ghost p5 = s@;
        let mut k: usize = 0;
        while k < fields.len()
            invariant
                fs == fields@,
                k <= fs.len(),
                s@ == p5 + sf_deser_arms(fs.take(k as int)),
            decreases fs.len() - k,
        {
            s.append("                ");
            let num = u64_to_string(fields[k].id as u64);
            s.append(num.as_str());
            s.append(" => {\n                    r#");
            s.append(fields[k].name.as_str());
            s.append(
                " = ::std::option::Option::Some(::typedpack::FromRmpValue::from(value).map_err(|err| ::typedpack::serde::de::Error::custom(err))?);\n                }\n",
            );
            proof {
                assert(fs.take(k + 1).drop_last() =~= fs.take(k as int));
                assert(fs.take(k + 1).last() == fs[k as int]);
                assert(s@ =~= p5 + sf_deser_arms(fs.take(k + 1)));
            }
            k += 1;
        }
        proof {
            assert(fs.take(fs.len() as int) =~= fs);
        }

        s.append(
            "                _ => {{}}\n            }\n        }\n        ::std::result::Result::Ok(Self {\n",
        );

        let ghost p6 = s@;
        let mut k: usize = 0;
        while k < fields.len()
            invariant
                fs == fields@,
                k <= fs.len(),
                s@ == p6 + sf_build_fields(fs.take(k as int)),
            decreases fs.len() - k,
        {
            s.append("            r#");
            s.append(fields[k].name.as_str());
            if fields[k].optional {
                s.append(",\n");
            } else {
                s.append(": r#");
                s.append(fields[k].name.as_str());
                s.append(".ok_or_else(|| ::typedpack::serde::de::Error::custom(\"missing `");
                s.append(fields[k].name.as_str());
                s.append("`\"))?,\n");
            }
            proof {
                assert(fs.take(k + 1).drop_last() =~= fs.take(k as int));
                assert(fs.take(k + 1).last() == fs[k as int]);
                assert(s@ =~= p6 + sf_build_fields(fs.take(k + 1)));
            }
            k += 1;
        }
        proof {
            assert(fs.take(fs.len() as int) =~= fs);
        }

        s.append("        })\n    }\n}\n\n");
        s.append("impl ::typedpack::FromRmpValue for r#");
        s.append(self.name.as_str());
        s.append(
            "{\n    fn from(value: ::typedpack::rmpv::Value) -> ::std::result::Result<Self, &'static ::std::primitive::str> {\n        ::typedpack::serde::Deserialize::deserialize(value).map_err(|_| \"could not deserialize struct\")\n    }\n}",
        );
        proof {
            assert(s@ =~= spec_rust_struct(*self));
        }
        s
    }
}


/// The variant declaration lines of an emitted tagged enum.
pub open spec fn te_decl_lines(vs: Seq<TaggedEnumVariant>) -> Seq<char>
    decreases vs.len(),
{
    if vs.len() == 0 {
        Seq::empty()
    } else {
        te_decl_lines(vs.drop_last()) + "    r#"@ + vs.last().name@ + "(r#"@ + vs.last().ty@
            + "),\n"@
    }
}

/// The serializer match arms of an emitted tagged enum.
pub open spec fn te_ser_arms(vs: Seq<TaggedEnumVariant>) -> Seq<char>
    decreases vs.len(),
{
    if vs.len() == 0 {
        Seq::empty()
    } else {
        te_ser_arms(vs.drop_last()) + "            Self::r#"@ + vs.last().name@
            + "(data) => {\n                ::typedpack::serde::ser::SerializeSeq::serialize_element(&mut seq, &"@
            + dec_str(vs.last().id as int)
            + ")?;\n                ::typedpack::serde::ser::SerializeSeq::serialize_element(&mut seq, data)?;\n            }\n"@
    }
}

/// The deserializer match arms of an emitted tagged enum.
pub open spec fn te_deser_arms(vs: Seq<TaggedEnumVariant>, ename: Seq<char>) -> Seq<char>
    decreases vs.len(),
{
    if vs.len() == 0 {
        Seq::empty()
    } else {
        te_deser_arms(vs.drop_last(), ename) + "                    "@ + dec_str(
            vs.last().id as int,
        ) + "u8 => r#"@ + ename + "::r#"@ + vs.last().name@
            + "(seq.next_element()?.ok_or_else(|| ::typedpack::serde::de::Error::custom(\"invalid tagged enum data\"))?),\n"@
    }
}

/// The variant declaration lines of an emitted untagged enum.
pub open spec fn ue_decl_lines(vs: Seq<UntaggedEnumVariant>) -> Seq<char>
    decreases vs.len(),
{
    if vs.len() == 0 {
        Seq::empty()
    } else {
        ue_decl_lines(vs.drop_last()) + "    r#"@ + vs.last().name@ + " = "@ + dec_str(
            vs.last().id as int,
        ) + ",\n"@
    }
}

/// The whole Rust rendering of a schema enum.
pub open spec fn spec_rust_enum(e: Enum) -> Seq<char> {
    match e {
        Enum::Tagged { name, variants } => {
            "#[derive(::std::clone::Clone, ::std::fmt::Debug, ::std::cmp::PartialEq, ::std::cmp::Eq, ::std::hash::Hash)]\npub enum r#"@
                + name@ + " {\n"@ + te_decl_lines(variants@)
                + "}\n\nimpl ::typedpack::serde::Serialize for r#"@ + name@
                + " {\n    fn serialize<S>(&self, serializer: S) -> ::std::result::Result<S::Ok, S::Error>\n    where\n        S: ::typedpack::serde::Serializer,\n    {\n        let mut seq = serializer.serialize_seq(::std::option::Option::Some(2))?;\n        match self {\n"@
                + te_ser_arms(variants@)
                + "        }\n        ::typedpack::serde::ser::SerializeSeq::end(seq)\n    }\n}\n\nimpl<'de> ::typedpack::serde::Deserialize<'de> for r#"@
                + name@
                + " {\n    fn deserialize<D>(deserializer: D) -> ::std::result::Result<Self, D::Error>\n    where\n        D: ::typedpack::serde::Deserializer<'de>,\n    {\n        struct Visitor;\n        impl<'de> ::typedpack::serde::de::Visitor<'de> for Visitor {\n            type Value = r#"@
                + name@
                + ";\n\n            fn expecting(&self, formatter: &mut ::std::fmt::Formatter<'_>) -> ::std::fmt::Result {\n                formatter.write_str(\"a 2-tuple\")\n            }\n\n            fn visit_seq<A>(self, mut seq: A) -> ::std::result::Result<Self::Value, A::Error>\n             where\n                A: ::typedpack::serde::de::SeqAccess<'de>,\n            {\n                let ::std::option::Option::Some(id) = seq.next_element()? else {\n                    return ::std::result::Result::Err(::typedpack::serde::de::Error::custom(\"invalid enum tag\"));\n                };\n                let value = match id {\n"@
                + te_deser_arms(variants@, name@)
                + "                    _ => {\n                        return ::std::result::Result::Err(::typedpack::serde::de::Error::custom(\"invalid enum tag\"));\n                    }\n                };\n                if seq.next_element::<::typedpack::serde::de::IgnoredAny>()?.is_some() {\n                    return ::std::result::Result::Err(::typedpack::serde::de::Error::custom(\"invalid tagged enum data\"));\n                }\n                ::std::result::Result::Ok(value)\n            }\n        }\n\n        deserializer.deserialize_tuple(2, Visitor)\n    }\n}"@
        }
        Enum::Untagged { name, variants } => {
            "#[derive(::std::clone::Clone, ::std::fmt::Debug, ::std::cmp::PartialEq, ::std::cmp::Eq, ::std::hash::Hash, ::typedpack::serde_repr::Serialize_repr, ::typedpack::serde_repr::Deserialize_repr)]\n#[repr(u8)]\npub enum r#"@
                + name@ + " {\n"@ + ue_decl_lines(variants@) + "}"@
        }
    }
}

impl Enum {
    /// Generates a Rust `enum` definition.
    pub fn rust_enum(&self) -> (r: String)
        ensures
            r@ == spec_rust_enum(*self),
    {
        match self {
            Enum::Tagged { name, variants } => {
                let ghost vs = variants@;
                let mut s = String::from_str(
                    "#[derive(::std::clone::Clone, ::std::fmt::Debug, ::std::cmp::PartialEq, ::std::cmp::Eq, ::std::hash::Hash)]\npub enum r#",
                );
                s.append(name.as_str());
                s.append(" {\n");

                let ghost p1 = s@;
                let mut k: usize = 0;
                while k < variants.len()
                    invariant
                        vs == variants@,
                        k <= vs.len(),
                        s@ == p1 + te_decl_lines(vs.take(k as int)),
                    decreases vs.len() - k,
                {
                    s.append("    r#");
                    s.append(variants[k].name.as_str());
                    s.append("(r#");
                    s.append(variants[k].ty.as_str());
                    s.append("),\n");
                    proof {
                        assert(vs.take(k + 1).drop_last() =~= vs.take(k as int));
                        assert(vs.take(k + 1).last() == vs[k as int]);
                        assert(s@ =~= p1 + te_decl_lines(vs.take(k + 1)));
                    }
                    k += 1;
                }
                proof {
                    assert(vs.take(vs.len() as int) =~= vs);
                }

                s.append("}\n\nimpl ::typedpack::serde::Serialize for r#");
                s.append(name.as_str());
                s.append(
                    " {\n    fn serialize<S>(&self, serializer: S) -> ::std::result::Result<S::Ok, S::Error>\n    where\n        S: ::typedpack::serde::Serializer,\n    {\n        let mut seq = serializer.serialize_seq(::std::option::Option::Some(2))?;\n        match self {\n",
                );

                let ghost p2 = s@;
                let mut k: usize = 0;
                while k < variants.len()
                    invariant
                        vs == variants@,
                        k <= vs.len(),
                        s@ == p2 + te_ser_arms(vs.take(k as int)),
                    decreases vs.len() - k,
                {
                    s.append("            Self::r#");
                    s.append(variants[k].name.as_str());
                    s.append(
                        "(data) => {\n                ::typedpack::serde::ser::SerializeSeq::serialize_element(&mut seq, &",
                    );
                    let num = u64_to_string(variants[k].id as u64);
                    s.append(num.as_str());
                    s.append(
                        ")?;\n                ::typedpack::serde::ser::SerializeSeq::serialize_element(&mut seq, data)?;\n            }\n",
                    );
                    proof {
                        assert(vs.take(k + 1).drop_last() =~= vs.take(k as int));
                        assert(vs.take(k + 1).last() == vs[k as int]);
                        assert(s@ =~= p2 + te_ser_arms(vs.take(k + 1)));
                    }
                    k += 1;
                }
                proof {
                    assert(vs.take(vs.len() as int) =~= vs);
                }

                s.append(
                    "        }\n        ::typedpack::serde::ser::SerializeSeq::end(seq)\n    }\n}\n\nimpl<'de> ::typedpack::serde::Deserialize<'de> for r#",
                );
                s.append(name.as_str());
                s.append(
                    " {\n    fn deserialize<D>(deserializer: D) -> ::std::result::Result<Self, D::Error>\n    where\n        D: ::typedpack::serde::Deserializer<'de>,\n    {\n        struct Visitor;\n        impl<'de> ::typedpack::serde::de::Visitor<'de> for Visitor {\n            type Value = r#",
                );
                s.append(name.as_str());
                s.append(
                    ";\n\n            fn expecting(&self, formatter: &mut ::std::fmt::Formatter<'_>) -> ::std::fmt::Result {\n                formatter.write_str(\"a 2-tuple\")\n            }\n\n            fn visit_seq<A>(self, mut seq: A) -> ::std::result::Result<Self::Value, A::Error>\n             where\n                A: ::typedpack::serde::de::SeqAccess<'de>,\n            {\n                let ::std::option::Option::Some(id) = seq.next_element()? else {\n                    return ::std::result::Result::Err(::typedpack::serde::de::Error::custom(\"invalid enum tag\"));\n                };\n                let value = match id {\n",
                );

                let ghost p3 = s@;
                let mut k: usize = 0;
                while k < variants.len()
                    invariant
                        vs == variants@,
                        k <= vs.len(),
                        s@ == p3 + te_deser_arms(vs.take(k as int), name@),
                    decreases vs.len() - k,
                {
                    s.append("                    ");
                    let num = u64_to_string(variants[k].id as u64);
                    s.append(num.as_str());
                    s.append("u8 => r#");
                    s.append(name.as_str());
                    s.append("::r#");
                    s.append(variants[k].name.as_str());
                    s.append(
                        "(seq.next_element()?.ok_or_else(|| ::typedpack::serde::de::Error::custom(\"invalid tagged enum data\"))?),\n",
                    );
                    proof {
                        assert(vs.take(k + 1).drop_last() =~= vs.take(k as int));
                        assert(vs.take(k + 1).last() == vs[k as int]);
                        assert(s@ =~= p3 + te_deser_arms(vs.take(k + 1), name@));
                    }
                    k += 1;
                }
                proof {
                    assert(vs.take(vs.len() as int) =~= vs);
                }

                s.append(
                    "                    _ => {\n                        return ::std::result::Result::Err(::typedpack::serde::de::Error::custom(\"invalid enum tag\"));\n                    }\n                };\n                if seq.next_element::<::typedpack::serde::de::IgnoredAny>()?.is_some() {\n                    return ::std::result::Result::Err(::typedpack::serde::de::Error::custom(\"invalid tagged enum data\"));\n                }\n                ::std::result::Result::Ok(value)\n            }\n        }\n\n        deserializer.deserialize_tuple(2, Visitor)\n    }\n}",
                );
                proof {
                    assert(s@ =~= spec_rust_enum(*self));
                }
                s
            }
            Enum::Untagged { name, variants } => {
                let ghost vs = variants@;
                let mut s = String::from_str(
                    "#[derive(::std::clone::Clone, ::std::fmt::Debug, ::std::cmp::PartialEq, ::std::cmp::Eq, ::std::hash::Hash, ::typedpack::serde_repr::Serialize_repr, ::typedpack::serde_repr::Deserialize_repr)]\n#[repr(u8)]\npub enum r#",
                );
                s.append(name.as_str());
                s.append(" {\n");

                let ghost p1 = s@;
                let mut k: usize = 0;
                while k < variants.len()
                    invariant
                        vs == variants@,
                        k <= vs.len(),
                        s@ == p1 + ue_decl_lines(vs.take(k as int)),
                    decreases vs.len() - k,
                {
                    s.append("    r#");
                    s.append(variants[k].name.as_str());
                    s.append(" = ");
                    let num = u64_to_string(variants[k].id as u64);
                    s.append(num.as_str());
                    s.append(",\n");
                    proof {
                        assert(vs.take(k + 1).drop_last() =~= vs.take(k as int));
                        assert(vs.take(k + 1).last() == vs[k as int]);
                        assert(s@ =~= p1 + ue_decl_lines(vs.take(k + 1)));
                    }
                    k += 1;
                }
                proof {
                    assert(vs.take(vs.len() as int) =~= vs);
                }

                s.append("}");
                proof {
                    assert(s@ =~= spec_rust_enum(*self));
                }
                s
            }
        }
    }
}

} // verus!
