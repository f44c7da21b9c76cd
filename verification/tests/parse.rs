//! Parser and backend tests: schema sources against the expected IR, the
//! error taxonomy with positions, and the emitted Rust text.

use typedpack::{parse, Enum, ParseError, StructFieldType, Type};

#[test]
fn test_rust_keywords() {
    let types = parse("struct if { uint8 else = 0; } enum while { for = 0; }").unwrap();
    let (s, e) = match (&types[0], &types[1]) {
        (Type::Struct(s), Type::Enum(e)) => (s, e),
        _ => panic!("unexpected IR shape"),
    };
    let struct_src = s.rust_struct();
    let enum_src = e.rust_enum();
    assert!(struct_src.contains("pub struct r#if"));
    assert!(struct_src.contains("pub r#else: "));
    assert!(enum_src.contains("pub enum r#while"));
    assert!(enum_src.contains("r#for = 0"));
}

#[test]
fn test_parse_struct_ir() {
    let types = parse(
        "# a schema\nstruct A { optional nullable uint8 x = 3; string[][] names = 0; B b = 127; }",
    )
    .unwrap();
    assert_eq!(types.len(), 1);
    assert_eq!(types[0].name(), "A");
    let s = match &types[0] {
        Type::Struct(s) => s,
        _ => panic!("expected a struct"),
    };
    assert_eq!(s.fields.len(), 3);
    assert_eq!(s.fields[0].id, 3);
    assert_eq!(s.fields[0].name, "x");
    assert!(s.fields[0].optional);
    assert!(s.fields[0].nullable);
    assert_eq!(s.fields[0].ty, StructFieldType::U8);
    assert_eq!(s.fields[1].id, 0);
    assert_eq!(s.fields[1].name, "names");
    assert!(!s.fields[1].optional);
    match &s.fields[1].ty {
        StructFieldType::Array { items } => match &**items {
            StructFieldType::Array { items } => {
                assert_eq!(**items, StructFieldType::String);
            }
            _ => panic!("expected nested array"),
        },
        _ => panic!("expected array"),
    }
    assert_eq!(
        s.fields[2].ty,
        StructFieldType::Reference { name: String::from("B") }
    );
}

#[test]
fn test_parse_enums_ir() {
    let types = parse("struct P { bool x = 0; } enum E { P A = 0; P B = 1; } enum U { C = 5; }")
        .unwrap();
    match &types[1] {
        Type::Enum(Enum::Tagged { name, variants }) => {
            assert_eq!(name, "E");
            assert_eq!(variants.len(), 2);
            assert_eq!(variants[0].id, 0);
            assert_eq!(variants[0].name, "A");
            assert_eq!(variants[0].ty, "P");
            assert_eq!(variants[1].id, 1);
            assert_eq!(variants[1].name, "B");
        }
        _ => panic!("expected tagged enum"),
    }
    match &types[2] {
        Type::Enum(Enum::Untagged { name, variants }) => {
            assert_eq!(name, "U");
            assert_eq!(variants.len(), 1);
            assert_eq!(variants[0].id, 5);
            assert_eq!(variants[0].name, "C");
        }
        _ => panic!("expected untagged enum"),
    }
}

#[test]
fn test_bytes_family_resolution() {
    let types = parse(
        "struct A { bytes a = 0; bytes0 b = 1; bytes32 c = 2; bytes07 d = 3; bytes4294967296 e = 4; }",
    )
    .unwrap();
    let s = match &types[0] {
        Type::Struct(s) => s,
        _ => panic!("expected a struct"),
    };
    assert_eq!(s.fields[0].ty, StructFieldType::Bytes { len: None });
    assert_eq!(s.fields[1].ty, StructFieldType::Bytes { len: Some(0) });
    assert_eq!(s.fields[2].ty, StructFieldType::Bytes { len: Some(32) });
    assert_eq!(
        s.fields[3].ty,
        StructFieldType::Reference { name: String::from("bytes07") }
    );
    assert_eq!(
        s.fields[4].ty,
        StructFieldType::Reference { name: String::from("bytes4294967296") }
    );
}

#[test]
fn test_non_ascii_character() {
    let r = parse("ab\n\u{e9}");
    match r {
        Err(ParseError::NonAsciiCharacter { char: c, pos }) => {
            assert_eq!(c, '\u{e9}');
            assert_eq!(pos.line, 2);
            assert_eq!(pos.column, 1);
        }
        _ => panic!("expected a non-ASCII error"),
    }
    assert!(parse("# comment with \u{e9} is fine\nstruct A { }").is_ok());
}

#[test]
fn test_unexpected_end() {
    assert!(matches!(parse("struct"), Err(ParseError::UnexpectedEnd { .. })));
    assert!(matches!(parse("struct A {"), Err(ParseError::UnexpectedEnd { .. })));
    assert!(matches!(
        parse("struct A { bool x ="),
        Err(ParseError::UnexpectedEnd { .. })
    ));
}

#[test]
fn test_unexpected_token() {
    assert!(matches!(parse("banana"), Err(ParseError::UnexpectedToken { .. })));
    assert!(matches!(
        parse("struct A { bool x 0; }"),
        Err(ParseError::UnexpectedToken { .. })
    ));
    assert!(matches!(
        parse("struct A { bool 5x = 0; }"),
        Err(ParseError::UnexpectedToken { .. })
    ));
}

#[test]
fn test_duplicate_type_name() {
    let r = parse("struct A { } struct A { }");
    assert!(matches!(r, Err(ParseError::DuplicateTypeName { .. })));
    assert!(matches!(
        parse("struct A { } enum A { X = 0; }"),
        Err(ParseError::DuplicateTypeName { .. })
    ));
}

#[test]
fn test_duplicate_struct_field_id() {
    let r = parse("struct A { bool x = 0; bool y = 0; }");
    match r {
        Err(ParseError::DuplicateStructFieldId { id, .. }) => assert_eq!(id, 0),
        _ => panic!("expected a duplicate field id error"),
    }
}

#[test]
fn test_duplicate_struct_field_name() {
    let r = parse("struct A { bool x = 0; bool x = 1; }");
    match r {
        Err(ParseError::DuplicateStructFieldName { name, .. }) => assert_eq!(name, "x"),
        _ => panic!("expected a duplicate field name error"),
    }
}

#[test]
fn test_invalid_struct_field_id() {
    assert!(matches!(
        parse("struct A { bool x = 007; }"),
        Err(ParseError::InvalidStructFieldId { .. })
    ));
    assert!(matches!(
        parse("struct A { bool x = 128; }"),
        Err(ParseError::InvalidStructFieldId { .. })
    ));
    assert!(parse("struct A { bool x = 0; }").is_ok());
    assert!(parse("struct A { bool x = 127; }").is_ok());
}

#[test]
fn test_duplicate_enum_variant_id() {
    assert!(matches!(
        parse("enum E { A = 0; B = 0; }"),
        Err(ParseError::DuplicateEnumVariantId { .. })
    ));
}

#[test]
fn test_duplicate_enum_variant_name() {
    assert!(matches!(
        parse("enum E { A = 0; A = 1; }"),
        Err(ParseError::DuplicateEnumVariantName { .. })
    ));
}

#[test]
fn test_invalid_enum_variant_id() {
    assert!(matches!(
        parse("enum E { A = 09; }"),
        Err(ParseError::InvalidEnumVariantId { .. })
    ));
    assert!(matches!(
        parse("enum E { A = 200; }"),
        Err(ParseError::InvalidEnumVariantId { .. })
    ));
}

#[test]
fn test_mixed_enum_variants() {
    assert!(matches!(
        parse("struct P { } enum E { A = 0; P B = 1; }"),
        Err(ParseError::MixedTaggedAndUntaggedEnumVariants { .. })
    ));
    assert!(matches!(
        parse("struct P { } enum E { P A = 0; B = 1; }"),
        Err(ParseError::MixedTaggedAndUntaggedEnumVariants { .. })
    ));
}

#[test]
fn test_empty_enum_rejected() {
    assert!(matches!(
        parse("enum E { }"),
        Err(ParseError::UnexpectedToken { .. })
    ));
}

#[test]
fn test_unknown_tagged_variant_type() {
    match parse("enum E { P A = 0; }") {
        Err(ParseError::UnknownTaggedEnumVariantType { name, pos }) => {
            assert_eq!(name, "P");
            // The position cites the payload type token `P`.
            assert_eq!(pos.line, 1);
            assert_eq!(pos.column, 10);
        }
        _ => panic!("expected an unknown payload type error"),
    }
    // An enum is not an acceptable payload either.
    assert!(matches!(
        parse("enum P { X = 0; } enum E { P A = 0; }"),
        Err(ParseError::UnknownTaggedEnumVariantType { .. })
    ));
    // Forward references to structs are fine.
    assert!(parse("enum E { P A = 0; } struct P { }").is_ok());
}

#[test]
fn test_array_bracket_errors() {
    assert!(matches!(
        parse("struct A { bool[[ ]] x = 0; }"),
        Err(ParseError::UnexpectedToken { .. })
    ));
    assert!(matches!(
        parse("struct A { bool][ x = 0; }"),
        Err(ParseError::UnexpectedToken { .. })
    ));
    assert!(matches!(
        parse("struct A { bool[ x = 0; }"),
        Err(ParseError::UnexpectedToken { .. })
    ));
}

#[test]
fn test_error_position_cites_token() {
    let r = parse("struct A {\n  bool x = 0;\n  bool x = 1;\n}");
    match r {
        Err(ParseError::DuplicateStructFieldName { pos, .. }) => {
            assert_eq!(pos.line, 3);
            // The tokenizer records the column where the token's first
            // character was consumed, 1-based.
            assert_eq!(pos.column, 8);
        }
        _ => panic!("expected a duplicate field name error"),
    }
}

#[test]
fn test_rust_type_strings() {
    assert_eq!(StructFieldType::Bool.rust_type(), "::std::primitive::bool");
    assert_eq!(StructFieldType::I64.rust_type(), "::std::primitive::i64");
    assert_eq!(StructFieldType::String.rust_type(), "::std::string::String");
    assert_eq!(
        StructFieldType::Bytes { len: None }.rust_type(),
        "::typedpack::serde_bytes::ByteBuf"
    );
    assert_eq!(
        StructFieldType::Bytes { len: Some(16) }.rust_type(),
        "::typedpack::serde_bytes::ByteArray<16>"
    );
    assert_eq!(
        StructFieldType::Array { items: std::rc::Rc::new(StructFieldType::U8) }.rust_type(),
        "::std::boxed::Box<[::std::primitive::u8]>"
    );
    assert_eq!(
        StructFieldType::Reference { name: String::from("Other") }.rust_type(),
        "Other"
    );
}

#[test]
fn test_rust_struct_field_strings() {
    let types = parse("struct A { optional nullable string x = 1; uint8 y = 2; }").unwrap();
    let s = match &types[0] {
        Type::Struct(s) => s,
        _ => panic!("expected a struct"),
    };
    assert_eq!(
        s.fields[0].rust_struct_field(),
        "pub r#x: ::std::option::Option<::std::option::Option<::std::string::String>>,"
    );
    assert_eq!(s.fields[1].rust_struct_field(), "pub r#y: ::std::primitive::u8,");
}

#[test]
fn test_rust_struct_output() {
    let types = parse("struct S { bool a = 0; optional uint8 b = 1; }").unwrap();
    let s = match &types[0] {
        Type::Struct(s) => s,
        _ => panic!("expected a struct"),
    };
    let out = s.rust_struct();
    assert!(out.starts_with(
        "#[derive(::std::clone::Clone, ::std::fmt::Debug, ::std::cmp::PartialEq, \
         ::std::cmp::Eq, ::std::hash::Hash)]\npub struct r#S {\n"
    ));
    assert!(out.contains("pub r#a: ::std::primitive::bool,"));
    assert!(out.contains("pub r#b: ::std::option::Option<::std::primitive::u8>,"));
    assert!(out.contains("let map_len = 1\n            + if self.r#b.is_some() { 1 } else { 0 };"));
    assert!(out.contains("serialize_entry(&mut map, &0, &self.r#a)?;"));
    assert!(out.contains("if self.r#b.is_some() {"));
    assert!(out.contains("let mut r#a = ::std::option::Option::None;"));
    assert!(out.contains("0 => {"));
    assert!(out.contains("missing `a`"));
    assert!(out.contains("impl ::typedpack::FromRmpValue for r#S"));
}

#[test]
fn test_rust_enum_output() {
    let types =
        parse("struct P { bool x = 0; } enum T { P A = 0; } enum U { A = 0; B = 3; }").unwrap();
    let (t, u) = match (&types[1], &types[2]) {
        (Type::Enum(t), Type::Enum(u)) => (t, u),
        _ => panic!("expected enums"),
    };
    let tagged = t.rust_enum();
    assert!(tagged.contains("pub enum r#T {\n    r#A(r#P),\n}"));
    assert!(tagged.contains("serialize_seq(::std::option::Option::Some(2))"));
    assert!(tagged.contains("0u8 => r#T::r#A("));
    let untagged = u.rust_enum();
    assert!(untagged.contains("#[repr(u8)]"));
    assert!(untagged.contains("pub enum r#U {\n    r#A = 0,\n    r#B = 3,\n}"));
}

#[test]
fn test_type_name_method() {
    let types = parse("struct A { } enum B { X = 0; } struct P { } enum C { P Y = 1; }").unwrap();
    assert_eq!(types[0].name(), "A");
    assert_eq!(types[1].name(), "B");
    assert_eq!(types[3].name(), "C");
}

#[test]
fn test_comments_and_whitespace() {
    let types = parse("# heading\nstruct A { # trailing comment with } and { inside\n bool x = 0; }\r\n").unwrap();
    assert_eq!(types.len(), 1);
    let s = match &types[0] {
        Type::Struct(s) => s,
        _ => panic!("expected a struct"),
    };
    assert_eq!(s.fields.len(), 1);
}
