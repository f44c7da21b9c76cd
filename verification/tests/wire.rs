//! Wire-format tests: each schema is parsed from source, and values are
//! encoded and decoded through the verified codec against the exact byte
//! sequences of the wire contract.

use typedpack::{decode_value, encode_value, parse, StructFieldType, Value};

fn schema_type(name: &str) -> StructFieldType {
    StructFieldType::Reference { name: String::from(name) }
}

fn enc(src: &str, name: &str, v: &Value) -> Vec<u8> {
    let types = parse(src).unwrap();
    encode_value(&types, &schema_type(name), v).unwrap()
}

fn dec(src: &str, name: &str, bytes: &[u8]) -> Result<Value, typedpack::DecodeError> {
    let types = parse(src).unwrap();
    decode_value(&types, &schema_type(name), &bytes.to_vec())
}

#[test]
fn test_bool() {
    let s = "struct TestBool { bool foo = 0; }";
    let data1 = Value::Rec(vec![(0, Value::Bool(false))]);
    let data2 = Value::Rec(vec![(0, Value::Bool(true))]);

    assert_eq!(enc(s, "TestBool", &data1), [0x81, 0x00, 0xc2]);
    assert_eq!(enc(s, "TestBool", &data2), [0x81, 0x00, 0xc3]);

    assert_eq!(dec(s, "TestBool", &[0x81, 0x00, 0xc2]).unwrap(), data1);
    assert_eq!(dec(s, "TestBool", &[0x81, 0x00, 0xc3]).unwrap(), data2);
}

#[test]
fn test_uint8() {
    let s = "struct TestUint8 { uint8 foo = 0; }";
    let data1 = Value::Rec(vec![(0, Value::UInt(0))]);
    let data2 = Value::Rec(vec![(0, Value::UInt(0xff))]);

    assert_eq!(enc(s, "TestUint8", &data1), [0x81, 0x00, 0x00]);
    assert_eq!(enc(s, "TestUint8", &data2), [0x81, 0x00, 0xcc, 0xff]);

    assert_eq!(dec(s, "TestUint8", &[0x81, 0x00, 0x00]).unwrap(), data1);
    assert_eq!(dec(s, "TestUint8", &[0x81, 0x00, 0xcc, 0x00]).unwrap(), data1);
    assert_eq!(dec(s, "TestUint8", &[0x81, 0x00, 0xcc, 0xff]).unwrap(), data2);

    assert!(dec(s, "TestUint8", &[0x81, 0x00, 0xcd, 0xff, 0xff]).is_err());
}

#[test]
fn test_int8() {
    let s = "struct TestInt8 { int8 foo = 0; }";
    let data1 = Value::Rec(vec![(0, Value::SInt(0x7f))]);
    let data2 = Value::Rec(vec![(0, Value::SInt(-0x80))]);

    assert_eq!(enc(s, "TestInt8", &data1), [0x81, 0x00, 0x7f]);
    assert_eq!(enc(s, "TestInt8", &data2), [0x81, 0x00, 0xd0, 0x80]);

    assert_eq!(dec(s, "TestInt8", &[0x81, 0x00, 0x7f]).unwrap(), data1);
    assert_eq!(dec(s, "TestInt8", &[0x81, 0x00, 0xd0, 0x80]).unwrap(), data2);
}

#[test]
fn test_uint16() {
    let s = "struct TestUint16 { uint16 foo = 0; }";
    let data1 = Value::Rec(vec![(0, Value::UInt(0))]);
    let data2 = Value::Rec(vec![(0, Value::UInt(0xffff))]);

    assert_eq!(enc(s, "TestUint16", &data1), [0x81, 0x00, 0x00]);
    assert_eq!(enc(s, "TestUint16", &data2), [0x81, 0x00, 0xcd, 0xff, 0xff]);

    assert_eq!(dec(s, "TestUint16", &[0x81, 0x00, 0x00]).unwrap(), data1);
    assert_eq!(dec(s, "TestUint16", &[0x81, 0x00, 0xcd, 0xff, 0xff]).unwrap(), data2);
}

#[test]
fn test_int16() {
    let s = "struct TestInt16 { int16 foo = 0; }";
    let data1 = Value::Rec(vec![(0, Value::SInt(0x7fff))]);
    let data2 = Value::Rec(vec![(0, Value::SInt(-0x8000))]);

    assert_eq!(enc(s, "TestInt16", &data1), [0x81, 0x00, 0xcd, 0x7f, 0xff]);
    assert_eq!(enc(s, "TestInt16", &data2), [0x81, 0x00, 0xd1, 0x80, 0x00]);

    assert_eq!(dec(s, "TestInt16", &[0x81, 0x00, 0xcd, 0x7f, 0xff]).unwrap(), data1);
    assert_eq!(dec(s, "TestInt16", &[0x81, 0x00, 0xd1, 0x80, 0x00]).unwrap(), data2);
}

#[test]
fn test_uint32() {
    let s = "struct TestUint32 { uint32 foo = 0; }";
    let data1 = Value::Rec(vec![(0, Value::UInt(0))]);
    let data2 = Value::Rec(vec![(0, Value::UInt(0xffffffff))]);

    assert_eq!(enc(s, "TestUint32", &data1), [0x81, 0x00, 0x00]);
    assert_eq!(enc(s, "TestUint32", &data2), [0x81, 0x00, 0xce, 0xff, 0xff, 0xff, 0xff]);

    assert_eq!(dec(s, "TestUint32", &[0x81, 0x00, 0x00]).unwrap(), data1);
    assert_eq!(
        dec(s, "TestUint32", &[0x81, 0x00, 0xce, 0xff, 0xff, 0xff, 0xff]).unwrap(),
        data2
    );
}

#[test]
fn test_int32() {
    let s = "struct TestInt32 { int32 foo = 0; }";
    let data1 = Value::Rec(vec![(0, Value::SInt(0x7fffffff))]);
    let data2 = Value::Rec(vec![(0, Value::SInt(-0x80000000))]);

    assert_eq!(enc(s, "TestInt32", &data1), [0x81, 0x00, 0xce, 0x7f, 0xff, 0xff, 0xff]);
    assert_eq!(enc(s, "TestInt32", &data2), [0x81, 0x00, 0xd2, 0x80, 0x00, 0x00, 0x00]);

    assert_eq!(
        dec(s, "TestInt32", &[0x81, 0x00, 0xd2, 0x7f, 0xff, 0xff, 0xff]).unwrap(),
        data1
    );
    assert_eq!(
        dec(s, "TestInt32", &[0x81, 0x00, 0xd2, 0x80, 0x00, 0x00, 0x00]).unwrap(),
        data2
    );
}

#[test]
fn test_uint64() {
    let s = "struct TestUint64 { uint64 foo = 0; }";
    let data1 = Value::Rec(vec![(0, Value::UInt(0))]);
    let data2 = Value::Rec(vec![(0, Value::UInt(0xffffffffffffffff))]);

    assert_eq!(enc(s, "TestUint64", &data1), [0x81, 0x00, 0x00]);
    assert_eq!(
        enc(s, "TestUint64", &data2),
        [0x81, 0x00, 0xcf, 0xff, 0xff, 0xff, 0xff, 0xff, 0xff, 0xff, 0xff]
    );

    assert_eq!(dec(s, "TestUint64", &[0x81, 0x00, 0x00]).unwrap(), data1);
    assert_eq!(
        dec(
            s,
            "TestUint64",
            &[0x81, 0x00, 0xcf, 0xff, 0xff, 0xff, 0xff, 0xff, 0xff, 0xff, 0xff]
        )
        .unwrap(),
        data2
    );
}

#[test]
fn test_int64() {
    let s = "struct TestInt64 { int64 foo = 0; }";
    let data1 = Value::Rec(vec![(0, Value::SInt(0x7fffffffffffffff))]);
    let data2 = Value::Rec(vec![(0, Value::SInt(-0x8000000000000000))]);

    assert_eq!(
        enc(s, "TestInt64", &data1),
        [0x81, 0x00, 0xcf, 0x7f, 0xff, 0xff, 0xff, 0xff, 0xff, 0xff, 0xff]
    );
    assert_eq!(
        enc(s, "TestInt64", &data2),
        [0x81, 0x00, 0xd3, 0x80, 0x00, 0x00, 0x00, 0x00, 0x00, 0x00, 0x00]
    );

    assert_eq!(
        dec(
            s,
            "TestInt64",
            &[0x81, 0x00, 0xcf, 0x7f, 0xff, 0xff, 0xff, 0xff, 0xff, 0xff, 0xff]
        )
        .unwrap(),
        data1
    );
    assert_eq!(
        dec(
            s,
            "TestInt64",
            &[0x81, 0x00, 0xd3, 0x80, 0x00, 0x00, 0x00, 0x00, 0x00, 0x00, 0x00]
        )
        .unwrap(),
        data2
    );
}

#[test]
fn test_string() {
    let s = "struct TestString { string foo = 0; }";
    let data1 = Value::Rec(vec![(0, Value::Str(String::new()))]);
    let data2 = Value::Rec(vec![(0, Value::Str(String::from("foo")))]);

    assert_eq!(enc(s, "TestString", &data1), [0x81, 0x00, 0xa0]);
    assert_eq!(enc(s, "TestString", &data2), [0x81, 0x00, 0xa3, 0x66, 0x6f, 0x6f]);

    assert_eq!(dec(s, "TestString", &[0x81, 0x00, 0xa0]).unwrap(), data1);
    assert_eq!(
        dec(s, "TestString", &[0x81, 0x00, 0xa3, 0x66, 0x6f, 0x6f]).unwrap(),
        data2
    );

    assert!(dec(s, "TestString", &[0x81, 0x00, 0xc4, 0x03, 0x66, 0x6f, 0x6f]).is_err());
}

#[test]
fn test_bytes() {
    let s = "struct TestBytes { bytes foo = 0; }";
    let data1 = Value::Rec(vec![(0, Value::Bin(Vec::new()))]);
    let data2 = Value::Rec(vec![(0, Value::Bin(vec![0x00, 0x66, 0x6f, 0x6f]))]);

    assert_eq!(enc(s, "TestBytes", &data1), [0x81, 0x00, 0xc4, 0x00]);
    assert_eq!(
        enc(s, "TestBytes", &data2),
        [0x81, 0x00, 0xc4, 0x04, 0x00, 0x66, 0x6f, 0x6f]
    );

    assert_eq!(dec(s, "TestBytes", &[0x81, 0x00, 0xc4, 0x00]).unwrap(), data1);
    assert_eq!(
        dec(s, "TestBytes", &[0x81, 0x00, 0xc4, 0x04, 0x00, 0x66, 0x6f, 0x6f]).unwrap(),
        data2
    );
    assert!(dec(s, "TestBytes", &[0x81, 0x00, 0xa0]).is_err());
}

#[test]
fn test_bytes_length_0() {
    let s = "struct TestBytesLength0 { bytes0 foo = 0; }";
    let data = Value::Rec(vec![(0, Value::Bin(vec![]))]);

    assert_eq!(enc(s, "TestBytesLength0", &data), [0x81, 0x00, 0xc4, 0x00]);

    assert_eq!(dec(s, "TestBytesLength0", &[0x81, 0x00, 0xc4, 0x00]).unwrap(), data);
    assert!(dec(s, "TestBytesLength0", &[0x81, 0x00, 0xc4, 0x01, 0x01]).is_err());
}

#[test]
fn test_bytes_length_32() {
    let s = "struct TestBytesLength32 { bytes32 foo = 0; }";
    let data = Value::Rec(vec![(0, Value::Bin(vec![0x01; 32]))]);

    let mut encoded = vec![0x01u8; 36];
    encoded[0] = 0x81;
    encoded[1] = 0x00;
    encoded[2] = 0xc4;
    encoded[3] = 0x20;

    assert_eq!(enc(s, "TestBytesLength32", &data), encoded);

    assert_eq!(dec(s, "TestBytesLength32", &encoded).unwrap(), data);
    assert!(dec(s, "TestBytesLength32", &[0x81, 0x00, 0xc4, 0x01, 0x01]).is_err());
}

#[test]
fn test_bytes_length_65536() {
    let s = "struct TestBytesLength65536 { bytes65536 foo = 0; }";
    let data = Value::Rec(vec![(0, Value::Bin(vec![0x02; 65536]))]);

    let mut encoded = vec![0x02u8; 65543];
    encoded[0] = 0x81;
    encoded[1] = 0x00;
    encoded[2] = 0xc6;
    encoded[3] = 0x00;
    encoded[4] = 0x01;
    encoded[5] = 0x00;
    encoded[6] = 0x00;

    assert_eq!(enc(s, "TestBytesLength65536", &data), encoded);

    assert_eq!(dec(s, "TestBytesLength65536", &encoded).unwrap(), data);
    assert!(dec(s, "TestBytesLength65536", &[0x81, 0x00, 0xc4, 0x01, 0x01]).is_err());
}

#[test]
fn test_array_of_bytes_length_2() {
    let s = "struct TestArrayOfBytesLength2 { bytes2[] foo = 0; }";
    let data = Value::Rec(vec![(
        0,
        Value::Arr(vec![Value::Bin(vec![0x01, 0x02]), Value::Bin(vec![0x03, 0x04])]),
    )]);

    assert_eq!(
        enc(s, "TestArrayOfBytesLength2", &data),
        [0x81, 0x00, 0x92, 0xc4, 0x02, 0x01, 0x02, 0xc4, 0x02, 0x03, 0x04]
    );

    assert_eq!(
        dec(
            s,
            "TestArrayOfBytesLength2",
            &[0x81, 0x00, 0x92, 0xc4, 0x02, 0x01, 0x02, 0xc4, 0x02, 0x03, 0x04]
        )
        .unwrap(),
        data
    );
}

#[test]
fn test_array_of_string() {
    let s = "struct TestArrayOfString { string[] foo = 0; }";
    let data = Value::Rec(vec![(
        0,
        Value::Arr(vec![Value::Str(String::new()), Value::Str(String::from("A"))]),
    )]);

    assert_eq!(enc(s, "TestArrayOfString", &data), [0x81, 0x00, 0x92, 0xa0, 0xa1, 0x41]);
    assert_eq!(
        dec(s, "TestArrayOfString", &[0x81, 0x00, 0x92, 0xa0, 0xa1, 0x41]).unwrap(),
        data
    );
}

#[test]
fn test_array_of_array_of_string() {
    let s = "struct TestArrayOfArrayOfString { string[][] foo = 0; }";
    let data = Value::Rec(vec![(
        0,
        Value::Arr(vec![Value::Arr(vec![
            Value::Str(String::new()),
            Value::Str(String::from("A")),
        ])]),
    )]);

    assert_eq!(
        enc(s, "TestArrayOfArrayOfString", &data),
        [0x81, 0x00, 0x91, 0x92, 0xa0, 0xa1, 0x41]
    );
    assert_eq!(
        dec(
            s,
            "TestArrayOfArrayOfString",
            &[0x81, 0x00, 0x91, 0x92, 0xa0, 0xa1, 0x41]
        )
        .unwrap(),
        data
    );
}

#[test]
fn test_optional() {
    let s = "struct TestOptional { optional string foo = 0; }";
    let data1 = Value::Rec(vec![]);
    let data2 = Value::Rec(vec![(0, Value::Str(String::new()))]);

    assert_eq!(enc(s, "TestOptional", &data1), [0x80]);
    assert_eq!(enc(s, "TestOptional", &data2), [0x81, 0x00, 0xa0]);

    assert_eq!(dec(s, "TestOptional", &[0x80]).unwrap(), data1);
    assert_eq!(dec(s, "TestOptional", &[0x81, 0x00, 0xa0]).unwrap(), data2);

    assert!(dec(s, "TestOptional", &[0x81, 0x00, 0xc0]).is_err());
}

#[test]
fn test_nullable() {
    let s = "struct TestNullable { nullable string foo = 0; }";
    let data1 = Value::Rec(vec![(0, Value::Nil)]);
    let data2 = Value::Rec(vec![(0, Value::Str(String::new()))]);

    assert_eq!(enc(s, "TestNullable", &data1), [0x81, 0x00, 0xc0]);
    assert_eq!(enc(s, "TestNullable", &data2), [0x81, 0x00, 0xa0]);

    assert_eq!(dec(s, "TestNullable", &[0x81, 0x00, 0xc0]).unwrap(), data1);
    assert_eq!(dec(s, "TestNullable", &[0x81, 0x00, 0xa0]).unwrap(), data2);

    assert!(dec(s, "TestNullable", &[0x80]).is_err());
}

#[test]
fn test_optional_nullable() {
    let s = "struct TestOptionalNullable { optional nullable string foo = 0; }";
    let data1 = Value::Rec(vec![]);
    let data2 = Value::Rec(vec![(0, Value::Nil)]);
    let data3 = Value::Rec(vec![(0, Value::Str(String::new()))]);

    assert_eq!(enc(s, "TestOptionalNullable", &data1), [0x80]);
    assert_eq!(enc(s, "TestOptionalNullable", &data2), [0x81, 0x00, 0xc0]);
    assert_eq!(enc(s, "TestOptionalNullable", &data3), [0x81, 0x00, 0xa0]);

    assert_eq!(dec(s, "TestOptionalNullable", &[0x80]).unwrap(), data1);
    assert_eq!(dec(s, "TestOptionalNullable", &[0x81, 0x00, 0xc0]).unwrap(), data2);
    assert_eq!(dec(s, "TestOptionalNullable", &[0x81, 0x00, 0xa0]).unwrap(), data3);
}

#[test]
fn test_multiple_fields() {
    let s = "struct TestMultipleFields { string foo = 0; string bar = 2; }";
    let data = Value::Rec(vec![
        (0, Value::Str(String::from("a"))),
        (2, Value::Str(String::from("b"))),
    ]);

    assert_eq!(
        enc(s, "TestMultipleFields", &data),
        [0x82, 0x00, 0xa1, 0x61, 0x02, 0xa1, 0x62]
    );
    assert_eq!(
        dec(s, "TestMultipleFields", &[0x82, 0x00, 0xa1, 0x61, 0x02, 0xa1, 0x62]).unwrap(),
        data
    );
}

#[test]
fn test_nested_map() {
    let s = "struct TestString { string foo = 0; } struct TestNestedMap { TestString foo = 0; }";
    let data = Value::Rec(vec![(0, Value::Rec(vec![(0, Value::Str(String::new()))]))]);

    assert_eq!(enc(s, "TestNestedMap", &data), [0x81, 0x00, 0x81, 0x00, 0xa0]);
    assert_eq!(
        dec(s, "TestNestedMap", &[0x81, 0x00, 0x81, 0x00, 0xa0]).unwrap(),
        data
    );
}

#[test]
fn test_array_of_maps() {
    let s = "struct TestString { string foo = 0; } struct TestArrayOfMaps { TestString[] foo = 0; }";
    let data = Value::Rec(vec![(
        0,
        Value::Arr(vec![Value::Rec(vec![(0, Value::Str(String::new()))])]),
    )]);

    assert_eq!(enc(s, "TestArrayOfMaps", &data), [0x81, 0x00, 0x91, 0x81, 0x00, 0xa0]);
    assert_eq!(
        dec(s, "TestArrayOfMaps", &[0x81, 0x00, 0x91, 0x81, 0x00, 0xa0]).unwrap(),
        data
    );
}

#[test]
fn test_nested_array() {
    let s = "struct TestNestedArray { uint8[][][] foo = 0; }";
    let data = Value::Rec(vec![(
        0,
        Value::Arr(vec![
            Value::Arr(vec![
                Value::Arr(vec![Value::UInt(1), Value::UInt(2)]),
                Value::Arr(vec![Value::UInt(3)]),
            ]),
            Value::Arr(vec![]),
            Value::Arr(vec![Value::Arr(vec![])]),
        ]),
    )]);

    assert_eq!(
        enc(s, "TestNestedArray", &data),
        [0x81, 0x00, 0x93, 0x92, 0x92, 0x01, 0x02, 0x91, 0x03, 0x90, 0x91, 0x90]
    );
    assert_eq!(
        dec(
            s,
            "TestNestedArray",
            &[0x81, 0x00, 0x93, 0x92, 0x92, 0x01, 0x02, 0x91, 0x03, 0x90, 0x91, 0x90]
        )
        .unwrap(),
        data
    );
}

#[test]
fn test_enum() {
    let s = "enum TestEnum { Foo = 0; Bar = 1; }";

    assert_eq!(enc(s, "TestEnum", &Value::UInt(0)), [0x00]);
    assert_eq!(enc(s, "TestEnum", &Value::UInt(1)), [0x01]);
    assert_eq!(dec(s, "TestEnum", &[0x00]).unwrap(), Value::UInt(0));
    assert_eq!(dec(s, "TestEnum", &[0x01]).unwrap(), Value::UInt(1));
}

#[test]
fn test_empty_struct() {
    let s = "struct TestEmptyStruct { }";
    let data = Value::Rec(vec![]);

    assert_eq!(enc(s, "TestEmptyStruct", &data), [0x80]);
    assert_eq!(dec(s, "TestEmptyStruct", &[0x80]).unwrap(), data);
}

#[test]
fn test_tagged_enum() {
    let s = "struct TestBool { bool foo = 0; } struct TestUint8 { uint8 foo = 0; } \
             enum TestTaggedEnum { TestBool A = 0; TestUint8 B = 1; }";
    let data1 = Value::Variant(0, std::rc::Rc::new(Value::Rec(vec![(0, Value::Bool(true))])));
    let data2 = Value::Variant(1, std::rc::Rc::new(Value::Rec(vec![(0, Value::UInt(127))])));

    assert_eq!(enc(s, "TestTaggedEnum", &data1), [0x92, 0x00, 0x81, 0x00, 0xc3]);
    assert_eq!(enc(s, "TestTaggedEnum", &data2), [0x92, 0x01, 0x81, 0x00, 0x7f]);

    assert_eq!(
        dec(s, "TestTaggedEnum", &[0x92, 0x00, 0x81, 0x00, 0xc3]).unwrap(),
        data1
    );
    assert_eq!(
        dec(s, "TestTaggedEnum", &[0x92, 0x01, 0x81, 0x00, 0x7f]).unwrap(),
        data2
    );

    assert!(dec(s, "TestTaggedEnum", &[0x92, 0x02, 0x80]).is_err());
    assert!(dec(s, "TestTaggedEnum", &[0x91, 0x00]).is_err());
    assert!(dec(s, "TestTaggedEnum", &[0x93, 0x00, 0x81, 0x00, 0xc3, 0x00]).is_err());
    assert!(dec(s, "TestTaggedEnum", &[0x92, 0x01, 0x81, 0x00, 0xc3]).is_err());
}

#[test]
fn test_permuted_keys() {
    let s = "struct S { string foo = 0; string bar = 2; }";
    let data = Value::Rec(vec![
        (0, Value::Str(String::from("a"))),
        (2, Value::Str(String::from("b"))),
    ]);

    assert_eq!(
        dec(s, "S", &[0x82, 0x02, 0xa1, 0x62, 0x00, 0xa1, 0x61]).unwrap(),
        data
    );
}

#[test]
fn test_unknown_field_tolerance() {
    let s = "struct S { bool foo = 0; }";
    let data = Value::Rec(vec![(0, Value::Bool(true))]);

    assert_eq!(dec(s, "S", &[0x82, 0x00, 0xc3, 0x05, 0xc2]).unwrap(), data);
    assert_eq!(
        dec(s, "S", &[0x82, 0x05, 0x92, 0xa1, 0x78, 0x01, 0x00, 0xc3]).unwrap(),
        data
    );
}

#[test]
fn test_required_field_strictness() {
    let s = "struct S { bool foo = 0; }";

    assert!(matches!(
        dec(s, "S", &[0x80]),
        Err(typedpack::DecodeError::MissingField { .. })
    ));
}

#[test]
fn test_encoder_rejects_nonconforming() {
    let types = parse("struct S { uint8 foo = 0; }").unwrap();
    let t = schema_type("S");

    assert!(encode_value(&types, &t, &Value::Rec(vec![(0, Value::UInt(256))])).is_none());
    assert!(encode_value(&types, &t, &Value::Rec(vec![])).is_none());
    assert!(encode_value(&types, &t, &Value::Rec(vec![(0, Value::Nil)])).is_none());
    assert!(encode_value(&types, &t, &Value::Bool(true)).is_none());
}

#[test]
fn test_trailing_bytes_rejected() {
    let s = "struct S { bool foo = 0; }";

    assert!(matches!(
        dec(s, "S", &[0x81, 0x00, 0xc3, 0x00]),
        Err(typedpack::DecodeError::TrailingBytes)
    ));
}

#[test]
fn test_int_range_errors() {
    let s = "struct S { int8 foo = 0; }";

    assert!(matches!(
        dec(s, "S", &[0x81, 0x00, 0xcc, 0x80]),
        Err(typedpack::DecodeError::IntOutOfRange)
    ));
    assert!(matches!(
        dec(s, "S", &[0x81, 0x00, 0xa0]),
        Err(typedpack::DecodeError::TypeMismatch)
    ));
}

#[test]
fn test_float_bit_patterns() {
    let s = "struct S { float32 foo = 0; float64 bar = 1; }";
    let data = Value::Rec(vec![
        (0, Value::F32Bits(0x3f800000)),
        (1, Value::F64Bits(0x3ff0000000000000)),
    ]);

    assert_eq!(
        enc(s, "S", &data),
        [
            0x82, 0x00, 0xca, 0x3f, 0x80, 0x00, 0x00, 0x01, 0xcb, 0x3f, 0xf0, 0x00, 0x00,
            0x00, 0x00, 0x00, 0x00
        ]
    );
    assert_eq!(
        dec(
            s,
            "S",
            &[
                0x82, 0x00, 0xca, 0x3f, 0x80, 0x00, 0x00, 0x01, 0xcb, 0x3f, 0xf0, 0x00, 0x00,
                0x00, 0x00, 0x00, 0x00
            ]
        )
        .unwrap(),
        data
    );
}

#[test]
fn test_invalid_utf8_rejected() {
    let s = "struct S { string foo = 0; }";

    assert!(matches!(
        dec(s, "S", &[0x81, 0x00, 0xa1, 0xff]),
        Err(typedpack::DecodeError::InvalidUtf8)
    ));
}

#[test]
fn test_unresolved_reference_rejected() {
    let types = parse("struct S { External foo = 0; }").unwrap();
    let t = schema_type("S");
    let data = Value::Rec(vec![(0, Value::Bool(true))]);

    assert!(encode_value(&types, &t, &data).is_none());
    assert!(matches!(
        decode_value(&types, &t, &vec![0x81, 0x00, 0xc3]),
        Err(typedpack::DecodeError::UnknownType { .. })
    ));
}

#[test]
fn test_truncated_and_wrong_length_kinds() {
    let s = "struct S { string foo = 0; }";
    assert!(matches!(
        dec(s, "S", &[0x81, 0x00, 0xa5, 0x61]),
        Err(typedpack::DecodeError::Truncated)
    ));

    let s2 = "struct S { bytes4 foo = 0; }";
    assert!(matches!(
        dec(s2, "S", &[0x81, 0x00, 0xc4, 0x02, 0x01, 0x02]),
        Err(typedpack::DecodeError::WrongLength)
    ));
}
