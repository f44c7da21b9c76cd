//! Compiler frontend and wire-format codec for the typedpack schema language.
//!
//! A schema file declares `struct` and `enum` types.  [`parse`] turns the text
//! of such a file into a list of [`Type`] values (the IR), enforcing the
//! lexical and semantic rules of the language.  The `rust` module renders the
//! IR as Rust source.  The `value` and `wire` modules give the normative
//! MessagePack wire contract for the schemas: a model of runtime values, a
//! conformance judgment, an encoder that produces the tightest MessagePack
//! form, and a decoder that accepts any valid form.

pub mod ir;
pub mod parse;
pub mod rust;
pub mod value;
pub mod wire;

pub use ir::{Enum, Struct, StructField, StructFieldType, TaggedEnumVariant, Type,
    UntaggedEnumVariant};
pub use parse::{parse, ParseError, Position};
pub use value::Value;
pub use wire::{decode_value, encode_value, DecodeError};
