//! Strict encoding of structs, tuples, unions and enums to byte writers.
//!
//! A value is written through a `StrictWriter`, which counts the bytes that pass and turns down
//! what would exceed its limit. A `StructWriter` writes fields, each as its ordinal and the
//! encoding of its value; a `UnionWriter` writes one of the variants that were defined for it.
pub mod encode;
pub mod error;
pub mod field;
pub mod ident;
pub mod laws;
pub mod outcomes;
pub mod sink;
pub mod structure;
pub mod typed;
pub mod variant;
pub mod writer;

pub use encode::{StrictEncode, StrictParent, TypedParent};
pub use error::WriteError;
pub use field::{Field, FieldSet};
pub use ident::{FieldName, Ident, ToIdent, ToMaybeIdent};
pub use sink::{ByteWrite, Lent, WriterModel};
pub use structure::{DefineStruct, DefineTuple, FieldWriter, StructWriter, WriteStruct, WriteTuple};
pub use variant::{
    DefineEnum, DefineUnion, FieldType, UnionWriter, VariantWriter, WriteEnum, WriteUnion,
};
pub use writer::{CountingWriter, StrictWriter};
