//! The types of which schemas are made.
use crate::schema::names::NameMap;
use vstd::prelude::*;

verus! {

/// A complete schema file.
#[derive(Debug)]
pub struct SchemaFile {
    /// What the schema is.
    pub meta: Meta,
    /// Where the schemas behind namespace prefixes are found.
    pub imports: Option<NameMap<String>>,
    /// The types by name. `@` names the type of the document.
    pub schema: NameMap<Schema>,
}

/// What a schema is.
#[derive(Debug, Clone)]
pub struct Meta {
    /// The identifier of the schema, best a URL.
    pub id: String,
    /// The version: a date or a semantic version.
    pub version: String,
    /// What the schema is for.
    pub description: Option<String>,
}

/// A constraint on a value.
#[derive(Debug)]
pub enum Schema {
    /// Exactly this scalar.
    Literal(String),
    /// A type by name, or the unit type `@` without one.
    Type {
        /// The name of the type.
        name: Option<String>,
    },
    /// An object with these fields.
    Object(ObjectSchema),
    /// A sequence: `@seq(@T)`.
    Sequence(SeqSchema),
    /// One of several types: `@union(@A @B)`.
    Union(UnionSchema),
    /// A field that may be absent: `@optional(@T)`.
    Optional(OptionalSchema),
    /// A tag out of several: `@enum{a, b {x @T}}`.
    Enum(EnumSchema),
    /// An object with arbitrary keys: `@map(@V)` or `@map(@K @V)`.
    Mapping(MapSchema),
    /// The fields of another type, in the place of this one: `@flatten(@T)`.
    Flatten(FlattenSchema),
}

/// The fields of an object. `@` stands for all other fields.
#[derive(Debug)]
pub struct ObjectSchema(pub NameMap<Schema>);

/// The type of the elements of a sequence.
#[derive(Debug)]
pub struct SeqSchema(pub Vec<Schema>);

/// The types of a union.
#[derive(Debug)]
pub struct UnionSchema(pub Vec<Schema>);

/// The type of a field that may be absent.
#[derive(Debug)]
pub struct OptionalSchema(pub Vec<Schema>);

/// The variants of an enum with the types of their payloads.
#[derive(Debug)]
pub struct EnumSchema(pub NameMap<Schema>);

/// The type of the values of a map, after the type of its keys if it has one.
#[derive(Debug)]
pub struct MapSchema(pub Vec<Schema>);

/// The type whose fields are flattened.
#[derive(Debug)]
pub struct FlattenSchema(pub Vec<Schema>);

/// An enum as it is written: `@enum{...}`.
#[derive(Debug)]
pub struct EnumTagSchema {
    /// The variants.
    pub enum_variants: EnumSchema,
}

/// A variant of an enum.
#[derive(Debug)]
pub enum EnumVariant {
    /// A variant with fields.
    Struct(ObjectSchema),
    /// A variant without a payload.
    Unit,
}

} // verus!
