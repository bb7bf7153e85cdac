//! What is wrong with a value, as a schema has it.
use crate::schema::error::{ErrorView, KindView};
use crate::schema::fields;
use crate::schema::fields::Field;
use crate::schema::number;
use crate::schema::types::{Schema, SchemaFile};
use crate::schema::value::{Entry, Scalar, Value};
use crate::span::Span;
use vstd::prelude::*;
use vstd::string::*;

verus! {

// --- names ---

/// What kind of value this is.
pub open spec fn value_type_name(value: Value) -> Seq<char> {
    match value {
        Value::Scalar(_) => "scalar"@,
        Value::Unit => "unit"@,
        Value::Tagged(_) => "tagged"@,
        Value::Sequence(_) => "sequence"@,
        Value::Object(_) => "object"@,
    }
}

/// What kind of schema this is.
pub open spec fn schema_type_name(schema: Schema) -> Seq<char> {
    match schema {
        Schema::Literal(s) => "literal("@ + s@ + ")"@,
        Schema::Type { name: None } => "unit"@,
        Schema::Type { name: Some(n) } => n@,
        Schema::Object(_) => "object"@,
        Schema::Sequence(_) => "seq"@,
        Schema::Union(_) => "union"@,
        Schema::Optional(_) => "optional"@,
        Schema::Enum(_) => "enum"@,
        Schema::Mapping(_) => "map"@,
        Schema::Flatten(_) => "flatten"@,
    }
}

/// The names of schemas.
pub open spec fn schema_type_names(schemas: Seq<Schema>) -> Seq<Seq<char>> {
    schemas.map_values(|s: Schema| schema_type_name(s))
}

/// Names in a row, with a comma and a space between them.
pub open spec fn listed(names: Seq<Seq<char>>) -> Seq<char>
    decreases names.len(),
{
    if names.len() == 0 {
        Seq::empty()
    } else if names.len() == 1 {
        names[0]
    } else {
        listed(names.drop_last()) + ", "@ + names.last()
    }
}

/// The path of the field `key` of the object at `path`.
pub open spec fn field_path(path: Seq<char>, key: Seq<char>) -> Seq<char> {
    if path.len() == 0 {
        key
    } else {
        path + "."@ + key
    }
}

/// The path of the element number `i` of the sequence at `path`.
pub open spec fn item_path(path: Seq<char>, i: nat) -> Seq<char> {
    path + "["@ + number::decimal(i) + "]"@
}

// --- errors ---

/// An error without a place in the source.
pub open spec fn error(path: Seq<char>, kind: KindView, message: Seq<char>) -> ErrorView {
    ErrorView { path, span: None, kind, message }
}

/// An error at a scalar whose value its type does not have.
pub open spec fn bad_scalar(
    path: Seq<char>,
    span: Option<Span>,
    reason: Seq<char>,
    message: Seq<char>,
) -> ErrorView {
    ErrorView { path, span, kind: KindView::InvalidValue { reason }, message }
}

/// The schema at `path` is wrong.
pub open spec fn bad_schema(path: Seq<char>, reason: Seq<char>, message: Seq<char>) -> ErrorView {
    error(path, KindView::SchemaError { reason }, message)
}

/// The schema defines no type of this name.
pub open spec fn unknown_type(path: Seq<char>, name: Seq<char>) -> ErrorView {
    error(path, KindView::UnknownType { name }, "unknown type '"@ + name + "'"@)
}

/// The schema at `path` flattens no type.
pub open spec fn bad_flatten(path: Seq<char>) -> ErrorView {
    bad_schema(path, "flatten schema must reference a type"@, "invalid flatten schema"@)
}

// --- types that need no other type ---

/// What is wrong with a value that must be the scalar `expected`.
pub open spec fn literal_errors(value: Value, expected: Seq<char>, path: Seq<char>) -> Seq<
    ErrorView,
> {
    match value {
        Value::Scalar(s) => if s.text@ == expected {
            Seq::empty()
        } else {
            seq![
                bad_scalar(
                    path,
                    s.span,
                    "expected literal '"@ + expected + "', got '"@ + s.text@ + "'"@,
                    "expected '"@ + expected + "', got '"@ + s.text@ + "'"@,
                ),
            ]
        },
        _ => seq![
            error(
                path,
                KindView::ExpectedScalar,
                "expected literal '"@ + expected + "', got non-scalar"@,
            ),
        ],
    }
}

/// What is wrong with a value that must be unit.
pub open spec fn unit_errors(value: Value, path: Seq<char>) -> Seq<ErrorView> {
    if value is Unit {
        Seq::empty()
    } else {
        seq![
            error(
                path,
                KindView::TypeMismatch { expected: "unit"@, got: value_type_name(value) },
                "expected unit value"@,
            ),
        ]
    }
}

/// A type that every schema has.
pub enum Builtin {
    /// `@string`
    Text,
    /// `@int` or `@integer`
    Integer,
    /// `@float` or `@number`
    Float,
    /// `@bool` or `@boolean`
    Boolean,
    /// `@unit`
    Unit,
    /// `@any`
    Any,
}

/// The type that every schema has by this name.
pub open spec fn builtin(name: Seq<char>) -> Option<Builtin> {
    if name == "string"@ {
        Some(Builtin::Text)
    } else if name == "int"@ || name == "integer"@ {
        Some(Builtin::Integer)
    } else if name == "float"@ || name == "number"@ {
        Some(Builtin::Float)
    } else if name == "bool"@ || name == "boolean"@ {
        Some(Builtin::Boolean)
    } else if name == "unit"@ {
        Some(Builtin::Unit)
    } else if name == "any"@ {
        Some(Builtin::Any)
    } else {
        None
    }
}

/// Whether a scalar of this text is of the type `b`.
pub open spec fn scalar_is(b: Builtin, text: Seq<char>) -> bool {
    match b {
        Builtin::Integer => number::is_integer(text),
        Builtin::Float => number::is_float(text),
        Builtin::Boolean => text == "true"@ || text == "false"@,
        Builtin::Unit => false,
        _ => true,
    }
}

/// What a value of the type `b` is called.
pub open spec fn builtin_name(b: Builtin) -> Seq<char> {
    match b {
        Builtin::Text => "string"@,
        Builtin::Integer => "integer"@,
        Builtin::Float => "number"@,
        Builtin::Boolean => "boolean"@,
        Builtin::Unit => "unit"@,
        Builtin::Any => "any"@,
    }
}

/// What is wrong with a value of a type that every schema has.
pub open spec fn builtin_errors(b: Builtin, value: Value, path: Seq<char>) -> Seq<ErrorView> {
    match b {
        Builtin::Any => Seq::empty(),
        Builtin::Unit => unit_errors(value, path),
        _ => match value {
            Value::Scalar(s) => if scalar_is(b, s.text@) {
                Seq::empty()
            } else {
                let hint = if b is Boolean {
                    " (expected true/false)"@
                } else {
                    Seq::empty()
                };
                seq![
                    bad_scalar(
                        path,
                        s.span,
                        "not a valid "@ + builtin_name(b),
                        "'"@ + s.text@ + "' is not a valid "@ + builtin_name(b) + hint,
                    ),
                ]
            },
            _ => seq![
                error(
                    path,
                    KindView::ExpectedScalar,
                    "expected "@ + builtin_name(b) + ", got "@ + value_type_name(value),
                ),
            ],
        },
    }
}

// --- objects ---

/// The name of the field that an entry is, if its key is a scalar or unit.
pub open spec fn field_key(entry: Entry) -> Option<Seq<char>> {
    match entry.key {
        Value::Scalar(s) => Some(s.text@),
        Value::Unit => Some("@"@),
        _ => None,
    }
}

/// Some entry is the field `name`.
pub open spec fn has_field(entries: Seq<Entry>, name: Seq<char>) -> bool {
    exists|i: int| 0 <= i < entries.len() && field_key(#[trigger] entries[i]) == Some(name)
}

/// The schema of the field `name` of an object type whose fields are `all`: the
/// one that it has by this name, or that of all other fields. The name under
/// which a type is flattened is none of them.
pub open spec fn field_schema(all: Seq<Field>, name: Seq<char>) -> Option<Schema> {
    match fields::find(all, name, 0) {
        Some(schema) => Some(schema),
        None => fields::find(all, "@"@, 0),
    }
}

/// The errors for the fields from number `j` on that must be there and are not.
pub open spec fn missing_fields(
    entries: Seq<Entry>,
    all: Seq<Field>,
    path: Seq<char>,
    j: nat,
) -> Seq<ErrorView>
    decreases all.len() - j,
{
    if j >= all.len() {
        Seq::empty()
    } else {
        let (name, schema) = all[j as int];
        let rest = missing_fields(entries, all, path, j + 1);
        if name == "@"@ || has_field(entries, name) || schema is Optional {
            rest
        } else {
            seq![
                error(
                    field_path(path, name),
                    KindView::MissingField { field: name },
                    "missing required field '"@ + name + "'"@,
                ),
            ] + rest
        }
    }
}

/// The errors for the types that an object type should flatten and that are not
/// there.
pub open spec fn broken_errors(broken: Seq<Option<Seq<char>>>, path: Seq<char>) -> Seq<ErrorView> {
    broken.map_values(
        |name: Option<Seq<char>>|
            match name {
                Some(n) => unknown_type(path, n),
                None => bad_flatten(path),
            },
    )
}

// --- all schemas ---

/// One list of errors after another, where both are known.
pub open spec fn both(a: Option<Seq<ErrorView>>, b: Option<Seq<ErrorView>>) -> Option<
    Seq<ErrorView>,
> {
    match (a, b) {
        (Some(x), Some(y)) => Some(x + y),
        _ => None,
    }
}

/// What is wrong with `value`, as `schema` has it, where that can be told by
/// following at most `depth` schemas into one another.
pub open spec fn errors_within(
    depth: nat,
    file: SchemaFile,
    value: Value,
    schema: Schema,
    path: Seq<char>,
) -> Option<Seq<ErrorView>>
    decreases depth, 0nat,
{
    if depth == 0 {
        None
    } else {
        let d = (depth - 1) as nat;
        match schema {
            Schema::Literal(expected) => Some(literal_errors(value, expected@, path)),
            Schema::Type { name: None } => Some(unit_errors(value, path)),
            Schema::Type { name: Some(name) } => match builtin(name@) {
                Some(b) => Some(builtin_errors(b, value, path)),
                None => match file.schema.find(name@) {
                    Some(named) => errors_within(d, file, value, named, path),
                    None => Some(seq![unknown_type(path, name@)]),
                },
            },
            Schema::Object(fields) => match value {
                Value::Object(o) => match fields::inlined(d, file, fields.0) {
                    Some(all) => both(
                        field_errors(d, file, o.entries@, all.fields, path, 0),
                        Some(
                            missing_fields(o.entries@, all.fields, path, 0) + broken_errors(
                                all.broken,
                                path,
                            ),
                        ),
                    ),
                    None => None,
                },
                _ => Some(
                    seq![
                        error(
                            path,
                            KindView::ExpectedObject,
                            "expected object, got "@ + value_type_name(value),
                        ),
                    ],
                ),
            },
            Schema::Sequence(inner) => match value {
                Value::Sequence(s) => if inner.0@.len() == 0 {
                    Some(
                        seq![
                            bad_schema(
                                path,
                                "seq schema must have element type"@,
                                "invalid seq schema: missing element type"@,
                            ),
                        ],
                    )
                } else {
                    item_errors(d, file, s.items@, inner.0@[0], path, 0)
                },
                _ => Some(
                    seq![
                        error(
                            path,
                            KindView::ExpectedSequence,
                            "expected sequence, got "@ + value_type_name(value),
                        ),
                    ],
                ),
            },
            Schema::Union(variants) => if variants.0@.len() == 0 {
                Some(
                    seq![
                        bad_schema(
                            path,
                            "union must have at least one variant"@,
                            "invalid union schema: no variants"@,
                        ),
                    ],
                )
            } else {
                match some_variant(d, file, value, variants.0@, path, 0) {
                    Some(true) => Some(Seq::empty()),
                    Some(false) => Some(
                        seq![
                            error(
                                path,
                                KindView::UnionMismatch { tried: schema_type_names(variants.0@) },
                                "value doesn't match any union variant (tried: "@ + listed(
                                    schema_type_names(variants.0@),
                                ) + ")"@,
                            ),
                        ],
                    ),
                    None => None,
                }
            },
            Schema::Optional(inner) => if inner.0@.len() == 0 {
                Some(Seq::empty())
            } else {
                errors_within(d, file, value, inner.0@[0], path)
            },
            Schema::Enum(variants) => match value {
                Value::Tagged(t) => match variants.0.find(t.tag@) {
                    Some(variant) => match t.payload {
                        Some(payload) => errors_within(
                            d,
                            file,
                            *payload,
                            variant,
                            field_path(path, t.tag@),
                        ),
                        None => Some(
                            if takes_no_payload(variant) {
                                Seq::empty()
                            } else {
                                seq![
                                    error(
                                        path,
                                        KindView::TypeMismatch {
                                            expected: schema_type_name(variant),
                                            got: "unit"@,
                                        },
                                        "variant '"@ + t.tag@ + "' requires a payload"@,
                                    ),
                                ]
                            },
                        ),
                    },
                    None => Some(
                        seq![
                            error(
                                path,
                                KindView::InvalidVariant {
                                    expected: variants.0.names(),
                                    got: t.tag@,
                                },
                                "unknown enum variant '"@ + t.tag@ + "' (expected one of: "@
                                    + listed(variants.0.names()) + ")"@,
                            ),
                        ],
                    ),
                },
                Value::Unit => Some(
                    seq![
                        error(path, KindView::ExpectedTagged, "expected tagged value for enum"@),
                    ],
                ),
                _ => Some(
                    seq![
                        error(
                            path,
                            KindView::ExpectedTagged,
                            "expected tagged value for enum, got "@ + value_type_name(value),
                        ),
                    ],
                ),
            },
            Schema::Mapping(types) => match value {
                Value::Object(o) => if types.0@.len() == 1 {
                    entry_errors(d, file, o.entries@, None, types.0@[0], path, 0)
                } else if types.0@.len() == 2 {
                    entry_errors(d, file, o.entries@, Some(types.0@[0]), types.0@[1], path, 0)
                } else {
                    Some(
                        seq![
                            bad_schema(
                                path,
                                "map schema must have 1 or 2 type arguments"@,
                                "invalid map schema"@,
                            ),
                        ],
                    )
                },
                _ => Some(
                    seq![
                        error(
                            path,
                            KindView::ExpectedObject,
                            "expected map (object), got "@ + value_type_name(value),
                        ),
                    ],
                ),
            },
            Schema::Flatten(inner) => if inner.0@.len() == 0 {
                Some(seq![bad_flatten(path)])
            } else {
                errors_within(d, file, value, inner.0@[0], path)
            },
        }
    }
}

/// The variant of an enum with this schema stands without a payload.
pub open spec fn takes_no_payload(variant: Schema) -> bool {
    match variant {
        Schema::Type { name: Some(n) } => n@ == "unit"@,
        Schema::Type { name: None } => true,
        _ => false,
    }
}

/// What is wrong with the entries of an object from number `i` on.
pub open spec fn field_errors(
    depth: nat,
    file: SchemaFile,
    entries: Seq<Entry>,
    all: Seq<Field>,
    path: Seq<char>,
    i: nat,
) -> Option<Seq<ErrorView>>
    decreases depth, entries.len() - i + 1,
{
    if i >= entries.len() {
        Some(Seq::empty())
    } else {
        let entry = entries[i as int];
        let here = match field_key(entry) {
            Some(name) => match field_schema(all, name) {
                Some(schema) => errors_within(
                    depth,
                    file,
                    entry.value,
                    schema,
                    field_path(path, name),
                ),
                None => Some(
                    seq![
                        error(
                            field_path(path, name),
                            KindView::UnknownField { field: name },
                            "unknown field '"@ + name + "'"@,
                        ),
                    ],
                ),
            },
            None => Some(
                seq![
                    error(
                        path,
                        KindView::InvalidValue { reason: "object keys must be scalars or unit"@ },
                        "invalid object key"@,
                    ),
                ],
            ),
        };
        both(here, field_errors(depth, file, entries, all, path, i + 1))
    }
}

/// What is wrong with the elements of a sequence from number `i` on.
pub open spec fn item_errors(
    depth: nat,
    file: SchemaFile,
    items: Seq<Value>,
    schema: Schema,
    path: Seq<char>,
    i: nat,
) -> Option<Seq<ErrorView>>
    decreases depth, items.len() - i + 1,
{
    if i >= items.len() {
        Some(Seq::empty())
    } else {
        both(
            errors_within(depth, file, items[i as int], schema, item_path(path, i)),
            item_errors(depth, file, items, schema, path, i + 1),
        )
    }
}

/// Whether nothing is wrong with `value` as one of the schemas from number `i`
/// on has it. Schemas after that one do not matter.
pub open spec fn some_variant(
    depth: nat,
    file: SchemaFile,
    value: Value,
    variants: Seq<Schema>,
    path: Seq<char>,
    i: nat,
) -> Option<bool>
    decreases depth, variants.len() - i + 1,
{
    if i >= variants.len() {
        Some(false)
    } else {
        match errors_within(depth, file, value, variants[i as int], path) {
            Some(errors) => if errors.len() == 0 {
                Some(true)
            } else {
                some_variant(depth, file, value, variants, path, i + 1)
            },
            None => None,
        }
    }
}

/// The name under which the value of an entry of a map is found, if its key is a
/// scalar or, where the keys have a type, unit.
pub open spec fn map_key(entry: Entry, typed: bool) -> Option<Seq<char>> {
    match entry.key {
        Value::Scalar(s) => Some(s.text@),
        Value::Unit => if typed {
            Some("@"@)
        } else {
            None
        },
        _ => None,
    }
}

/// What is wrong with the entries of a map from number `i` on.
pub open spec fn entry_errors(
    depth: nat,
    file: SchemaFile,
    entries: Seq<Entry>,
    key_schema: Option<Schema>,
    value_schema: Schema,
    path: Seq<char>,
    i: nat,
) -> Option<Seq<ErrorView>>
    decreases depth, entries.len() - i + 1,
{
    if i >= entries.len() {
        Some(Seq::empty())
    } else {
        let entry = entries[i as int];
        let here = match map_key(entry, key_schema is Some) {
            Some(name) => {
                let in_key = match key_schema {
                    Some(schema) => errors_within(depth, file, entry.key, schema, path),
                    None => Some(Seq::empty()),
                };
                let in_value = errors_within(
                    depth,
                    file,
                    entry.value,
                    value_schema,
                    field_path(path, name),
                );
                both(in_key, in_value)
            },
            None => Some(
                seq![
                    error(
                        path,
                        KindView::InvalidValue { reason: "map keys must be scalars"@ },
                        "invalid map key"@,
                    ),
                ],
            ),
        };
        both(
            here,
            entry_errors(depth, file, entries, key_schema, value_schema, path, i + 1),
        )
    }
}

} // verus!
