//! How far schemas have to be followed into one another, and what validation
//! then finds.
use crate::schema::check;
use crate::schema::error::ErrorView;
use crate::schema::fields;
use crate::schema::fields::Field;
use crate::schema::types::{Schema, SchemaFile};
use crate::schema::value::{Entry, Value};
use vstd::prelude::*;

verus! {

/// What is wrong with a value can be told: following the schemas into one
/// another comes to an end.
pub open spec fn settled(file: SchemaFile, value: Value, schema: Schema, path: Seq<char>) -> bool {
    exists|depth: nat| #[trigger]
        check::errors_within(depth, file, value, schema, path) is Some
}

/// What is wrong with `value`, as `schema` has it.
pub open spec fn errors(
    file: SchemaFile,
    value: Value,
    schema: Schema,
    path: Seq<char>,
) -> Seq<ErrorView> {
    let depth = choose|depth: nat| #[trigger]
        check::errors_within(depth, file, value, schema, path) is Some;
    check::errors_within(depth, file, value, schema, path)->0
}

/// What can be told within `d` can be told within `e`, and is the same.
pub proof fn lemma_deeper(
    d: nat,
    e: nat,
    file: SchemaFile,
    value: Value,
    schema: Schema,
    path: Seq<char>,
)
    requires
        d <= e,
        check::errors_within(d, file, value, schema, path) is Some,
    ensures
        check::errors_within(e, file, value, schema, path) == check::errors_within(
            d,
            file,
            value,
            schema,
            path,
        ),
    decreases d, 0nat,
{
    let d1 = (d - 1) as nat;
    let e1 = (e - 1) as nat;
    match schema {
        Schema::Type { name: Some(name) } => {
            if check::builtin(name@) is None {
                if let Some(named) = file.schema.find(name@) {
                    lemma_deeper(d1, e1, file, value, named, path);
                }
            }
        },
        Schema::Object(fields) => {
            if let Value::Object(o) = value {
                fields::lemma_deeper(d1, e1, file, fields.0);
                let all = fields::inlined(d1, file, fields.0)->0.fields;
                lemma_deeper_fields(d1, e1, file, o.entries@, all, path, 0);
            }
        },
        Schema::Sequence(inner) => {
            if let Value::Sequence(s) = value {
                if inner.0@.len() > 0 {
                    lemma_deeper_items(d1, e1, file, s.items@, inner.0@[0], path, 0);
                }
            }
        },
        Schema::Union(variants) => {
            if variants.0@.len() > 0 {
                lemma_deeper_variants(d1, e1, file, value, variants.0@, path, 0);
            }
        },
        Schema::Optional(inner) => {
            if inner.0@.len() > 0 {
                lemma_deeper(d1, e1, file, value, inner.0@[0], path);
            }
        },
        Schema::Enum(variants) => {
            if let Value::Tagged(t) = value {
                if let Some(variant) = variants.0.find(t.tag@) {
                    if let Some(payload) = t.payload {
                        lemma_deeper(
                            d1,
                            e1,
                            file,
                            *payload,
                            variant,
                            check::field_path(path, t.tag@),
                        );
                    }
                }
            }
        },
        Schema::Mapping(types) => {
            if let Value::Object(o) = value {
                if types.0@.len() == 1 {
                    lemma_deeper_entries(d1, e1, file, o.entries@, None, types.0@[0], path, 0);
                } else if types.0@.len() == 2 {
                    lemma_deeper_entries(
                        d1,
                        e1,
                        file,
                        o.entries@,
                        Some(types.0@[0]),
                        types.0@[1],
                        path,
                        0,
                    );
                }
            }
        },
        Schema::Flatten(inner) => {
            if inner.0@.len() > 0 {
                lemma_deeper(d1, e1, file, value, inner.0@[0], path);
            }
        },
        _ => {},
    }
}

/// See [`lemma_deeper`].
pub proof fn lemma_deeper_fields(
    d: nat,
    e: nat,
    file: SchemaFile,
    entries: Seq<Entry>,
    all: Seq<Field>,
    path: Seq<char>,
    i: nat,
)
    requires
        d <= e,
        check::field_errors(d, file, entries, all, path, i) is Some,
    ensures
        check::field_errors(e, file, entries, all, path, i) == check::field_errors(
            d,
            file,
            entries,
            all,
            path,
            i,
        ),
    decreases d, entries.len() - i + 1,
{
    if i < entries.len() {
        let entry = entries[i as int];
        if let Some(name) = check::field_key(entry) {
            if let Some(schema) = check::field_schema(all, name) {
                lemma_deeper(d, e, file, entry.value, schema, check::field_path(path, name));
            }
        }
        lemma_deeper_fields(d, e, file, entries, all, path, i + 1);
    }
}

/// See [`lemma_deeper`].
pub proof fn lemma_deeper_items(
    d: nat,
    e: nat,
    file: SchemaFile,
    items: Seq<Value>,
    schema: Schema,
    path: Seq<char>,
    i: nat,
)
    requires
        d <= e,
        check::item_errors(d, file, items, schema, path, i) is Some,
    ensures
        check::item_errors(e, file, items, schema, path, i) == check::item_errors(
            d,
            file,
            items,
            schema,
            path,
            i,
        ),
    decreases d, items.len() - i + 1,
{
    if i < items.len() {
        lemma_deeper(d, e, file, items[i as int], schema, check::item_path(path, i));
        lemma_deeper_items(d, e, file, items, schema, path, i + 1);
    }
}

/// See [`lemma_deeper`].
pub proof fn lemma_deeper_variants(
    d: nat,
    e: nat,
    file: SchemaFile,
    value: Value,
    variants: Seq<Schema>,
    path: Seq<char>,
    i: nat,
)
    requires
        d <= e,
        check::some_variant(d, file, value, variants, path, i) is Some,
    ensures
        check::some_variant(e, file, value, variants, path, i) == check::some_variant(
            d,
            file,
            value,
            variants,
            path,
            i,
        ),
    decreases d, variants.len() - i + 1,
{
    if i < variants.len() {
        lemma_deeper(d, e, file, value, variants[i as int], path);
        let found = check::errors_within(d, file, value, variants[i as int], path);
        if found->0.len() > 0 {
            lemma_deeper_variants(d, e, file, value, variants, path, i + 1);
        }
    }
}

/// See [`lemma_deeper`].
pub proof fn lemma_deeper_entries(
    d: nat,
    e: nat,
    file: SchemaFile,
    entries: Seq<Entry>,
    key_schema: Option<Schema>,
    value_schema: Schema,
    path: Seq<char>,
    i: nat,
)
    requires
        d <= e,
        check::entry_errors(d, file, entries, key_schema, value_schema, path, i) is Some,
    ensures
        check::entry_errors(e, file, entries, key_schema, value_schema, path, i)
            == check::entry_errors(d, file, entries, key_schema, value_schema, path, i),
    decreases d, entries.len() - i + 1,
{
    if i < entries.len() {
        let entry = entries[i as int];
        if let Some(name) = check::map_key(entry, key_schema is Some) {
            if let Some(schema) = key_schema {
                lemma_deeper(d, e, file, entry.key, schema, path);
            }
            lemma_deeper(
                d,
                e,
                file,
                entry.value,
                value_schema,
                check::field_path(path, name),
            );
        }
        lemma_deeper_entries(d, e, file, entries, key_schema, value_schema, path, i + 1);
    }
}

/// Whatever depth is enough, what is found there is what is wrong.
pub proof fn lemma_errors(
    depth: nat,
    file: SchemaFile,
    value: Value,
    schema: Schema,
    path: Seq<char>,
)
    requires
        check::errors_within(depth, file, value, schema, path) is Some,
    ensures
        settled(file, value, schema, path),
        check::errors_within(depth, file, value, schema, path) == Some(
            errors(file, value, schema, path),
        ),
{
    let other = choose|d: nat| #[trigger]
        check::errors_within(d, file, value, schema, path) is Some;
    if depth <= other {
        lemma_deeper(depth, other, file, value, schema, path);
    } else {
        lemma_deeper(other, depth, file, value, schema, path);
    }
}

// --- documents and named types ---

/// What is wrong with a document can be told.
pub open spec fn document_settled(file: SchemaFile, doc: Value) -> bool {
    match file.schema.find("@"@) {
        Some(root) => settled(file, doc, root, Seq::empty()),
        None => true,
    }
}

/// What is wrong with a document, as the type `@` has it.
pub open spec fn document_errors(file: SchemaFile, doc: Value) -> Seq<ErrorView> {
    match file.schema.find("@"@) {
        Some(root) => errors(file, doc, root, Seq::empty()),
        None => seq![
            check::bad_schema(
                Seq::empty(),
                "no root type (@) defined in schema"@,
                "schema has no root type definition"@,
            ),
        ],
    }
}

/// What is wrong with a value of the type `name` can be told.
pub open spec fn type_settled(file: SchemaFile, value: Value, name: Seq<char>) -> bool {
    match file.schema.find(name) {
        Some(schema) => settled(file, value, schema, Seq::empty()),
        None => true,
    }
}

/// What is wrong with a value, as the type `name` has it.
pub open spec fn type_errors(file: SchemaFile, value: Value, name: Seq<char>) -> Seq<ErrorView> {
    match file.schema.find(name) {
        Some(schema) => errors(file, value, schema, Seq::empty()),
        None => seq![check::unknown_type(Seq::empty(), name)],
    }
}

} // verus!
