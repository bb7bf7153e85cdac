//! What holds of every validation.
use crate::schema::check;
use crate::schema::error::ErrorView;
use crate::schema::fields;
use crate::schema::fields::{Field, Inlined, Target};
use crate::schema::outcome;
use crate::schema::types::{
    EnumSchema, MapSchema, ObjectSchema, Schema, SchemaFile, SeqSchema, UnionSchema,
};
use crate::schema::value::{Entry, Sequence, Tagged, Value};
use vstd::prelude::*;
use vstd::string::*;

verus! {

/// Nothing is wrong with `value`, as `schema` has it.
pub open spec fn valid(file: SchemaFile, value: Value, schema: Schema, path: Seq<char>) -> bool {
    outcome::settled(file, value, schema, path) && outcome::errors(
        file,
        value,
        schema,
        path,
    ).len() == 0
}

// --- schemas that stand for others ---

/// The schema that `schema` stands for: the type that it names, the type that
/// may be absent, or the type whose fields are flattened.
pub open spec fn stands_for(file: SchemaFile, schema: Schema) -> Option<Schema> {
    match schema {
        Schema::Type { name: Some(name) } => if check::builtin(name@) is None {
            file.schema.find(name@)
        } else {
            None
        },
        Schema::Optional(inner) => if inner.0@.len() > 0 {
            Some(inner.0@[0])
        } else {
            None
        },
        Schema::Flatten(inner) => if inner.0@.len() > 0 {
            Some(inner.0@[0])
        } else {
            None
        },
        _ => None,
    }
}

/// A schema that stands for another one finds the same as that one.
pub proof fn law_stands_for(
    file: SchemaFile,
    value: Value,
    schema: Schema,
    other: Schema,
    path: Seq<char>,
)
    requires
        stands_for(file, schema) == Some(other),
    ensures
        outcome::settled(file, value, schema, path) <==> outcome::settled(
            file,
            value,
            other,
            path,
        ),
        outcome::settled(file, value, schema, path) ==> outcome::errors(
            file,
            value,
            schema,
            path,
        ) == outcome::errors(file, value, other, path),
{
    if outcome::settled(file, value, schema, path) {
        let d = choose|d: nat| #[trigger]
            check::errors_within(d, file, value, schema, path) is Some;
        outcome::lemma_errors((d - 1) as nat, file, value, other, path);
        outcome::lemma_errors(d, file, value, schema, path);
    }
    if outcome::settled(file, value, other, path) {
        let d = choose|d: nat| #[trigger] check::errors_within(d, file, value, other, path) is Some;
        assert(check::errors_within(d + 1, file, value, schema, path) == check::errors_within(
            d,
            file,
            value,
            other,
            path,
        ));
        outcome::lemma_errors(d + 1, file, value, schema, path);
    }
}

/// Every value is of the type `@any`.
pub proof fn law_any(file: SchemaFile, value: Value, name: String, path: Seq<char>)
    requires
        name@ == "any"@,
    ensures
        valid(file, value, Schema::Type { name: Some(name) }, path),
{
    reveal_strlit("any");
    reveal_strlit("string");
    reveal_strlit("int");
    reveal_strlit("integer");
    reveal_strlit("float");
    reveal_strlit("number");
    reveal_strlit("bool");
    reveal_strlit("boolean");
    reveal_strlit("unit");
    assert("any"@[0] == 'a');
    assert(check::builtin(name@) == Some(check::Builtin::Any));
    outcome::lemma_errors(1, file, value, Schema::Type { name: Some(name) }, path);
}

// --- unions ---

/// Where every schema from number `i` on can be told, so can whether one of
/// them has nothing to say.
proof fn lemma_some_variant(
    file: SchemaFile,
    value: Value,
    variants: Seq<Schema>,
    path: Seq<char>,
    i: nat,
) -> (d: nat)
    requires
        i <= variants.len(),
        forall|k: int|
            i <= k < variants.len() ==> outcome::settled(
                file,
                value,
                #[trigger] variants[k],
                path,
            ),
    ensures
        check::some_variant(d, file, value, variants, path, i) == Some(
            exists|k: int|
                i <= k < variants.len() && valid(file, value, #[trigger] variants[k], path),
        ),
    decreases variants.len() - i,
{
    if i == variants.len() {
        0
    } else {
        let later = lemma_some_variant(file, value, variants, path, i + 1);
        let first = variants[i as int];
        let here = choose|d: nat| #[trigger]
            check::errors_within(d, file, value, first, path) is Some;
        let d = if here < later {
            later
        } else {
            here
        };
        outcome::lemma_deeper(here, d, file, value, first, path);
        outcome::lemma_errors(d, file, value, first, path);
        outcome::lemma_deeper_variants(later, d, file, value, variants, path, i + 1);
        let found = exists|k: int|
            i <= k < variants.len() && valid(file, value, #[trigger] variants[k], path);
        let found_later = exists|k: int|
            i + 1 <= k < variants.len() && valid(file, value, #[trigger] variants[k], path);
        if outcome::errors(file, value, first, path).len() == 0 {
            assert(valid(file, value, variants[i as int], path));
        } else {
            if found {
                let k = choose|k: int|
                    i <= k < variants.len() && valid(file, value, #[trigger] variants[k], path);
                assert(k != i);
                assert(valid(file, value, variants[k], path));
                assert(found_later);
            }
            assert(found == found_later);
        }
        d
    }
}

/// A value is of a union exactly where it is of one of its types. If it is of
/// none, that is one error.
pub proof fn law_union(file: SchemaFile, value: Value, union: UnionSchema, path: Seq<char>)
    requires
        union.0@.len() > 0,
        forall|k: int|
            0 <= k < union.0@.len() ==> outcome::settled(
                file,
                value,
                #[trigger] union.0@[k],
                path,
            ),
    ensures
        outcome::settled(file, value, Schema::Union(union), path),
        valid(file, value, Schema::Union(union), path) <==> exists|k: int|
            0 <= k < union.0@.len() && valid(file, value, #[trigger] union.0@[k], path),
        outcome::errors(file, value, Schema::Union(union), path).len() <= 1,
{
    let d = lemma_some_variant(file, value, union.0@, path, 0);
    outcome::lemma_errors(d + 1, file, value, Schema::Union(union), path);
}

// --- enums ---

/// A tagged value is of an enum exactly where its tag names a variant, and its
/// payload is of the type of the variant. A value that is not tagged is of none.
pub proof fn law_enum(
    file: SchemaFile,
    value: Value,
    variants: EnumSchema,
    path: Seq<char>,
)
    requires
        value matches Value::Tagged(Tagged { tag, payload: Some(payload) }) ==> (variants.0.find(
            tag@,
        ) matches Some(variant) ==> outcome::settled(
            file,
            *payload,
            variant,
            check::field_path(path, tag@),
        )),
    ensures
        outcome::settled(file, value, Schema::Enum(variants), path),
        valid(file, value, Schema::Enum(variants), path) <==> match value {
            Value::Tagged(t) => match (variants.0.find(t.tag@), t.payload) {
                (Some(variant), Some(payload)) => valid(
                    file,
                    *payload,
                    variant,
                    check::field_path(path, t.tag@),
                ),
                (Some(variant), None) => check::takes_no_payload(variant),
                (None, _) => false,
            },
            _ => false,
        },
{
    let schema = Schema::Enum(variants);
    match value {
        Value::Tagged(t) => match (variants.0.find(t.tag@), t.payload) {
            (Some(variant), Some(payload)) => {
                let at = check::field_path(path, t.tag@);
                let d = choose|d: nat| #[trigger]
                    check::errors_within(d, file, *payload, variant, at) is Some;
                outcome::lemma_errors(d, file, *payload, variant, at);
                assert(check::errors_within(d + 1, file, value, schema, path)
                    == check::errors_within(d, file, *payload, variant, at));
                outcome::lemma_errors(d + 1, file, value, schema, path);
            },
            _ => outcome::lemma_errors(1, file, value, schema, path),
        },
        _ => outcome::lemma_errors(1, file, value, schema, path),
    }
}

// --- sequences ---

/// Where every element from number `i` on can be told, so can all of them.
proof fn lemma_items(
    file: SchemaFile,
    items: Seq<Value>,
    schema: Schema,
    path: Seq<char>,
    i: nat,
) -> (d: nat)
    requires
        i <= items.len(),
        forall|k: int|
            i <= k < items.len() ==> outcome::settled(
                file,
                #[trigger] items[k],
                schema,
                check::item_path(path, k as nat),
            ),
    ensures
        check::item_errors(d, file, items, schema, path, i) is Some,
        check::item_errors(d, file, items, schema, path, i)->0.len() == 0 <==> forall|k: int|
            i <= k < items.len() ==> valid(
                file,
                #[trigger] items[k],
                schema,
                check::item_path(path, k as nat),
            ),
    decreases items.len() - i,
{
    if i == items.len() {
        0
    } else {
        let later = lemma_items(file, items, schema, path, i + 1);
        let item = items[i as int];
        let at = check::item_path(path, i);
        assert(outcome::settled(file, items[i as int], schema, at));
        let here = choose|d: nat| #[trigger]
            check::errors_within(d, file, item, schema, at) is Some;
        let d = if here < later {
            later
        } else {
            here
        };
        outcome::lemma_deeper(here, d, file, item, schema, at);
        outcome::lemma_errors(d, file, item, schema, at);
        outcome::lemma_deeper_items(later, d, file, items, schema, path, i + 1);
        d
    }
}

/// A sequence is of its type exactly where each of its elements is.
pub proof fn law_sequence(file: SchemaFile, seq: Sequence, inner: SeqSchema, path: Seq<char>)
    requires
        inner.0@.len() > 0,
        forall|k: int|
            0 <= k < seq.items@.len() ==> outcome::settled(
                file,
                #[trigger] seq.items@[k],
                inner.0@[0],
                check::item_path(path, k as nat),
            ),
    ensures
        outcome::settled(file, Value::Sequence(seq), Schema::Sequence(inner), path),
        valid(file, Value::Sequence(seq), Schema::Sequence(inner), path) <==> forall|k: int|
            0 <= k < seq.items@.len() ==> valid(
                file,
                #[trigger] seq.items@[k],
                inner.0@[0],
                check::item_path(path, k as nat),
            ),
{
    let d = lemma_items(file, seq.items@, inner.0@[0], path, 0);
    outcome::lemma_errors(d + 1, file, Value::Sequence(seq), Schema::Sequence(inner), path);
}

// --- objects ---

/// What is wrong with the field that `entry` is can be told, if it is one.
pub open spec fn field_settled(
    file: SchemaFile,
    entry: Entry,
    all: Seq<Field>,
    path: Seq<char>,
) -> bool {
    match check::field_key(entry) {
        Some(name) => match check::field_schema(all, name) {
            Some(schema) => outcome::settled(
                file,
                entry.value,
                schema,
                check::field_path(path, name),
            ),
            None => true,
        },
        None => true,
    }
}

/// `entry` is a field with a schema, and nothing is wrong with its value.
pub open spec fn field_valid(
    file: SchemaFile,
    entry: Entry,
    all: Seq<Field>,
    path: Seq<char>,
) -> bool {
    match check::field_key(entry) {
        Some(name) => match check::field_schema(all, name) {
            Some(schema) => valid(file, entry.value, schema, check::field_path(path, name)),
            None => false,
        },
        None => false,
    }
}

/// The field number `j` is there or need not be.
pub open spec fn field_present(entries: Seq<Entry>, all: Seq<Field>, j: int) -> bool {
    all[j].0 == "@"@ || check::has_field(entries, all[j].0) || all[j].1 is Optional
}

/// Where every entry from number `i` on can be told, so can all of them.
proof fn lemma_fields(
    file: SchemaFile,
    entries: Seq<Entry>,
    all: Seq<Field>,
    path: Seq<char>,
    i: nat,
) -> (d: nat)
    requires
        i <= entries.len(),
        forall|k: int|
            i <= k < entries.len() ==> field_settled(
                file,
                #[trigger] entries[k],
                all,
                path,
            ),
    ensures
        check::field_errors(d, file, entries, all, path, i) is Some,
        check::field_errors(d, file, entries, all, path, i)->0.len() == 0 <==> forall|k: int|
            i <= k < entries.len() ==> field_valid(
                file,
                #[trigger] entries[k],
                all,
                path,
            ),
    decreases entries.len() - i,
{
    if i == entries.len() {
        0
    } else {
        let later = lemma_fields(file, entries, all, path, i + 1);
        let entry = entries[i as int];
        assert(field_settled(file, entries[i as int], all, path));
        let mut d = later;
        if let Some(name) = check::field_key(entry) {
            if let Some(schema) = check::field_schema(all, name) {
                let at = check::field_path(path, name);
                let here = choose|d: nat| #[trigger]
                    check::errors_within(d, file, entry.value, schema, at) is Some;
                if later < here {
                    d = here;
                }
                outcome::lemma_deeper(here, d, file, entry.value, schema, at);
                outcome::lemma_errors(d, file, entry.value, schema, at);
            }
        }
        outcome::lemma_deeper_fields(later, d, file, entries, all, path, i + 1);
        d
    }
}

/// No field is missing exactly where each is there or need not be.
proof fn lemma_missing(entries: Seq<Entry>, all: Seq<Field>, path: Seq<char>, j: nat)
    requires
        j <= all.len(),
    ensures
        check::missing_fields(entries, all, path, j).len() == 0 <==> forall|k: int|
            j <= k < all.len() ==> #[trigger] field_present(entries, all, k),
    decreases all.len() - j,
{
    if j < all.len() {
        lemma_missing(entries, all, path, j + 1);
        let here = check::missing_fields(entries, all, path, j);
        let rest = check::missing_fields(entries, all, path, j + 1);
        if field_present(entries, all, j as int) {
            assert(here == rest);
            assert forall|k: int| j <= k < all.len() && rest.len() == 0 implies
                #[trigger] field_present(entries, all, k) by {
                if k > j {
                    assert(j + 1 <= k);
                }
            }
        } else {
            assert(here.len() == rest.len() + 1);
        }
    }
}

/// An object is of its type exactly where each of its entries is a field of the
/// type or of a type that it flattens, with a value of the field's type, no such
/// field is missing, and the types that it flattens are there.
pub proof fn law_object(
    file: SchemaFile,
    object: crate::schema::value::Object,
    fields: ObjectSchema,
    path: Seq<char>,
)
    requires
        fields::settled(file, fields.0),
        forall|k: int|
            0 <= k < object.entries@.len() ==> field_settled(
                file,
                #[trigger] object.entries@[k],
                fields::all_of(file, fields.0).fields,
                path,
            ),
    ensures
        outcome::settled(file, Value::Object(object), Schema::Object(fields), path),
        valid(file, Value::Object(object), Schema::Object(fields), path) <==> {
            let all = fields::all_of(file, fields.0).fields;
            &&& fields::all_of(file, fields.0).broken.len() == 0
            &&& forall|k: int|
                0 <= k < object.entries@.len() ==> field_valid(
                    file,
                    #[trigger] object.entries@[k],
                    all,
                    path,
                )
            &&& forall|j: int|
                0 <= j < all.len() ==> #[trigger] field_present(object.entries@, all, j)
        },
{
    let all = fields::all_of(file, fields.0).fields;
    let in_fields = lemma_fields(file, object.entries@, all, path, 0);
    lemma_missing(object.entries@, all, path, 0);
    let enough = choose|d: nat| #[trigger] fields::inlined(d, file, fields.0) is Some;
    let d = if in_fields < enough {
        enough
    } else {
        in_fields
    };
    fields::lemma_deeper(enough, d, file, fields.0);
    outcome::lemma_deeper_fields(in_fields, d, file, object.entries@, all, path, 0);
    outcome::lemma_errors(d + 1, file, Value::Object(object), Schema::Object(fields), path);
}

// --- maps ---

/// What is wrong with an entry of a map can be told, if its key can be one.
pub open spec fn entry_settled(
    file: SchemaFile,
    entry: Entry,
    key_schema: Option<Schema>,
    value_schema: Schema,
    path: Seq<char>,
) -> bool {
    match check::map_key(entry, key_schema is Some) {
        Some(name) => {
            &&& key_schema matches Some(schema) ==> outcome::settled(file, entry.key, schema, path)
            &&& outcome::settled(file, entry.value, value_schema, check::field_path(path, name))
        },
        None => true,
    }
}

/// The key of `entry` is a scalar, or unit where the keys have a type, and
/// nothing is wrong with its key and value.
pub open spec fn entry_valid(
    file: SchemaFile,
    entry: Entry,
    key_schema: Option<Schema>,
    value_schema: Schema,
    path: Seq<char>,
) -> bool {
    match check::map_key(entry, key_schema is Some) {
        Some(name) => {
            &&& key_schema matches Some(schema) ==> valid(file, entry.key, schema, path)
            &&& valid(file, entry.value, value_schema, check::field_path(path, name))
        },
        None => false,
    }
}

/// Where every entry from number `i` on can be told, so can all of them.
proof fn lemma_entries(
    file: SchemaFile,
    entries: Seq<Entry>,
    key_schema: Option<Schema>,
    value_schema: Schema,
    path: Seq<char>,
    i: nat,
) -> (d: nat)
    requires
        i <= entries.len(),
        forall|k: int|
            i <= k < entries.len() ==> entry_settled(
                file,
                #[trigger] entries[k],
                key_schema,
                value_schema,
                path,
            ),
    ensures
        check::entry_errors(d, file, entries, key_schema, value_schema, path, i) is Some,
        check::entry_errors(d, file, entries, key_schema, value_schema, path, i)->0.len() == 0
            <==> forall|k: int|
            i <= k < entries.len() ==> entry_valid(
                file,
                #[trigger] entries[k],
                key_schema,
                value_schema,
                path,
            ),
    decreases entries.len() - i,
{
    if i == entries.len() {
        0
    } else {
        let later = lemma_entries(file, entries, key_schema, value_schema, path, i + 1);
        let entry = entries[i as int];
        assert(entry_settled(file, entries[i as int], key_schema, value_schema, path));
        let mut d = later;
        if let Some(name) = check::map_key(entry, key_schema is Some) {
            let at = check::field_path(path, name);
            let in_value = choose|d: nat| #[trigger]
                check::errors_within(d, file, entry.value, value_schema, at) is Some;
            if d < in_value {
                d = in_value;
            }
            if let Some(schema) = key_schema {
                let in_key = choose|d: nat| #[trigger]
                    check::errors_within(d, file, entry.key, schema, path) is Some;
                if d < in_key {
                    d = in_key;
                }
                outcome::lemma_deeper(in_key, d, file, entry.key, schema, path);
                outcome::lemma_errors(d, file, entry.key, schema, path);
            }
            outcome::lemma_deeper(in_value, d, file, entry.value, value_schema, at);
            outcome::lemma_errors(d, file, entry.value, value_schema, at);
        }
        outcome::lemma_deeper_entries(
            later,
            d,
            file,
            entries,
            key_schema,
            value_schema,
            path,
            i + 1,
        );
        d
    }
}

/// The types of the keys, if they have one, and of the values of a map.
pub open spec fn map_types(types: MapSchema) -> Option<(Option<Schema>, Schema)> {
    if types.0@.len() == 1 {
        Some((None, types.0@[0]))
    } else if types.0@.len() == 2 {
        Some((Some(types.0@[0]), types.0@[1]))
    } else {
        None
    }
}

/// An object is of a map type exactly where each of its keys is a scalar, or
/// unit, of the type of the keys, and each of its values is of the type of the
/// values. Where the keys have no type, they are scalars.
pub proof fn law_map(
    file: SchemaFile,
    object: crate::schema::value::Object,
    types: MapSchema,
    path: Seq<char>,
)
    requires
        map_types(types) matches Some((key_schema, value_schema)) && forall|k: int|
            0 <= k < object.entries@.len() ==> entry_settled(
                file,
                #[trigger] object.entries@[k],
                key_schema,
                value_schema,
                path,
            ),
    ensures
        outcome::settled(file, Value::Object(object), Schema::Mapping(types), path),
        map_types(types) matches Some((key_schema, value_schema)) && (valid(
            file,
            Value::Object(object),
            Schema::Mapping(types),
            path,
        ) <==> forall|k: int|
            0 <= k < object.entries@.len() ==> entry_valid(
                file,
                #[trigger] object.entries@[k],
                key_schema,
                value_schema,
                path,
            )),
{
    let (key_schema, value_schema) = map_types(types)->0;
    let d = lemma_entries(file, object.entries@, key_schema, value_schema, path, 0);
    outcome::lemma_errors(d + 1, file, Value::Object(object), Schema::Mapping(types), path);
}

// --- when validation comes to an end ---

/// Every type that `schema` refers to without going into the value has a rank
/// below `r`.
pub open spec fn refers_below(schema: Schema, rank: spec_fn(Seq<char>) -> nat, r: nat) -> bool
    decreases schema,
{
    match schema {
        Schema::Type { name: Some(name) } => check::builtin(name@) is Some || rank(name@) < r,
        Schema::Union(union) => forall|i: int|
            0 <= i < union.0@.len() ==> refers_below(#[trigger] union.0@[i], rank, r),
        Schema::Optional(inner) => inner.0@.len() > 0 ==> refers_below(inner.0@[0], rank, r),
        Schema::Flatten(inner) => inner.0@.len() > 0 ==> refers_below(inner.0@[0], rank, r),
        Schema::Object(fields) => {
            proof {
                fields.0.lemma_values_below();
                assert(decreases_to!(schema => schema->Object_0.0));
            }
            forall|j: int|
                0 <= j < fields.0.values().len() && (#[trigger] fields.0.values()[j]) is Flatten
                    ==> refers_below(fields.0.values()[j], rank, r)
        },
        _ => true,
    }
}

/// The types of a file have ranks below `bound` such that none refers to one of
/// its own rank or above without going into the value.
pub open spec fn guarded(file: SchemaFile, rank: spec_fn(Seq<char>) -> nat, bound: nat) -> bool {
    &&& forall|name: Seq<char>| #[trigger] rank(name) < bound
    &&& forall|name: Seq<char>| #[trigger]
        file.schema.find(name) matches Some(schema) ==> refers_below(schema, rank, rank(name))
}

/// Where all ranks are below a bound, so are those that a schema refers to.
proof fn lemma_bounded(schema: Schema, rank: spec_fn(Seq<char>) -> nat, bound: nat)
    requires
        forall|name: Seq<char>| #[trigger] rank(name) < bound,
    ensures
        refers_below(schema, rank, bound),
    decreases schema,
{
    match schema {
        Schema::Union(union) => {
            assert forall|i: int| 0 <= i < union.0@.len() implies refers_below(
                #[trigger] union.0@[i],
                rank,
                bound,
            ) by {
                lemma_bounded(union.0@[i], rank, bound);
            }
        },
        Schema::Optional(inner) => {
            if inner.0@.len() > 0 {
                lemma_bounded(inner.0@[0], rank, bound);
            }
        },
        Schema::Flatten(inner) => {
            if inner.0@.len() > 0 {
                lemma_bounded(inner.0@[0], rank, bound);
            }
        },
        Schema::Object(fields) => {
            fields.0.lemma_values_below();
            assert forall|j: int|
                0 <= j < fields.0.values().len() && (#[trigger] fields.0.values()[j])
                    is Flatten implies refers_below(fields.0.values()[j], rank, bound) by {
                assert(decreases_to!(schema => schema->Object_0.0));
                lemma_bounded(fields.0.values()[j], rank, bound);
            }
        },
        _ => {},
    }
}

/// What object type a schema is or names can be told, and it refers to lower
/// ranks, or is part of the schema.
proof fn lemma_guarded_target(
    file: SchemaFile,
    rank: spec_fn(Seq<char>) -> nat,
    bound: nat,
    r: nat,
    schema: Schema,
) -> (found: (nat, nat))
    requires
        guarded(file, rank, bound),
        refers_below(schema, rank, r),
    ensures
        fields::target(found.0, file, schema) is Some,
        fields::target(found.0, file, schema)->0 matches Target::Object(inner) ==> {
            &&& refers_below(Schema::Object(inner), rank, found.1)
            &&& found.1 <= r
            &&& found.1 == r ==> schema == Schema::Object(inner) || decreases_to!(
                schema => Schema::Object(inner)
            )
        },
    decreases r, schema,
{
    match schema {
        Schema::Type { name: Some(name) } => {
            if check::builtin(name@) is None && file.schema.find(name@) is Some {
                let named = file.schema.find(name@)->0;
                let (d, low) = lemma_guarded_target(file, rank, bound, rank(name@), named);
                (d + 1, low)
            } else {
                (1, r)
            }
        },
        Schema::Flatten(inner) => {
            if inner.0@.len() > 0 {
                let (d, low) = lemma_guarded_target(file, rank, bound, r, inner.0@[0]);
                assert(decreases_to!(schema => inner.0@[0]));
                (d + 1, low)
            } else {
                (1, r)
            }
        },
        _ => (1, r),
    }
}

/// What the fields of an object type are can be told.
proof fn lemma_guarded_fields(
    file: SchemaFile,
    rank: spec_fn(Seq<char>) -> nat,
    bound: nat,
    r: nat,
    fields: ObjectSchema,
    all: Inlined,
    j: nat,
) -> (d: nat)
    requires
        guarded(file, rank, bound),
        refers_below(Schema::Object(fields), rank, r),
        j <= fields.0.names().len(),
    ensures
        fields::inlined_from(d, file, fields.0, all, j) is Some,
    decreases r, Schema::Object(fields), fields.0.names().len() - j,
{
    fields.0.lemma_values();
    fields.0.lemma_values_below();
    if j == fields.0.names().len() {
        0
    } else {
        let schema = fields.0.values()[j as int];
        let next = j + 1;
        if schema is Flatten {
            let (dt, low) = lemma_guarded_target(file, rank, bound, r, schema);
            let list = match fields::target(dt, file, schema)->0 {
                Target::Object(inner) => {
                    let whole = Schema::Object(fields);
                    assert(decreases_to!(whole => whole->Object_0.0));
                    assert(decreases_to!(fields.0 => fields.0.values()[j as int]));
                    let none = fields::no_fields();
                    let di = lemma_guarded_fields(file, rank, bound, low, inner, none, 0);
                    fields::lemma_all_of(di, file, inner.0);
                    fields::with_inner(fields.0, all, fields::all_of(file, inner.0))
                },
                Target::Other => all,
                Target::Absent => fields::with_broken(all, None),
                Target::Unknown(name) => fields::with_broken(all, Some(name)),
            };
            let dr = lemma_guarded_fields(file, rank, bound, r, fields, list, next);
            match fields::target(dt, file, schema)->0 {
                Target::Object(inner) => {
                    let di = choose|d: nat| #[trigger]
                        fields::inlined(d, file, inner.0) is Some;
                    let d = dt + di + dr + 1;
                    fields::lemma_deeper_target(dt, d, file, schema);
                    fields::lemma_deeper(di, (d - 1) as nat, file, inner.0);
                    fields::lemma_deeper_from(dr, d, file, fields.0, list, next);
                    d
                },
                _ => {
                    let d = dt + dr;
                    fields::lemma_deeper_target(dt, d, file, schema);
                    fields::lemma_deeper_from(dr, d, file, fields.0, list, next);
                    d
                },
            }
        } else {
            let list = fields::with_field(all, (fields.0.names()[j as int], schema));
            lemma_guarded_fields(file, rank, bound, r, fields, list, next)
        }
    }
}

/// See [`law_guarded`].
proof fn lemma_guarded(
    file: SchemaFile,
    rank: spec_fn(Seq<char>) -> nat,
    bound: nat,
    value: Value,
    r: nat,
    schema: Schema,
    path: Seq<char>,
)
    requires
        guarded(file, rank, bound),
        refers_below(schema, rank, r),
    ensures
        outcome::settled(file, value, schema, path),
    decreases value, r, schema, 1nat,
{
    match schema {
        Schema::Type { name: Some(name) } => {
            if check::builtin(name@) is None {
                if let Some(named) = file.schema.find(name@) {
                    lemma_guarded(file, rank, bound, value, rank(name@), named, path);
                    law_stands_for(file, value, schema, named, path);
                } else {
                    outcome::lemma_errors(1, file, value, schema, path);
                }
            } else {
                outcome::lemma_errors(1, file, value, schema, path);
            }
        },
        Schema::Union(union) => {
            if union.0@.len() > 0 {
                assert forall|k: int| 0 <= k < union.0@.len() implies outcome::settled(
                    file,
                    value,
                    #[trigger] union.0@[k],
                    path,
                ) by {
                    lemma_guarded(file, rank, bound, value, r, union.0@[k], path);
                }
                law_union(file, value, union, path);
            } else {
                outcome::lemma_errors(1, file, value, schema, path);
            }
        },
        Schema::Optional(inner) => {
            if inner.0@.len() > 0 {
                lemma_guarded(file, rank, bound, value, r, inner.0@[0], path);
                law_stands_for(file, value, schema, inner.0@[0], path);
            } else {
                outcome::lemma_errors(1, file, value, schema, path);
            }
        },
        Schema::Flatten(inner) => {
            if inner.0@.len() > 0 {
                lemma_guarded(file, rank, bound, value, r, inner.0@[0], path);
                law_stands_for(file, value, schema, inner.0@[0], path);
            } else {
                outcome::lemma_errors(1, file, value, schema, path);
            }
        },
        _ => lemma_guarded_inside(file, rank, bound, value, r, schema, path),
    }
}

/// See [`law_guarded`].
proof fn lemma_guarded_inside(
    file: SchemaFile,
    rank: spec_fn(Seq<char>) -> nat,
    bound: nat,
    value: Value,
    r: nat,
    schema: Schema,
    path: Seq<char>,
)
    requires
        guarded(file, rank, bound),
        refers_below(schema, rank, r),
        !(schema is Union || schema is Optional || schema is Flatten),
        schema matches Schema::Type { name } ==> name is None,
    ensures
        outcome::settled(file, value, schema, path),
    decreases value, r, schema, 0nat,
{
    match (schema, value) {
        (Schema::Object(fields), Value::Object(o)) => {
            let enough = lemma_guarded_fields(
                file,
                rank,
                bound,
                r,
                fields,
                fields::no_fields(),
                0,
            );
            fields::lemma_all_of(enough, file, fields.0);
            let all = fields::all_of(file, fields.0).fields;
            assert forall|k: int| 0 <= k < o.entries@.len() implies field_settled(
                file,
                #[trigger] o.entries@[k],
                all,
                path,
            ) by {
                let entry = o.entries@[k];
                if let Some(name) = check::field_key(entry) {
                    if let Some(inner) = check::field_schema(all, name) {
                        let at = check::field_path(path, name);
                        lemma_bounded(inner, rank, bound);
                        lemma_guarded(file, rank, bound, entry.value, bound, inner, at);
                    }
                }
            }
            law_object(file, o, fields, path);
        },
        (Schema::Sequence(inner), Value::Sequence(s)) => {
            if inner.0@.len() > 0 {
                assert forall|k: int| 0 <= k < s.items@.len() implies outcome::settled(
                    file,
                    #[trigger] s.items@[k],
                    inner.0@[0],
                    check::item_path(path, k as nat),
                ) by {
                    let at = check::item_path(path, k as nat);
                    lemma_bounded(inner.0@[0], rank, bound);
                    lemma_guarded(file, rank, bound, s.items@[k], bound, inner.0@[0], at);
                }
                law_sequence(file, s, inner, path);
            } else {
                outcome::lemma_errors(1, file, value, schema, path);
            }
        },
        (Schema::Enum(variants), Value::Tagged(t)) => {
            if let (Some(variant), Some(payload)) = (variants.0.find(t.tag@), t.payload) {
                let at = check::field_path(path, t.tag@);
                lemma_bounded(variant, rank, bound);
                lemma_guarded(file, rank, bound, *payload, bound, variant, at);
                let d = choose|d: nat| #[trigger]
                    check::errors_within(d, file, *payload, variant, at) is Some;
                outcome::lemma_errors(d + 1, file, value, schema, path);
            } else {
                outcome::lemma_errors(1, file, value, schema, path);
            }
        },
        (Schema::Mapping(types), Value::Object(o)) => {
            if let Some((key_schema, value_schema)) = map_types(types) {
                assert forall|k: int| 0 <= k < o.entries@.len() implies entry_settled(
                    file,
                    #[trigger] o.entries@[k],
                    key_schema,
                    value_schema,
                    path,
                ) by {
                    let entry = o.entries@[k];
                    if let Some(name) = check::map_key(entry, key_schema is Some) {
                        let at = check::field_path(path, name);
                        lemma_bounded(value_schema, rank, bound);
                        lemma_guarded(file, rank, bound, entry.value, bound, value_schema, at);
                        if let Some(inner) = key_schema {
                            lemma_bounded(inner, rank, bound);
                            lemma_guarded(file, rank, bound, entry.key, bound, inner, path);
                        }
                    }
                }
                law_map(file, o, types, path);
            } else {
                outcome::lemma_errors(1, file, value, schema, path);
            }
        },
        _ => outcome::lemma_errors(1, file, value, schema, path),
    }
}

/// No type of a file refers to itself, directly or through others, without
/// going into the value.
pub open spec fn well_guarded(file: SchemaFile) -> bool {
    exists|rank: spec_fn(Seq<char>) -> nat, bound: nat| #[trigger] guarded(file, rank, bound)
}

/// Where no type refers to itself without going into the value, validation
/// comes to an end on every value, whatever the schema.
pub proof fn law_guarded(file: SchemaFile, value: Value, schema: Schema, path: Seq<char>)
    requires
        well_guarded(file),
    ensures
        outcome::settled(file, value, schema, path),
{
    let (rank, bound) = choose|rank: spec_fn(Seq<char>) -> nat, bound: nat| #[trigger]
        guarded(file, rank, bound);
    lemma_bounded(schema, rank, bound);
    lemma_guarded(file, rank, bound, value, bound, schema, path);
}

/// Where no type refers to itself without going into the value, every document
/// and every value of a named type can be validated.
pub proof fn law_guarded_types(file: SchemaFile, value: Value, name: Seq<char>)
    requires
        well_guarded(file),
    ensures
        outcome::document_settled(file, value),
        outcome::type_settled(file, value, name),
{
    if let Some(root) = file.schema.find("@"@) {
        law_guarded(file, value, root, Seq::empty());
    }
    if let Some(schema) = file.schema.find(name) {
        law_guarded(file, value, schema, Seq::empty());
    }
}

// --- paths ---

/// Every error is at `path` or below it.
pub open spec fn below(path: Seq<char>, errors: Seq<ErrorView>) -> bool {
    forall|i: int| 0 <= i < errors.len() ==> path.is_prefix_of(#[trigger] errors[i].path)
}

/// One list of errors after another.
proof fn lemma_below_both(path: Seq<char>, a: Seq<ErrorView>, b: Seq<ErrorView>)
    requires
        below(path, a),
        below(path, b),
    ensures
        below(path, a + b),
{
    assert forall|i: int| 0 <= i < (a + b).len() implies path.is_prefix_of(
        #[trigger] (a + b)[i].path,
    ) by {
        if i < a.len() {
            assert((a + b)[i] == a[i]);
        } else {
            assert((a + b)[i] == b[i - a.len()]);
        }
    }
}

/// What is below a longer path is below the path.
proof fn lemma_below_longer(path: Seq<char>, longer: Seq<char>, errors: Seq<ErrorView>)
    requires
        path.is_prefix_of(longer),
        below(longer, errors),
    ensures
        below(path, errors),
{
    assert forall|i: int| 0 <= i < errors.len() implies path.is_prefix_of(
        #[trigger] errors[i].path,
    ) by {
        let e = errors[i].path;
        assert(longer.is_prefix_of(e));
        assert(path =~= e.subrange(0, path.len() as int));
    }
}

/// The paths of fields and elements are below the path.
proof fn lemma_below_path(path: Seq<char>, key: Seq<char>, i: nat)
    ensures
        path.is_prefix_of(check::field_path(path, key)),
        path.is_prefix_of(check::item_path(path, i)),
        path.is_prefix_of(path),
{
    let field = check::field_path(path, key);
    let item = check::item_path(path, i);
    assert(path =~= field.subrange(0, path.len() as int));
    assert(path =~= item.subrange(0, path.len() as int));
    assert(path =~= path.subrange(0, path.len() as int));
}

/// See [`law_paths`].
proof fn lemma_paths(d: nat, file: SchemaFile, value: Value, schema: Schema, path: Seq<char>)
    requires
        check::errors_within(d, file, value, schema, path) is Some,
    ensures
        below(path, check::errors_within(d, file, value, schema, path)->0),
    decreases d, 0nat,
{
    let d1 = (d - 1) as nat;
    lemma_below_path(path, Seq::empty(), 0);
    match schema {
        Schema::Type { name: Some(name) } => {
            if check::builtin(name@) is None {
                if let Some(named) = file.schema.find(name@) {
                    lemma_paths(d1, file, value, named, path);
                }
            }
        },
        Schema::Object(fields) => {
            if let Value::Object(o) = value {
                let all = fields::inlined(d1, file, fields.0)->0.fields;
                let broken = fields::inlined(d1, file, fields.0)->0.broken;
                let missing = check::missing_fields(o.entries@, all, path, 0);
                lemma_field_paths(d1, file, o.entries@, all, path, 0);
                lemma_missing_paths(o.entries@, all, path, 0);
                lemma_below_both(path, missing, check::broken_errors(broken, path));
                lemma_below_both(
                    path,
                    check::field_errors(d1, file, o.entries@, all, path, 0)->0,
                    missing + check::broken_errors(broken, path),
                );
            }
        },
        Schema::Sequence(inner) => {
            if let Value::Sequence(s) = value {
                if inner.0@.len() > 0 {
                    lemma_item_paths(d1, file, s.items@, inner.0@[0], path, 0);
                }
            }
        },
        Schema::Optional(inner) => {
            if inner.0@.len() > 0 {
                lemma_paths(d1, file, value, inner.0@[0], path);
            }
        },
        Schema::Enum(variants) => {
            if let Value::Tagged(t) = value {
                if let (Some(variant), Some(payload)) = (variants.0.find(t.tag@), t.payload) {
                    let at = check::field_path(path, t.tag@);
                    lemma_paths(d1, file, *payload, variant, at);
                    lemma_below_path(path, t.tag@, 0);
                    lemma_below_longer(
                        path,
                        at,
                        check::errors_within(d1, file, *payload, variant, at)->0,
                    );
                }
            }
        },
        Schema::Mapping(types) => {
            if let Value::Object(o) = value {
                if types.0@.len() == 1 {
                    lemma_entry_paths(d1, file, o.entries@, None, types.0@[0], path, 0);
                } else if types.0@.len() == 2 {
                    lemma_entry_paths(
                        d1,
                        file,
                        o.entries@,
                        Some(types.0@[0]),
                        types.0@[1],
                        path,
                        0,
                    );
                }
            }
        },
        Schema::Flatten(inner) => {
            if inner.0@.len() > 0 {
                lemma_paths(d1, file, value, inner.0@[0], path);
            }
        },
        _ => {},
    }
}

/// See [`law_paths`].
proof fn lemma_missing_paths(entries: Seq<Entry>, all: Seq<Field>, path: Seq<char>, j: nat)
    ensures
        below(path, check::missing_fields(entries, all, path, j)),
    decreases all.len() - j,
{
    if j < all.len() {
        let name = all[j as int].0;
        let here = check::missing_fields(entries, all, path, j);
        let rest = check::missing_fields(entries, all, path, j + 1);
        lemma_missing_paths(entries, all, path, j + 1);
        lemma_below_path(path, name, 0);
        if here != rest {
            let first = here.take(1);
            assert(here =~= first + rest);
            lemma_below_both(path, first, rest);
        }
    }
}

/// See [`law_paths`].
proof fn lemma_field_paths(
    d: nat,
    file: SchemaFile,
    entries: Seq<Entry>,
    list: Seq<Field>,
    path: Seq<char>,
    i: nat,
)
    requires
        check::field_errors(d, file, entries, list, path, i) is Some,
    ensures
        below(path, check::field_errors(d, file, entries, list, path, i)->0),
    decreases d, entries.len() - i + 1,
{
    if i < entries.len() {
        let entry = entries[i as int];
        let rest = check::field_errors(d, file, entries, list, path, i + 1)->0;
        let all = check::field_errors(d, file, entries, list, path, i)->0;
        let here = all.take(all.len() - rest.len());
        lemma_field_paths(d, file, entries, list, path, i + 1);
        lemma_below_path(path, Seq::empty(), 0);
        if let Some(name) = check::field_key(entry) {
            let at = check::field_path(path, name);
            lemma_below_path(path, name, 0);
            if let Some(schema) = check::field_schema(list, name) {
                lemma_paths(d, file, entry.value, schema, at);
                let found = check::errors_within(d, file, entry.value, schema, at)->0;
                lemma_below_longer(path, at, found);
                assert(here =~= found);
            }
        }
        assert(below(path, here));
        lemma_below_both(path, here, rest);
        assert(all =~= here + rest);
    }
}

/// See [`law_paths`].
proof fn lemma_item_paths(
    d: nat,
    file: SchemaFile,
    items: Seq<Value>,
    schema: Schema,
    path: Seq<char>,
    i: nat,
)
    requires
        check::item_errors(d, file, items, schema, path, i) is Some,
    ensures
        below(path, check::item_errors(d, file, items, schema, path, i)->0),
    decreases d, items.len() - i + 1,
{
    if i < items.len() {
        let at = check::item_path(path, i);
        let here = check::errors_within(d, file, items[i as int], schema, at)->0;
        let rest = check::item_errors(d, file, items, schema, path, i + 1)->0;
        lemma_paths(d, file, items[i as int], schema, at);
        lemma_below_path(path, Seq::empty(), i);
        lemma_below_longer(path, at, here);
        lemma_item_paths(d, file, items, schema, path, i + 1);
        lemma_below_both(path, here, rest);
    }
}

/// See [`law_paths`].
proof fn lemma_entry_paths(
    d: nat,
    file: SchemaFile,
    entries: Seq<Entry>,
    key_schema: Option<Schema>,
    value_schema: Schema,
    path: Seq<char>,
    i: nat,
)
    requires
        check::entry_errors(d, file, entries, key_schema, value_schema, path, i) is Some,
    ensures
        below(path, check::entry_errors(d, file, entries, key_schema, value_schema, path, i)->0),
    decreases d, entries.len() - i + 1,
{
    if i < entries.len() {
        let entry = entries[i as int];
        let rest = check::entry_errors(
            d,
            file,
            entries,
            key_schema,
            value_schema,
            path,
            i + 1,
        )->0;
        let all = check::entry_errors(d, file, entries, key_schema, value_schema, path, i)->0;
        let here = all.take(all.len() - rest.len());
        lemma_entry_paths(d, file, entries, key_schema, value_schema, path, i + 1);
        lemma_below_path(path, Seq::empty(), 0);
        if let Some(name) = check::map_key(entry, key_schema is Some) {
            let at = check::field_path(path, name);
            lemma_below_path(path, name, 0);
            lemma_paths(d, file, entry.value, value_schema, at);
            let in_value = check::errors_within(d, file, entry.value, value_schema, at)->0;
            lemma_below_longer(path, at, in_value);
            let in_key = match key_schema {
                Some(schema) => check::errors_within(d, file, entry.key, schema, path)->0,
                None => Seq::empty(),
            };
            if let Some(schema) = key_schema {
                lemma_paths(d, file, entry.key, schema, path);
            }
            lemma_below_both(path, in_key, in_value);
            assert(here =~= in_key + in_value);
        }
        assert(below(path, here));
        lemma_below_both(path, here, rest);
        assert(all =~= here + rest);
    }
}

/// Every error that is found is at the path of the value or below it.
pub proof fn law_paths(file: SchemaFile, value: Value, schema: Schema, path: Seq<char>)
    requires
        outcome::settled(file, value, schema, path),
    ensures
        below(path, outcome::errors(file, value, schema, path)),
{
    let d = choose|d: nat| #[trigger] check::errors_within(d, file, value, schema, path) is Some;
    lemma_paths(d, file, value, schema, path);
}

/// Two validations both go on, or both find as much.
pub open spec fn alike(a: Option<Seq<ErrorView>>, b: Option<Seq<ErrorView>>) -> bool {
    match (a, b) {
        (Some(x), Some(y)) => x.len() == y.len(),
        (None, None) => true,
        _ => false,
    }
}

/// See [`law_path_only_labels`].
proof fn lemma_alike(
    d: nat,
    file: SchemaFile,
    value: Value,
    schema: Schema,
    p: Seq<char>,
    q: Seq<char>,
)
    ensures
        alike(
            check::errors_within(d, file, value, schema, p),
            check::errors_within(d, file, value, schema, q),
        ),
    decreases d, 0nat,
{
    if d > 0 {
        let d1 = (d - 1) as nat;
        match schema {
            Schema::Type { name: Some(name) } => {
                if check::builtin(name@) is None {
                    if let Some(named) = file.schema.find(name@) {
                        lemma_alike(d1, file, value, named, p, q);
                    }
                }
            },
            Schema::Object(fields) => {
                if let Value::Object(o) = value {
                    if let Some(all) = fields::inlined(d1, file, fields.0) {
                        let list = all.fields;
                        lemma_alike_fields(d1, file, o.entries@, list, p, q, 0);
                        lemma_alike_missing(o.entries@, list, p, q, 0);
                    }
                }
            },
            Schema::Sequence(inner) => {
                if let Value::Sequence(s) = value {
                    if inner.0@.len() > 0 {
                        lemma_alike_items(d1, file, s.items@, inner.0@[0], p, q, 0);
                    }
                }
            },
            Schema::Union(variants) => {
                lemma_alike_variants(d1, file, value, variants.0@, p, q, 0);
            },
            Schema::Optional(inner) => {
                if inner.0@.len() > 0 {
                    lemma_alike(d1, file, value, inner.0@[0], p, q);
                }
            },
            Schema::Enum(variants) => {
                if let Value::Tagged(t) = value {
                    if let (Some(variant), Some(payload)) = (variants.0.find(t.tag@), t.payload) {
                        lemma_alike(
                            d1,
                            file,
                            *payload,
                            variant,
                            check::field_path(p, t.tag@),
                            check::field_path(q, t.tag@),
                        );
                    }
                }
            },
            Schema::Mapping(types) => {
                if let (Value::Object(o), Some((keys, values))) = (value, map_types(types)) {
                    lemma_alike_entries(d1, file, o.entries@, keys, values, p, q, 0);
                }
            },
            Schema::Flatten(inner) => {
                if inner.0@.len() > 0 {
                    lemma_alike(d1, file, value, inner.0@[0], p, q);
                }
            },
            _ => {},
        }
    }
}

/// See [`law_path_only_labels`].
proof fn lemma_alike_missing(
    entries: Seq<Entry>,
    all: Seq<Field>,
    p: Seq<char>,
    q: Seq<char>,
    j: nat,
)
    ensures
        check::missing_fields(entries, all, p, j).len() == check::missing_fields(
            entries,
            all,
            q,
            j,
        ).len(),
    decreases all.len() - j,
{
    if j < all.len() {
        lemma_alike_missing(entries, all, p, q, j + 1);
    }
}

/// See [`law_path_only_labels`].
proof fn lemma_alike_fields(
    d: nat,
    file: SchemaFile,
    entries: Seq<Entry>,
    all: Seq<Field>,
    p: Seq<char>,
    q: Seq<char>,
    i: nat,
)
    ensures
        alike(
            check::field_errors(d, file, entries, all, p, i),
            check::field_errors(d, file, entries, all, q, i),
        ),
    decreases d, entries.len() - i + 1,
{
    if i < entries.len() {
        let entry = entries[i as int];
        if let Some(name) = check::field_key(entry) {
            if let Some(schema) = check::field_schema(all, name) {
                lemma_alike(
                    d,
                    file,
                    entry.value,
                    schema,
                    check::field_path(p, name),
                    check::field_path(q, name),
                );
            }
        }
        lemma_alike_fields(d, file, entries, all, p, q, i + 1);
    }
}

/// See [`law_path_only_labels`].
proof fn lemma_alike_items(
    d: nat,
    file: SchemaFile,
    items: Seq<Value>,
    schema: Schema,
    p: Seq<char>,
    q: Seq<char>,
    i: nat,
)
    ensures
        alike(
            check::item_errors(d, file, items, schema, p, i),
            check::item_errors(d, file, items, schema, q, i),
        ),
    decreases d, items.len() - i + 1,
{
    if i < items.len() {
        lemma_alike(
            d,
            file,
            items[i as int],
            schema,
            check::item_path(p, i),
            check::item_path(q, i),
        );
        lemma_alike_items(d, file, items, schema, p, q, i + 1);
    }
}

/// See [`law_path_only_labels`].
proof fn lemma_alike_variants(
    d: nat,
    file: SchemaFile,
    value: Value,
    variants: Seq<Schema>,
    p: Seq<char>,
    q: Seq<char>,
    i: nat,
)
    ensures
        check::some_variant(d, file, value, variants, p, i) == check::some_variant(
            d,
            file,
            value,
            variants,
            q,
            i,
        ),
    decreases d, variants.len() - i + 1,
{
    if i < variants.len() {
        lemma_alike(d, file, value, variants[i as int], p, q);
        lemma_alike_variants(d, file, value, variants, p, q, i + 1);
    }
}

/// See [`law_path_only_labels`].
proof fn lemma_alike_entries(
    d: nat,
    file: SchemaFile,
    entries: Seq<Entry>,
    keys: Option<Schema>,
    values: Schema,
    p: Seq<char>,
    q: Seq<char>,
    i: nat,
)
    ensures
        alike(
            check::entry_errors(d, file, entries, keys, values, p, i),
            check::entry_errors(d, file, entries, keys, values, q, i),
        ),
    decreases d, entries.len() - i + 1,
{
    if i < entries.len() {
        let entry = entries[i as int];
        if let Some(name) = check::map_key(entry, keys is Some) {
            if let Some(schema) = keys {
                lemma_alike(d, file, entry.key, schema, p, q);
            }
            lemma_alike(
                d,
                file,
                entry.value,
                values,
                check::field_path(p, name),
                check::field_path(q, name),
            );
        }
        lemma_alike_entries(d, file, entries, keys, values, p, q, i + 1);
    }
}

/// The path at which a value is validated changes neither whether validation
/// comes to an end nor how many errors it finds.
pub proof fn law_path_only_labels(
    file: SchemaFile,
    value: Value,
    schema: Schema,
    p: Seq<char>,
    q: Seq<char>,
)
    requires
        outcome::settled(file, value, schema, p),
    ensures
        outcome::settled(file, value, schema, q),
        outcome::errors(file, value, schema, p).len() == outcome::errors(
            file,
            value,
            schema,
            q,
        ).len(),
{
    let d = choose|d: nat| #[trigger] check::errors_within(d, file, value, schema, p) is Some;
    lemma_alike(d, file, value, schema, p, q);
    outcome::lemma_errors(d, file, value, schema, p);
    outcome::lemma_errors(d, file, value, schema, q);
}

// --- documents ---

/// A document is validated as a value of the type `@`, where there is one.
pub proof fn law_document(file: SchemaFile, doc: Value)
    requires
        file.schema.find("@"@) is Some,
    ensures
        outcome::document_settled(file, doc) <==> outcome::type_settled(file, doc, "@"@),
        outcome::document_errors(file, doc) == outcome::type_errors(file, doc, "@"@),
{
}

} // verus!
