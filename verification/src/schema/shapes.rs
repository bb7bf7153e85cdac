//! Which values have a type at all.
use crate::schema::check;
use crate::schema::check::Builtin;
use crate::schema::error::KindView;
use crate::schema::fields;
use crate::schema::fields::{Field, Inlined};
use crate::schema::laws;
use crate::schema::laws::valid;
use crate::schema::names;
use crate::schema::names::NameMap;
use crate::schema::number;
use crate::schema::outcome;
use crate::schema::types::{EnumSchema, MapSchema, ObjectSchema, Schema, SchemaFile, UnionSchema};
use crate::schema::value::{Entry, Object, Tagged, Value};
use vstd::prelude::*;
use vstd::string::*;

verus! {

/// The only thing that is wrong with `value` is of this kind.
pub open spec fn only_error(
    file: SchemaFile,
    value: Value,
    schema: Schema,
    path: Seq<char>,
    kind: KindView,
) -> bool {
    let errors = outcome::errors(file, value, schema, path);
    &&& outcome::settled(file, value, schema, path)
    &&& errors.len() == 1
    &&& errors[0].kind == kind
    &&& errors[0].path == path
}

// --- sequences, objects and maps ---

/// A value that is no sequence is of no sequence type, one that is no object is
/// of no object type and of no map type, and one that is not tagged is of no
/// enum. That is the only thing that is wrong with it.
pub proof fn law_shapes(file: SchemaFile, value: Value, schema: Schema, path: Seq<char>)
    ensures
        schema is Sequence && !(value is Sequence) ==> !valid(file, value, schema, path)
            && only_error(file, value, schema, path, KindView::ExpectedSequence),
        (schema is Object || schema is Mapping) && !(value is Object) ==> !valid(
            file,
            value,
            schema,
            path,
        ) && only_error(file, value, schema, path, KindView::ExpectedObject),
        schema is Enum && !(value is Tagged) ==> !valid(file, value, schema, path) && only_error(
            file,
            value,
            schema,
            path,
            KindView::ExpectedTagged,
        ),
{
    if (schema is Sequence && !(value is Sequence)) || ((schema is Object || schema is Mapping)
        && !(value is Object)) || (schema is Enum && !(value is Tagged)) {
        assert(check::errors_within(1, file, value, schema, path) is Some);
        outcome::lemma_errors(1, file, value, schema, path);
    }
}

// --- scalars ---

/// The names of the types that every schema has.
proof fn lemma_builtins()
    ensures
        check::builtin("string"@) == Some(Builtin::Text),
        check::builtin("int"@) == Some(Builtin::Integer),
        check::builtin("integer"@) == Some(Builtin::Integer),
        check::builtin("float"@) == Some(Builtin::Float),
        check::builtin("number"@) == Some(Builtin::Float),
        check::builtin("bool"@) == Some(Builtin::Boolean),
        check::builtin("boolean"@) == Some(Builtin::Boolean),
        check::builtin("unit"@) == Some(Builtin::Unit),
        check::builtin("any"@) == Some(Builtin::Any),
        forall|name: Seq<char>|
            name != "string"@ && name != "int"@ && name != "integer"@ && name != "float"@ && name
                != "number"@ && name != "bool"@ && name != "boolean"@ && name != "unit"@ && name
                != "any"@ ==> (#[trigger] check::builtin(name)) is None,
{
    reveal_strlit("string");
    reveal_strlit("int");
    reveal_strlit("integer");
    reveal_strlit("float");
    reveal_strlit("number");
    reveal_strlit("bool");
    reveal_strlit("boolean");
    reveal_strlit("unit");
    reveal_strlit("any");
    assert("number"@[0] == 'n' && "string"@[0] == 's');
    assert("boolean"@[0] == 'b' && "integer"@[0] == 'i');
    assert("unit"@[0] == 'u' && "bool"@[0] == 'b');
    assert("any"@[0] == 'a' && "int"@[0] == 'i');
}

/// A value is of a literal type exactly where it is a scalar that says the
/// literal. What is wrong with another scalar is its value, and with any other
/// value that it is no scalar.
pub proof fn law_literal(file: SchemaFile, value: Value, literal: String, path: Seq<char>)
    ensures
        outcome::settled(file, value, Schema::Literal(literal), path),
        valid(file, value, Schema::Literal(literal), path) <==> (value matches Value::Scalar(s)
            && s.text@ == literal@),
        !(value is Scalar) ==> only_error(
            file,
            value,
            Schema::Literal(literal),
            path,
            KindView::ExpectedScalar,
        ),
{
    outcome::lemma_errors(1, file, value, Schema::Literal(literal), path);
}

/// A value is of the type without a name exactly where it is unit, and so it is
/// of the type `@unit`.
pub proof fn law_unit(file: SchemaFile, value: Value, name: Option<String>, path: Seq<char>)
    requires
        name matches Some(n) ==> n@ == "unit"@,
    ensures
        outcome::settled(file, value, Schema::Type { name }, path),
        valid(file, value, Schema::Type { name }, path) <==> value is Unit,
{
    lemma_builtins();
    outcome::lemma_errors(1, file, value, Schema::Type { name }, path);
}

/// Every scalar, and nothing else, is of the type `@string`.
pub proof fn law_string(file: SchemaFile, value: Value, name: String, path: Seq<char>)
    requires
        name@ == "string"@,
    ensures
        valid(file, value, Schema::Type { name: Some(name) }, path) <==> value is Scalar,
        !(value is Scalar) ==> only_error(
            file,
            value,
            Schema::Type { name: Some(name) },
            path,
            KindView::ExpectedScalar,
        ),
{
    lemma_builtins();
    outcome::lemma_errors(1, file, value, Schema::Type { name: Some(name) }, path);
}

/// The scalars that say `true` or `false`, and nothing else, are of the types
/// `@bool` and `@boolean`.
pub proof fn law_boolean(file: SchemaFile, value: Value, name: String, path: Seq<char>)
    requires
        name@ == "bool"@ || name@ == "boolean"@,
    ensures
        valid(file, value, Schema::Type { name: Some(name) }, path) <==> (value matches Value::Scalar(
            s,
        ) && (s.text@ == "true"@ || s.text@ == "false"@)),
        !(value is Scalar) ==> only_error(
            file,
            value,
            Schema::Type { name: Some(name) },
            path,
            KindView::ExpectedScalar,
        ),
{
    lemma_builtins();
    outcome::lemma_errors(1, file, value, Schema::Type { name: Some(name) }, path);
}

/// The scalars that write an integer, and nothing else, are of the types `@int`
/// and `@integer`; those that write a number, and nothing else, are of the types
/// `@float` and `@number`.
pub proof fn law_numbers(file: SchemaFile, value: Value, name: String, path: Seq<char>)
    requires
        name@ == "int"@ || name@ == "integer"@ || name@ == "float"@ || name@ == "number"@,
    ensures
        valid(file, value, Schema::Type { name: Some(name) }, path) <==> (value matches Value::Scalar(
            s,
        ) && if name@ == "int"@ || name@ == "integer"@ {
            number::is_integer(s.text@)
        } else {
            number::is_float(s.text@)
        }),
        !(value is Scalar) ==> only_error(
            file,
            value,
            Schema::Type { name: Some(name) },
            path,
            KindView::ExpectedScalar,
        ),
{
    lemma_builtins();
    reveal_strlit("int");
    reveal_strlit("integer");
    reveal_strlit("float");
    reveal_strlit("number");
    outcome::lemma_errors(1, file, value, Schema::Type { name: Some(name) }, path);
}

// --- schemas that are wrong ---

/// No value is of a type that the schema does not define, of a sequence type
/// without the type of its elements, of a union of nothing, of a map type without
/// the type of its values or with more than two types, or of a flattened type that
/// is not given. A field that may be absent and has no type may have any value.
pub proof fn law_incomplete(file: SchemaFile, value: Value, schema: Schema, path: Seq<char>)
    ensures
        schema matches Schema::Type { name: Some(name) } ==> file.schema.find(name@) is None
            && name@ != "string"@ && name@ != "int"@ && name@ != "integer"@ && name@ != "float"@
            && name@ != "number"@ && name@ != "bool"@ && name@ != "boolean"@ && name@ != "unit"@
            && name@ != "any"@ ==> only_error(
            file,
            value,
            schema,
            path,
            KindView::UnknownType { name: name@ },
        ),
        schema matches Schema::Sequence(inner) ==> inner.0@.len() == 0 ==> !valid(
            file,
            value,
            schema,
            path,
        ),
        schema matches Schema::Union(inner) ==> inner.0@.len() == 0 ==> !valid(
            file,
            value,
            schema,
            path,
        ),
        schema matches Schema::Mapping(inner) ==> inner.0@.len() == 0 || inner.0@.len() > 2
            ==> !valid(file, value, schema, path),
        schema matches Schema::Flatten(inner) ==> inner.0@.len() == 0 ==> !valid(
            file,
            value,
            schema,
            path,
        ),
        schema matches Schema::Optional(inner) ==> inner.0@.len() == 0 ==> valid(
            file,
            value,
            schema,
            path,
        ),
{
    lemma_builtins();
    if check::errors_within(1, file, value, schema, path) is Some {
        outcome::lemma_errors(1, file, value, schema, path);
    }
}

// --- objects without flattened types ---

/// The fields of an object type that flattens nothing are those that it names.
proof fn lemma_own_fields(d: nat, file: SchemaFile, own: NameMap<Schema>, all: Inlined, j: nat)
    requires
        j <= own.names().len(),
        forall|i: int| 0 <= i < own.values().len() ==> !(#[trigger] own.values()[i] is Flatten),
        all.broken.len() == 0,
        all.fields.len() == j,
        forall|i: int|
            0 <= i < j ==> #[trigger] all.fields[i] == (own.names()[i], own.values()[i]),
    ensures
        fields::inlined_from(d, file, own, all, j) matches Some(found) && {
            &&& found.broken.len() == 0
            &&& found.fields.len() == own.names().len()
            &&& forall|i: int|
                0 <= i < own.names().len() ==> #[trigger] found.fields[i] == (
                    own.names()[i],
                    own.values()[i],
                )
        },
    decreases own.names().len() - j,
{
    own.lemma_values();
    if j < own.names().len() {
        let field = (own.names()[j as int], own.values()[j as int]);
        lemma_own_fields(d, file, own, fields::with_field(all, field), j + 1);
    }
}

/// What is found among the fields of an object type that flattens nothing.
proof fn lemma_find_own(own: NameMap<Schema>, all: Seq<Field>, name: Seq<char>, i: nat)
    requires
        i <= all.len(),
        all.len() == own.names().len(),
        forall|k: int|
            0 <= k < all.len() ==> #[trigger] all[k] == (own.names()[k], own.values()[k]),
    ensures
        ({
            let p = names::place(own.names(), name, i);
            fields::find(all, name, i) == if p < own.names().len() {
                Some(own.values()[p as int])
            } else {
                None
            }
        }),
    decreases all.len() - i,
{
    if i < all.len() {
        assert(all[i as int] == (own.names()[i as int], own.values()[i as int]));
        lemma_find_own(own, all, name, i + 1);
    }
}

/// The entry is the field `name`: its key is a scalar that says so, or the unit
/// `@` where that is the name.
pub open spec fn is_field(entry: Entry, name: Seq<char>) -> bool {
    match entry.key {
        Value::Scalar(s) => s.text@ == name,
        Value::Unit => name == "@"@,
        _ => false,
    }
}

/// The path of the field `name` of what is at `path`.
pub open spec fn path_to(path: Seq<char>, name: Seq<char>) -> Seq<char> {
    if path.len() == 0 {
        name
    } else {
        path + "."@ + name
    }
}

/// What is wrong with the value of the entry can be told, if it is a field.
pub open spec fn entry_told(
    file: SchemaFile,
    entry: Entry,
    own: NameMap<Schema>,
    path: Seq<char>,
) -> bool {
    forall|name: Seq<char>, other: Seq<char>|
        #![trigger is_field(entry, name), own.find(other)]
        is_field(entry, name) && (other == name || other == "@"@) ==> (own.find(
            other,
        ) matches Some(schema) ==> outcome::settled(
            file,
            entry.value,
            schema,
            path_to(path, name),
        ))
}

/// Nothing is wrong with the entry as one of the fields `own`: there is a field
/// of its name, or one that stands for all others, whose type its value has.
pub open spec fn entry_allowed(
    file: SchemaFile,
    entry: Entry,
    own: NameMap<Schema>,
    path: Seq<char>,
) -> bool {
    exists|name: Seq<char>| #[trigger]
        is_field(entry, name) && {
            let at = path_to(path, name);
            match own.find(name) {
                Some(schema) => valid(file, entry.value, schema, at),
                None => own.find("@"@) matches Some(schema) && valid(
                    file,
                    entry.value,
                    schema,
                    at,
                ),
            }
        }
}

/// The field number `j` is there, may be absent, or stands for all others.
pub open spec fn field_given(entries: Seq<Entry>, own: NameMap<Schema>, j: int) -> bool {
    ||| own.names()[j] == "@"@
    ||| own.values()[j] is Optional
    ||| exists|i: int|
        0 <= i < entries.len() && is_field(#[trigger] entries[i], own.names()[j])
}

/// An object is of an object type that flattens nothing exactly where each entry
/// is one of its fields and has a value of the type of the field, and each of its
/// fields is there, but for those that may be absent and the one that stands for
/// all others.
pub proof fn law_fields(file: SchemaFile, object: Object, own: NameMap<Schema>, path: Seq<char>)
    requires
        forall|i: int| 0 <= i < own.values().len() ==> !(#[trigger] own.values()[i] is Flatten),
        forall|k: int|
            0 <= k < object.entries@.len() ==> entry_told(
                file,
                #[trigger] object.entries@[k],
                own,
                path,
            ),
    ensures
        outcome::settled(file, Value::Object(object), Schema::Object(ObjectSchema(own)), path),
        valid(file, Value::Object(object), Schema::Object(ObjectSchema(own)), path) <==> {
            &&& forall|k: int|
                0 <= k < object.entries@.len() ==> entry_allowed(
                    file,
                    #[trigger] object.entries@[k],
                    own,
                    path,
                )
            &&& forall|j: int|
                0 <= j < own.names().len() ==> #[trigger] field_given(object.entries@, own, j)
        },
{
    let entries = object.entries@;
    lemma_own_fields(1, file, own, fields::no_fields(), 0);
    fields::lemma_all_of(1, file, own);
    let all = fields::all_of(file, own).fields;
    own.lemma_values();
    assert forall|k: int| 0 <= k < entries.len() implies laws::field_settled(
        file,
        #[trigger] entries[k],
        all,
        path,
    ) by {
        let entry = entries[k];
        assert(entry_told(file, entry, own, path));
        lemma_find_own(own, all, "@"@, 0);
        if let Some(name) = check::field_key(entry) {
            lemma_find_own(own, all, name, 0);
            assert(is_field(entry, name));
            assert(own.find(name) == own.find(name) && own.find("@"@) == own.find("@"@));
        }
    }
    laws::law_object(file, object, ObjectSchema(own), path);
    assert forall|k: int| 0 <= k < entries.len() implies (laws::field_valid(
        file,
        #[trigger] entries[k],
        all,
        path,
    ) <==> entry_allowed(file, entries[k], own, path)) by {
        let entry = entries[k];
        lemma_find_own(own, all, "@"@, 0);
        if let Some(name) = check::field_key(entry) {
            lemma_find_own(own, all, name, 0);
            assert(is_field(entry, name));
            assert(forall|other: Seq<char>| is_field(entry, other) ==> other == name);
        } else {
            assert(forall|other: Seq<char>| !is_field(entry, other));
        }
    }
    assert forall|j: int| 0 <= j < own.names().len() implies (#[trigger] laws::field_present(
        entries,
        all,
        j,
    ) <==> field_given(entries, own, j)) by {
        assert(all[j] == (own.names()[j], own.values()[j]));
        let name = own.names()[j];
        assert forall|i: int| 0 <= i < entries.len() implies (is_field(#[trigger] entries[i], name)
            <==> check::field_key(entries[i]) == Some(name)) by {}
    }
    if forall|k: int|
        0 <= k < entries.len() ==> entry_allowed(file, #[trigger] entries[k], own, path) {
        assert forall|k: int| 0 <= k < entries.len() implies laws::field_valid(
            file,
            #[trigger] entries[k],
            all,
            path,
        ) by {
            assert(entry_allowed(file, entries[k], own, path));
        }
    }
    if forall|j: int|
        0 <= j < own.names().len() ==> #[trigger] field_given(entries, own, j) {
        assert forall|j: int| 0 <= j < all.len() implies #[trigger] laws::field_present(
            entries,
            all,
            j,
        ) by {
            assert(field_given(entries, own, j));
        }
    }
    if valid(file, Value::Object(object), Schema::Object(ObjectSchema(own)), path) {
        assert forall|k: int| 0 <= k < entries.len() implies entry_allowed(
            file,
            #[trigger] entries[k],
            own,
            path,
        ) by {
            assert(laws::field_valid(file, entries[k], all, path));
        }
        assert forall|j: int| 0 <= j < own.names().len() implies #[trigger] field_given(
            entries,
            own,
            j,
        ) by {
            assert(laws::field_present(entries, all, j));
        }
    }
}

/// Among what is wrong with `value`, there is this at `at`.
pub open spec fn has_error(
    file: SchemaFile,
    value: Value,
    schema: Schema,
    path: Seq<char>,
    at: Seq<char>,
    kind: KindView,
) -> bool {
    exists|i: int|
        0 <= i < outcome::errors(file, value, schema, path).len() && (#[trigger] outcome::errors(
            file,
            value,
            schema,
            path,
        )[i]).kind == kind && outcome::errors(file, value, schema, path)[i].path == at
}

/// A field from number `j` on that must be there and is not is among those that
/// are missing.
proof fn lemma_missing_one(entries: Seq<Entry>, all: Seq<Field>, path: Seq<char>, j: nat, k: nat)
    -> (i: int)
    requires
        j <= k < all.len(),
        !laws::field_present(entries, all, k as int),
    ensures
        0 <= i < check::missing_fields(entries, all, path, j).len(),
        check::missing_fields(entries, all, path, j)[i].kind == (KindView::MissingField {
            field: all[k as int].0,
        }),
        check::missing_fields(entries, all, path, j)[i].path == path_to(path, all[k as int].0),
    decreases k - j,
{
    let here = check::missing_fields(entries, all, path, j);
    if j == k {
        0
    } else {
        let rest = check::missing_fields(entries, all, path, j + 1);
        let i = lemma_missing_one(entries, all, path, j + 1, k);
        if here.len() == rest.len() {
            assert(here == rest);
            i
        } else {
            assert(here[i + 1] == rest[i]);
            i + 1
        }
    }
}

/// An entry from number `j` on whose key names no field is among what is wrong.
proof fn lemma_unknown_one(
    d: nat,
    file: SchemaFile,
    entries: Seq<Entry>,
    all: Seq<Field>,
    path: Seq<char>,
    j: nat,
    k: nat,
    name: Seq<char>,
) -> (i: int)
    requires
        j <= k < entries.len(),
        check::field_errors(d, file, entries, all, path, j) is Some,
        is_field(entries[k as int], name),
        check::field_schema(all, name) is None,
    ensures
        0 <= i < check::field_errors(d, file, entries, all, path, j)->0.len(),
        check::field_errors(d, file, entries, all, path, j)->0[i].kind == (KindView::UnknownField {
            field: name,
        }),
        check::field_errors(d, file, entries, all, path, j)->0[i].path == path_to(path, name),
    decreases k - j,
{
    let all_errors = check::field_errors(d, file, entries, all, path, j)->0;
    let rest = check::field_errors(d, file, entries, all, path, j + 1)->0;
    let n = all_errors.len() - rest.len();
    if j == k {
        0
    } else {
        let i = lemma_unknown_one(d, file, entries, all, path, j + 1, k, name);
        assert(all_errors[n + i] == rest[i]);
        n + i
    }
}

/// A field that must be there and is not is an error, and so is an entry whose key
/// names no field, where no field stands for all others.
pub proof fn law_field_errors(
    file: SchemaFile,
    object: Object,
    own: NameMap<Schema>,
    path: Seq<char>,
)
    requires
        forall|i: int| 0 <= i < own.values().len() ==> !(#[trigger] own.values()[i] is Flatten),
        forall|k: int|
            0 <= k < object.entries@.len() ==> entry_told(
                file,
                #[trigger] object.entries@[k],
                own,
                path,
            ),
    ensures
        forall|j: int|
            0 <= j < own.names().len() && !(#[trigger] field_given(object.entries@, own, j))
                ==> has_error(
                file,
                Value::Object(object),
                Schema::Object(ObjectSchema(own)),
                path,
                path_to(path, own.names()[j]),
                KindView::MissingField { field: own.names()[j] },
            ),
        forall|k: int, name: Seq<char>|
            0 <= k < object.entries@.len() && #[trigger] is_field(object.entries@[k], name)
                && own.find(name) is None && own.find("@"@) is None ==> has_error(
                file,
                Value::Object(object),
                Schema::Object(ObjectSchema(own)),
                path,
                path_to(path, name),
                KindView::UnknownField { field: name },
            ),
{
    let entries = object.entries@;
    let value = Value::Object(object);
    let schema = Schema::Object(ObjectSchema(own));
    law_fields(file, object, own, path);
    let depth = choose|depth: nat| #[trigger]
        check::errors_within(depth, file, value, schema, path) is Some;
    outcome::lemma_errors(depth, file, value, schema, path);
    let d = (depth - 1) as nat;
    lemma_own_fields(d, file, own, fields::no_fields(), 0);
    let all = fields::inlined(d, file, own)->0.fields;
    let errors = outcome::errors(file, value, schema, path);
    let first = check::field_errors(d, file, entries, all, path, 0)->0;
    let missing = check::missing_fields(entries, all, path, 0);
    own.lemma_values();
    assert forall|j: int|
        0 <= j < own.names().len() && !(#[trigger] field_given(entries, own, j)) implies has_error(
        file,
        value,
        schema,
        path,
        path_to(path, own.names()[j]),
        KindView::MissingField { field: own.names()[j] },
    ) by {
        assert(all[j] == (own.names()[j], own.values()[j]));
        let name = own.names()[j];
        assert forall|i: int| 0 <= i < entries.len() implies (is_field(#[trigger] entries[i], name)
            <==> check::field_key(entries[i]) == Some(name)) by {}
        assert(!laws::field_present(entries, all, j));
        let i = lemma_missing_one(entries, all, path, 0, j as nat);
        assert(errors[first.len() + i] == missing[i]);
    }
    assert forall|k: int, name: Seq<char>|
        0 <= k < entries.len() && #[trigger] is_field(entries[k], name) && own.find(name) is None
            && own.find("@"@) is None implies has_error(
        file,
        value,
        schema,
        path,
        path_to(path, name),
        KindView::UnknownField { field: name },
    ) by {
        lemma_find_own(own, all, "@"@, 0);
        lemma_find_own(own, all, name, 0);
        let i = lemma_unknown_one(d, file, entries, all, path, 0, k as nat, name);
        assert(errors[i] == first[i]);
    }
}

// --- enums and unions ---

/// A tag without a payload is of an enum exactly where the type of its variant is
/// unit. What is wrong with another one is that the payload is missing, and with a
/// tag that names no variant that it does not.
pub proof fn law_variants(file: SchemaFile, tagged: Tagged, variants: EnumSchema, path: Seq<char>)
    ensures
        tagged.payload is None ==> (valid(
            file,
            Value::Tagged(tagged),
            Schema::Enum(variants),
            path,
        ) <==> (variants.0.find(tagged.tag@) matches Some(Schema::Type { name }) && match name {
            Some(n) => n@ == "unit"@,
            None => true,
        })),
        variants.0.find(tagged.tag@) is None ==> only_error(
            file,
            Value::Tagged(tagged),
            Schema::Enum(variants),
            path,
            KindView::InvalidVariant { expected: variants.0.names(), got: tagged.tag@ },
        ),
        tagged.payload is None ==> (variants.0.find(tagged.tag@) matches Some(variant) ==> variant !is
            Type ==> only_error(
            file,
            Value::Tagged(tagged),
            Schema::Enum(variants),
            path,
            KindView::TypeMismatch { expected: check::schema_type_name(variant), got: "unit"@ },
        )),
{
    let value = Value::Tagged(tagged);
    let schema = Schema::Enum(variants);
    if tagged.payload is None || variants.0.find(tagged.tag@) is None {
        assert(check::errors_within(1, file, value, schema, path) is Some);
        outcome::lemma_errors(1, file, value, schema, path);
    }
}

/// A value that is of none of the types of a union has that one error, which names
/// every type that was tried.
pub proof fn law_union_error(file: SchemaFile, value: Value, union: UnionSchema, path: Seq<char>)
    requires
        union.0@.len() > 0,
        forall|k: int|
            0 <= k < union.0@.len() ==> outcome::settled(file, value, #[trigger] union.0@[k], path)
                && !valid(file, value, union.0@[k], path),
    ensures
        ({
            let errors = outcome::errors(file, value, Schema::Union(union), path);
            &&& errors.len() == 1
            &&& errors[0].path == path
            &&& errors[0].kind matches KindView::UnionMismatch { tried } && tried.len()
                == union.0@.len() && forall|k: int|
                0 <= k < tried.len() ==> #[trigger] tried[k] == check::schema_type_name(
                    union.0@[k],
                )
        }),
{
    laws::law_union(file, value, union, path);
    let schema = Schema::Union(union);
    let depth = choose|depth: nat| #[trigger]
        check::errors_within(depth, file, value, schema, path) is Some;
    outcome::lemma_errors(depth, file, value, schema, path);
}

// --- maps ---

/// What is wrong with the key and the value of an entry of a map can be told.
pub open spec fn pair_told(
    file: SchemaFile,
    entry: Entry,
    key_schema: Option<Schema>,
    value_schema: Schema,
    path: Seq<char>,
) -> bool {
    &&& key_schema matches Some(schema) ==> outcome::settled(file, entry.key, schema, path)
    &&& forall|name: Seq<char>| #[trigger]
        is_field(entry, name) ==> outcome::settled(
            file,
            entry.value,
            value_schema,
            path_to(path, name),
        )
}

/// The key of an entry of a map is a scalar or, where the keys have a type, unit,
/// and of that type, and its value is of the type of the values.
pub open spec fn pair_allowed(
    file: SchemaFile,
    entry: Entry,
    key_schema: Option<Schema>,
    value_schema: Schema,
    path: Seq<char>,
) -> bool {
    &&& match key_schema {
        Some(schema) => valid(file, entry.key, schema, path),
        None => entry.key is Scalar,
    }
    &&& exists|name: Seq<char>| #[trigger]
        is_field(entry, name) && valid(file, entry.value, value_schema, path_to(path, name))
}

/// An object is of a map type exactly where each of its entries is allowed.
pub proof fn law_map_entries(
    file: SchemaFile,
    object: Object,
    types: MapSchema,
    key_schema: Option<Schema>,
    value_schema: Schema,
    path: Seq<char>,
)
    requires
        match key_schema {
            Some(schema) => types.0@ == seq![schema, value_schema],
            None => types.0@ == seq![value_schema],
        },
        forall|k: int|
            0 <= k < object.entries@.len() ==> pair_told(
                file,
                #[trigger] object.entries@[k],
                key_schema,
                value_schema,
                path,
            ),
    ensures
        valid(file, Value::Object(object), Schema::Mapping(types), path) <==> forall|k: int|
            0 <= k < object.entries@.len() ==> pair_allowed(
                file,
                #[trigger] object.entries@[k],
                key_schema,
                value_schema,
                path,
            ),
{
    let entries = object.entries@;
    assert(laws::map_types(types) == Some((key_schema, value_schema)));
    assert forall|k: int| 0 <= k < entries.len() implies laws::entry_settled(
        file,
        #[trigger] entries[k],
        key_schema,
        value_schema,
        path,
    ) by {
        assert(pair_told(file, entries[k], key_schema, value_schema, path));
        if let Some(name) = check::map_key(entries[k], key_schema is Some) {
            assert(is_field(entries[k], name));
        }
    }
    laws::law_map(file, object, types, path);
    assert forall|k: int| 0 <= k < entries.len() implies (laws::entry_valid(
        file,
        #[trigger] entries[k],
        key_schema,
        value_schema,
        path,
    ) <==> pair_allowed(file, entries[k], key_schema, value_schema, path)) by {
        let entry = entries[k];
        if let Some(name) = check::map_key(entry, key_schema is Some) {
            assert(is_field(entry, name));
            assert(forall|other: Seq<char>| is_field(entry, other) ==> other == name);
        } else if key_schema is Some {
            assert(forall|other: Seq<char>| !is_field(entry, other));
        }
    }
    if forall|k: int|
        0 <= k < entries.len() ==> pair_allowed(
            file,
            #[trigger] entries[k],
            key_schema,
            value_schema,
            path,
        ) {
        assert forall|k: int| 0 <= k < entries.len() implies laws::entry_valid(
            file,
            #[trigger] entries[k],
            key_schema,
            value_schema,
            path,
        ) by {
            assert(pair_allowed(file, entries[k], key_schema, value_schema, path));
        }
    }
    if valid(file, Value::Object(object), Schema::Mapping(types), path) {
        assert forall|k: int| 0 <= k < entries.len() implies pair_allowed(
            file,
            #[trigger] entries[k],
            key_schema,
            value_schema,
            path,
        ) by {
            assert(laws::entry_valid(file, entries[k], key_schema, value_schema, path));
        }
    }
}

// --- what is said ---

/// What kind of value this is, in a word.
pub open spec fn said_of(value: Value) -> Seq<char> {
    match value {
        Value::Unit => seq!['u', 'n', 'i', 't'],
        Value::Scalar(_) => seq!['s', 'c', 'a', 'l', 'a', 'r'],
        Value::Tagged(_) => seq!['t', 'a', 'g', 'g', 'e', 'd'],
        Value::Object(_) => seq!['o', 'b', 'j', 'e', 'c', 't'],
        Value::Sequence(_) => seq!['s', 'e', 'q', 'u', 'e', 'n', 'c', 'e'],
    }
}

/// What is wrong with `value`, in words.
pub open spec fn first_message(
    file: SchemaFile,
    value: Value,
    schema: Schema,
    path: Seq<char>,
) -> Seq<char> {
    outcome::errors(file, value, schema, path)[0].message
}

/// The word for a kind of value.
proof fn lemma_said_of(value: Value)
    ensures
        check::value_type_name(value) == said_of(value),
{
    reveal_strlit("unit");
    reveal_strlit("scalar");
    reveal_strlit("tagged");
    reveal_strlit("object");
    reveal_strlit("sequence");
    assert(check::value_type_name(value) =~= said_of(value));
}

/// Where a value is of another kind than its type, the error says which kind was
/// expected and which one the value is of.
pub proof fn law_shape_messages(file: SchemaFile, value: Value, schema: Schema, path: Seq<char>)
    ensures
        schema is Sequence && !(value is Sequence) ==> first_message(file, value, schema, path)
            == "expected sequence, got "@ + said_of(value),
        schema is Object && !(value is Object) ==> first_message(file, value, schema, path)
            == "expected object, got "@ + said_of(value),
        schema is Mapping && !(value is Object) ==> first_message(file, value, schema, path)
            == "expected map (object), got "@ + said_of(value),
        schema is Enum && value is Unit ==> first_message(file, value, schema, path)
            == "expected tagged value for enum"@,
        schema is Enum && !(value is Tagged) && !(value is Unit) ==> first_message(
            file,
            value,
            schema,
            path,
        ) == "expected tagged value for enum, got "@ + said_of(value),
{
    lemma_said_of(value);
    if (schema is Sequence && !(value is Sequence)) || ((schema is Object || schema is Mapping)
        && !(value is Object)) || (schema is Enum && !(value is Tagged)) {
        assert(check::errors_within(1, file, value, schema, path) is Some);
        outcome::lemma_errors(1, file, value, schema, path);
    }
}

/// A scalar that is of none of the types for numbers and truth values is quoted in
/// the error, with the place that it has in the source.
pub proof fn law_scalar_messages(file: SchemaFile, value: Value, name: String, path: Seq<char>)
    requires
        name@ == "int"@ || name@ == "integer"@ || name@ == "float"@ || name@ == "number"@ || name@
            == "bool"@ || name@ == "boolean"@,
        !valid(file, value, Schema::Type { name: Some(name) }, path),
    ensures
        ({
            let schema = Schema::Type { name: Some(name) };
            let word = if name@ == "int"@ || name@ == "integer"@ {
                "integer"@
            } else if name@ == "float"@ || name@ == "number"@ {
                "number"@
            } else {
                "boolean"@
            };
            &&& outcome::errors(file, value, schema, path).len() == 1
            &&& outcome::errors(file, value, schema, path)[0].path == path
            &&& match value {
                Value::Scalar(s) => {
                    &&& outcome::errors(file, value, schema, path)[0].span == s.span
                    &&& outcome::errors(file, value, schema, path)[0].kind == (
                    KindView::InvalidValue { reason: "not a valid "@ + word })
                    &&& ("'"@ + s.text@ + "' is not a valid "@ + word).is_prefix_of(
                        first_message(file, value, schema, path),
                    )
                },
                _ => first_message(file, value, schema, path) == "expected "@ + word + ", got "@
                    + said_of(value),
            }
        }),
{
    lemma_said_of(value);
    lemma_builtins();
    reveal_strlit("int");
    reveal_strlit("integer");
    reveal_strlit("float");
    reveal_strlit("number");
    reveal_strlit("bool");
    reveal_strlit("boolean");
    assert("bool"@[0] == 'b' && "boolean"@[0] == 'b');
    assert("int"@[0] == 'i' && "integer"@[0] == 'i');
    assert("float"@[0] == 'f' && "number"@[0] == 'n');
    outcome::lemma_errors(1, file, value, Schema::Type { name: Some(name) }, path);
}

} // verus!
