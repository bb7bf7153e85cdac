//! Validates values against schemas.
use crate::schema::check;
use crate::schema::check::Builtin;
use crate::schema::error::{
    ErrorView, ValidationError, ValidationErrorKind, ValidationResult,
};
use crate::schema::error;
use crate::schema::fields;
use crate::schema::fields::FieldRef;
use crate::schema::names::NameMap;
use crate::schema::number;
use crate::schema::outcome;
use crate::schema::types::{
    EnumSchema, FlattenSchema, MapSchema, ObjectSchema, OptionalSchema, Schema, SchemaFile,
    SeqSchema, UnionSchema,
};
use crate::schema::value::{Entry, Value};
use crate::text;
use vstd::prelude::*;
use vstd::string::*;

verus! {

// --- texts ---

/// Two texts in a row.
fn text2(a: &str, b: &str) -> (r: String)
    ensures
        r@ == a@ + b@,
{
    let mut r = String::from_str(a);
    r.append(b);
    r
}

/// Three texts in a row.
fn text3(a: &str, b: &str, c: &str) -> (r: String)
    ensures
        r@ == a@ + b@ + c@,
{
    let mut r = text2(a, b);
    r.append(c);
    r
}

/// Five texts in a row.
fn text5(a: &str, b: &str, c: &str, d: &str, e: &str) -> (r: String)
    ensures
        r@ == a@ + b@ + c@ + d@ + e@,
{
    let mut r = text3(a, b, c);
    r.append(d);
    r.append(e);
    r
}

/// What kind of value this is.
pub fn value_type_name(value: &Value) -> (name: &'static str)
    ensures
        name@ == check::value_type_name(*value),
{
    match value {
        Value::Scalar(_) => "scalar",
        Value::Unit => "unit",
        Value::Tagged(_) => "tagged",
        Value::Sequence(_) => "sequence",
        Value::Object(_) => "object",
    }
}

/// What kind of schema this is.
pub fn schema_type_name(schema: &Schema) -> (name: String)
    ensures
        name@ == check::schema_type_name(*schema),
{
    match schema {
        Schema::Literal(s) => text3("literal(", s.as_str(), ")"),
        Schema::Type { name: None } => "unit".to_owned(),
        Schema::Type { name: Some(n) } => n.clone(),
        Schema::Object(_) => "object".to_owned(),
        Schema::Sequence(_) => "seq".to_owned(),
        Schema::Union(_) => "union".to_owned(),
        Schema::Optional(_) => "optional".to_owned(),
        Schema::Enum(_) => "enum".to_owned(),
        Schema::Mapping(_) => "map".to_owned(),
        Schema::Flatten(_) => "flatten".to_owned(),
    }
}

/// The names of schemas.
fn schema_type_names(schemas: &Vec<Schema>) -> (names: Vec<String>)
    ensures
        error::texts(names@) == check::schema_type_names(schemas@),
{
    let mut names: Vec<String> = Vec::new();
    let mut i: usize = 0;
    assert(error::texts(names@) =~= check::schema_type_names(schemas@.take(0)));
    while i < schemas.len()
        invariant
            i <= schemas@.len(),
            error::texts(names@) == check::schema_type_names(schemas@.take(i as int)),
        decreases schemas@.len() - i,
    {
        let ghost before = names@;
        let name = schema_type_name(&schemas[i]);
        names.push(name);
        i += 1;
        assert(error::texts(names@) =~= error::texts(before).push(name@));
        assert(check::schema_type_names(schemas@.take(i as int)) =~= check::schema_type_names(
            schemas@.take(i - 1),
        ).push(check::schema_type_name(schemas@[i - 1])));
    }
    assert(schemas@.take(i as int) =~= schemas@);
    names
}

/// Names in a row, with a comma and a space between them.
fn listed(names: &Vec<String>) -> (r: String)
    ensures
        r@ == check::listed(error::texts(names@)),
{
    let mut r = String::new();
    let mut i: usize = 0;
    let ghost all = error::texts(names@);
    assert(all.take(0) =~= Seq::<Seq<char>>::empty());
    while i < names.len()
        invariant
            i <= names@.len(),
            all == error::texts(names@),
            r@ == check::listed(all.take(i as int)),
        decreases names@.len() - i,
    {
        proof {
            assert(all.take(i + 1).drop_last() =~= all.take(i as int));
            assert(all.take(i + 1).last() == names@[i as int]@);
        }
        if i == 0 {
            r = names[i].clone();
        } else {
            r.append(", ");
            r.append(names[i].as_str());
        }
        i += 1;
    }
    assert(all.take(i as int) =~= all);
    r
}

/// The names of a map.
fn names_of(map: &NameMap<Schema>) -> (names: Vec<String>)
    ensures
        error::texts(names@) == map.names(),
{
    let mut names: Vec<String> = Vec::new();
    let mut i: usize = 0;
    assert(error::texts(names@) =~= map.names().take(0));
    while i < map.len()
        invariant
            i <= map.names().len(),
            error::texts(names@) == map.names().take(i as int),
        decreases map.names().len() - i,
    {
        let ghost before = names@;
        let name = map.name_at(i).to_owned();
        names.push(name);
        i += 1;
        assert(error::texts(names@) =~= error::texts(before).push(name@));
        assert(map.names().take(i as int) =~= map.names().take(i - 1).push(map.names()[i - 1]));
    }
    assert(map.names().take(i as int) =~= map.names());
    names
}

/// The path of the field `key` of the object at `path`.
fn field_path(path: &str, key: &str) -> (r: String)
    ensures
        r@ == check::field_path(path@, key@),
{
    if path.is_empty() {
        key.to_owned()
    } else {
        text3(path, ".", key)
    }
}

/// The path of the element number `i` of the sequence at `path`.
fn item_path(path: &str, i: usize) -> (r: String)
    ensures
        r@ == check::item_path(path@, i as nat),
{
    let mut r = String::from_str(path);
    r.append("[");
    number::push_decimal(i, &mut r);
    r.append("]");
    r
}

/// The name of the field that an entry is, if its key is a scalar or unit.
fn field_key(entry: &Entry) -> (name: Option<&str>)
    ensures
        match name {
            Some(n) => check::field_key(*entry) == Some(n@),
            None => check::field_key(*entry) is None,
        },
{
    match &entry.key {
        Value::Scalar(s) => Some(s.text.as_str()),
        Value::Unit => Some("@"),
        _ => None,
    }
}

/// The name under which the value of an entry of a map is found, if its key is a
/// scalar or, where the keys have a type, unit.
fn map_key(entry: &Entry, typed: bool) -> (name: Option<&str>)
    ensures
        match name {
            Some(n) => check::map_key(*entry, typed) == Some(n@),
            None => check::map_key(*entry, typed) is None,
        },
{
    match &entry.key {
        Value::Scalar(s) => Some(s.text.as_str()),
        Value::Unit => if typed {
            Some("@")
        } else {
            None
        },
        _ => None,
    }
}

/// The schema of the field `name` of an object type whose fields are `list`.
fn field_schema<'a>(list: &Vec<FieldRef<'a>>, name: &str) -> (schema: Option<&'a Schema>)
    ensures
        match schema {
            Some(s) => check::field_schema(fields::fields_of(list@), name@) == Some(*s),
            None => check::field_schema(fields::fields_of(list@), name@) is None,
        },
{
    let found = fields::find_field(list, name);
    if found.is_some() {
        return found;
    }
    fields::find_field(list, "@")
}

/// Whether some entry is the field `name`.
fn has_field(entries: &Vec<Entry>, name: &str) -> (r: bool)
    ensures
        r == check::has_field(entries@, name@),
{
    let mut i: usize = 0;
    while i < entries.len()
        invariant
            i <= entries@.len(),
            forall|k: int|
                0 <= k < i ==> check::field_key(#[trigger] entries@[k]) != Some(name@),
        decreases entries@.len() - i,
    {
        if let Some(key) = field_key(&entries[i]) {
            if text::equal(key, name) {
                assert(check::field_key(entries@[i as int]) == Some(name@));
                return true;
            }
        }
        i += 1;
    }
    false
}

/// The type that every schema has by this name.
pub(crate) fn builtin(name: &str) -> (b: Option<Builtin>)
    ensures
        b == check::builtin(name@),
{
    if text::equal(name, "string") {
        Some(Builtin::Text)
    } else if text::equal(name, "int") || text::equal(name, "integer") {
        Some(Builtin::Integer)
    } else if text::equal(name, "float") || text::equal(name, "number") {
        Some(Builtin::Float)
    } else if text::equal(name, "bool") || text::equal(name, "boolean") {
        Some(Builtin::Boolean)
    } else if text::equal(name, "unit") {
        Some(Builtin::Unit)
    } else if text::equal(name, "any") {
        Some(Builtin::Any)
    } else {
        None
    }
}

/// Whether a scalar of this text is of the type `b`.
fn scalar_is(b: &Builtin, text: &str) -> (r: bool)
    ensures
        r == check::scalar_is(*b, text@),
{
    match b {
        Builtin::Integer => number::writes_integer(text),
        Builtin::Float => number::writes_float(text),
        Builtin::Boolean => text::equal(text, "true") || text::equal(text, "false"),
        Builtin::Unit => false,
        _ => true,
    }
}

/// What a value of the type `b` is called.
fn builtin_name(b: &Builtin) -> (name: &'static str)
    ensures
        name@ == check::builtin_name(*b),
{
    match b {
        Builtin::Text => "string",
        Builtin::Integer => "integer",
        Builtin::Float => "number",
        Builtin::Boolean => "boolean",
        Builtin::Unit => "unit",
        Builtin::Any => "any",
    }
}

/// Whether a variant of an enum with this schema stands without a payload.
fn takes_no_payload(variant: &Schema) -> (r: bool)
    ensures
        r == check::takes_no_payload(*variant),
{
    match variant {
        Schema::Type { name: Some(n) } => text::equal(n.as_str(), "unit"),
        Schema::Type { name: None } => true,
        _ => false,
    }
}

// --- results ---

/// `result` holds these errors, in this order, and no warning.
pub open spec fn says(result: ValidationResult, errors: Seq<ErrorView>) -> bool {
    error::error_views(result.errors@) == errors && result.warnings@.len() == 0
}

/// A result with one error.
fn failed(path: &str, kind: ValidationErrorKind, message: &str) -> (result: ValidationResult)
    ensures
        says(result, seq![check::error(path@, kind@, message@)]),
{
    let mut result = ValidationResult::ok();
    result.error(ValidationError::new(path, kind, message));
    assert(error::error_views(result.errors@) =~= seq![check::error(path@, kind@, message@)]);
    result
}

/// Validates a value that must be the scalar `expected`.
fn validate_literal(value: &Value, expected: &str, path: &str) -> (result: ValidationResult)
    ensures
        says(result, check::literal_errors(*value, expected@, path@)),
{
    match value {
        Value::Scalar(s) => {
            let mut result = ValidationResult::ok();
            if !text::equal(s.text.as_str(), expected) {
                let reason = text5(
                    "expected literal '",
                    expected,
                    "', got '",
                    s.text.as_str(),
                    "'",
                );
                let message = text5("expected '", expected, "', got '", s.text.as_str(), "'");
                result.error(
                    ValidationError::new(
                        path,
                        ValidationErrorKind::InvalidValue { reason },
                        message.as_str(),
                    ).with_span(s.span),
                );
            }
            assert(error::error_views(result.errors@) =~= check::literal_errors(
                *value,
                expected@,
                path@,
            ));
            result
        },
        _ => {
            let message = text3("expected literal '", expected, "', got non-scalar");
            failed(path, ValidationErrorKind::ExpectedScalar, message.as_str())
        },
    }
}

/// Validates a value that must be unit.
fn validate_unit(value: &Value, path: &str) -> (result: ValidationResult)
    ensures
        says(result, check::unit_errors(*value, path@)),
{
    if value.is_unit() {
        return ValidationResult::ok();
    }
    failed(
        path,
        ValidationErrorKind::TypeMismatch {
            expected: "unit".to_owned(),
            got: value_type_name(value).to_owned(),
        },
        "expected unit value",
    )
}

/// Validates a value of a type that every schema has.
fn validate_builtin(b: &Builtin, value: &Value, path: &str) -> (result: ValidationResult)
    ensures
        says(result, check::builtin_errors(*b, *value, path@)),
{
    if let Builtin::Any = b {
        return ValidationResult::ok();
    }
    if let Builtin::Unit = b {
        return validate_unit(value, path);
    }
    match value {
        Value::Scalar(s) => {
            let mut result = ValidationResult::ok();
            if !scalar_is(b, s.text.as_str()) {
                let reason = text2("not a valid ", builtin_name(b));
                let mut message = text3("'", s.text.as_str(), "' is not a valid ");
                message.append(builtin_name(b));
                if let Builtin::Boolean = b {
                    message.append(" (expected true/false)");
                }
                let ghost hint = if b is Boolean {
                    " (expected true/false)"@
                } else {
                    Seq::empty()
                };
                assert(message@ =~= "'"@ + s.text@ + "' is not a valid "@ + check::builtin_name(*b)
                    + hint);
                result.error(
                    ValidationError::new(
                        path,
                        ValidationErrorKind::InvalidValue { reason },
                        message.as_str(),
                    ).with_span(s.span),
                );
            }
            assert(error::error_views(result.errors@) =~= check::builtin_errors(
                *b,
                *value,
                path@,
            ));
            result
        },
        _ => {
            let mut message = text3("expected ", builtin_name(b), ", got ");
            message.append(value_type_name(value));
            failed(path, ValidationErrorKind::ExpectedScalar, message.as_str())
        },
    }
}

/// The result for a name that the schema does not define.
fn unknown_type(path: &str, name: &str) -> (result: ValidationResult)
    ensures
        says(result, seq![check::unknown_type(path@, name@)]),
{
    let message = text3("unknown type '", name, "'");
    failed(path, ValidationErrorKind::UnknownType { name: name.to_owned() }, message.as_str())
}

/// The result for a schema that is wrong.
fn bad_schema(path: &str, reason: &str, message: &str) -> (result: ValidationResult)
    ensures
        says(result, seq![check::bad_schema(path@, reason@, message@)]),
{
    failed(path, ValidationErrorKind::SchemaError { reason: reason.to_owned() }, message)
}

// --- the validator ---

/// Validates values against the types of one schema file.
pub struct Validator<'a> {
    schema_file: &'a SchemaFile,
}

impl<'a> Validator<'a> {
    /// The schema file.
    pub closed spec fn file(&self) -> SchemaFile {
        *self.schema_file
    }

    /// A validator for the types of `schema_file`.
    pub fn new(schema_file: &'a SchemaFile) -> (validator: Self)
        ensures
            validator.file() == *schema_file,
    {
        Validator { schema_file }
    }

    /// Validates `value` against `schema`, following schemas at most `depth`
    /// deep.
    fn validate_within(
        &self,
        value: &Value,
        schema: &Schema,
        path: &str,
        Ghost(depth): Ghost<nat>,
    ) -> (result: ValidationResult)
        requires
            check::errors_within(depth, self.file(), *value, *schema, path@) is Some,
        ensures
            says(result, check::errors_within(depth, self.file(), *value, *schema, path@)->0),
        decreases depth, 1nat,
    {
        match schema {
            Schema::Literal(expected) => validate_literal(value, expected.as_str(), path),
            Schema::Type { name: None } => validate_unit(value, path),
            Schema::Type { name: Some(name) } => self.validate_type_ref(
                value,
                name,
                path,
                Ghost(depth),
            ),
            Schema::Object(fields) => self.validate_object(value, fields, path, Ghost(depth)),
            Schema::Sequence(inner) => self.validate_seq(value, inner, path, Ghost(depth)),
            Schema::Union(variants) => self.validate_union(value, variants, path, Ghost(depth)),
            Schema::Optional(inner) => self.validate_optional(value, inner, path, Ghost(depth)),
            Schema::Enum(variants) => self.validate_enum(value, variants, path, Ghost(depth)),
            Schema::Mapping(types) => self.validate_map(value, types, path, Ghost(depth)),
            Schema::Flatten(inner) => self.validate_flatten(value, inner, path, Ghost(depth)),
        }
    }

    /// Validates a value of the type `name`.
    fn validate_type_ref(
        &self,
        value: &Value,
        name: &String,
        path: &str,
        Ghost(depth): Ghost<nat>,
    ) -> (result: ValidationResult)
        requires
            check::errors_within(
                depth,
                self.file(),
                *value,
                (Schema::Type { name: Some(*name) }),
                path@,
            ) is Some,
        ensures
            says(
                result,
                check::errors_within(
                    depth,
                    self.file(),
                    *value,
                    (Schema::Type { name: Some(*name) }),
                    path@,
                )->0,
            ),
        decreases depth, 0nat,
    {
        if let Some(b) = builtin(name.as_str()) {
            return validate_builtin(&b, value, path);
        }
        match self.schema_file.schema.get(name.as_str()) {
            Some(named) => self.validate_within(value, named, path, Ghost((depth - 1) as nat)),
            None => unknown_type(path, name.as_str()),
        }
    }

    /// Validates an object with these fields.
    fn validate_object(
        &self,
        value: &Value,
        schema: &ObjectSchema,
        path: &str,
        Ghost(depth): Ghost<nat>,
    ) -> (result: ValidationResult)
        requires
            check::errors_within(
                depth,
                self.file(),
                *value,
                Schema::Object(*schema),
                path@,
            ) is Some,
        ensures
            says(
                result,
                check::errors_within(
                    depth,
                    self.file(),
                    *value,
                    Schema::Object(*schema),
                    path@,
                )->0,
            ),
        decreases depth, 0nat,
    {
        let ghost file = self.file();
        let ghost d = (depth - 1) as nat;
        let entries = match value {
            Value::Object(o) => &o.entries,
            _ => {
                let message = text2("expected object, got ", value_type_name(value));
                return failed(path, ValidationErrorKind::ExpectedObject, message.as_str());
            },
        };
        let list = fields::all_fields(self.schema_file, &schema.0, Ghost(d));
        let ghost all = list@.fields;
        let ghost in_fields = check::field_errors(d, file, entries@, all, path@, 0);
        let mut result = ValidationResult::ok();
        let mut i: usize = 0;
        assert(in_fields->0 =~= error::error_views(result.errors@) + in_fields->0);
        while i < entries.len()
            invariant
                i <= entries@.len(),
                file == self.file(),
                all == fields::fields_of(list.fields@),
                0 < depth,
                d == (depth - 1) as nat,
                in_fields is Some,
                check::field_errors(d, file, entries@, all, path@, i as nat) is Some,
                in_fields->0 == error::error_views(result.errors@) + check::field_errors(
                    d,
                    file,
                    entries@,
                    all,
                    path@,
                    i as nat,
                )->0,
                result.warnings@.len() == 0,
            decreases entries@.len() - i,
        {
            let entry = &entries[i];
            let ghost before = error::error_views(result.errors@);
            let ghost rest = check::field_errors(
                d,
                file,
                entries@,
                all,
                path@,
                (i + 1) as nat,
            );
            let found = match field_key(entry) {
                Some(name) => {
                    let field_path = field_path(path, name);
                    let field_schema = field_schema(&list.fields, name);
                    match field_schema {
                        Some(field_schema) => self.validate_within(
                            &entry.value,
                            field_schema,
                            field_path.as_str(),
                            Ghost(d),
                        ),
                        None => {
                            let message = text3("unknown field '", name, "'");
                            failed(
                                field_path.as_str(),
                                ValidationErrorKind::UnknownField { field: name.to_owned() },
                                message.as_str(),
                            )
                        },
                    }
                },
                None => failed(
                    path,
                    ValidationErrorKind::InvalidValue {
                        reason: "object keys must be scalars or unit".to_owned(),
                    },
                    "invalid object key",
                ),
            };
            let ghost here = error::error_views(found.errors@);
            result.merge(found);
            assert(before + (here + rest->0) =~= (before + here) + rest->0);
            i += 1;
        }
        assert(error::error_views(result.errors@) =~= in_fields->0);
        self.require_fields(entries, &list.fields, path, &mut result);
        let ghost missing = check::missing_fields(entries@, all, path@, 0);
        self.report_broken(&list.broken, path, &mut result);
        assert(in_fields->0 + missing + check::broken_errors(list@.broken, path@) =~= in_fields->0
            + (missing + check::broken_errors(list@.broken, path@)));
        result
    }

    /// Adds the errors for the fields that must be there and are not.
    fn require_fields(
        &self,
        entries: &Vec<Entry>,
        list: &Vec<FieldRef<'_>>,
        path: &str,
        result: &mut ValidationResult,
    )
        ensures
            error::error_views(final(result).errors@) == error::error_views(old(result).errors@)
                + check::missing_fields(entries@, fields::fields_of(list@), path@, 0),
            final(result).warnings@ == old(result).warnings@,
    {
        let ghost all = fields::fields_of(list@);
        let ghost goal = error::error_views(result.errors@) + check::missing_fields(
            entries@,
            all,
            path@,
            0,
        );
        let mut j: usize = 0;
        while j < list.len()
            invariant
                j <= list@.len(),
                all == fields::fields_of(list@),
                goal == error::error_views(result.errors@) + check::missing_fields(
                    entries@,
                    all,
                    path@,
                    j as nat,
                ),
                result.warnings@ == old(result).warnings@,
            decreases list@.len() - j,
        {
            let name = list[j].name;
            let ghost before = error::error_views(result.errors@);
            let ghost rest = check::missing_fields(entries@, all, path@, (j + 1) as nat);
            let optional = matches!(list[j].schema, Schema::Optional(_));
            assert(all[j as int] == (name@, *list@[j as int].schema));
            if !text::equal(name, "@") && !has_field(entries, name) && !optional {
                let field_path = field_path(path, name);
                let message = text3("missing required field '", name, "'");
                let error = ValidationError::new(
                    field_path.as_str(),
                    ValidationErrorKind::MissingField { field: name.to_owned() },
                    message.as_str(),
                );
                result.error(error);
                assert(before + (seq![error@] + rest) =~= before.push(error@) + rest);
            }
            j += 1;
        }
        assert(goal =~= error::error_views(result.errors@));
    }

    /// Adds the errors for the types that should be flattened and are not there.
    fn report_broken(
        &self,
        broken: &Vec<Option<&str>>,
        path: &str,
        result: &mut ValidationResult,
    )
        ensures
            error::error_views(final(result).errors@) == error::error_views(old(result).errors@)
                + check::broken_errors(fields::names_of(broken@), path@),
            final(result).warnings@ == old(result).warnings@,
    {
        let ghost before = error::error_views(result.errors@);
        let ghost all = check::broken_errors(fields::names_of(broken@), path@);
        let mut i: usize = 0;
        assert(before + all.take(0) =~= before);
        while i < broken.len()
            invariant
                i <= broken@.len() == all.len(),
                all == check::broken_errors(fields::names_of(broken@), path@),
                error::error_views(result.errors@) == before + all.take(i as int),
                result.warnings@ == old(result).warnings@,
            decreases broken@.len() - i,
        {
            let found = match broken[i] {
                Some(name) => unknown_type(path, name),
                None => bad_schema(
                    path,
                    "flatten schema must reference a type",
                    "invalid flatten schema",
                ),
            };
            assert(error::error_views(found.errors@) =~= seq![all[i as int]]);
            assert(all.take(i + 1) =~= all.take(i as int) + seq![all[i as int]]);
            result.merge(found);
            assert(before + all.take(i as int) + seq![all[i as int]] =~= before + all.take(
                i + 1,
            ));
            i += 1;
        }
        assert(all.take(i as int) =~= all);
    }

    /// Validates a sequence.
    fn validate_seq(
        &self,
        value: &Value,
        schema: &SeqSchema,
        path: &str,
        Ghost(depth): Ghost<nat>,
    ) -> (result: ValidationResult)
        requires
            check::errors_within(
                depth,
                self.file(),
                *value,
                Schema::Sequence(*schema),
                path@,
            ) is Some,
        ensures
            says(
                result,
                check::errors_within(
                    depth,
                    self.file(),
                    *value,
                    Schema::Sequence(*schema),
                    path@,
                )->0,
            ),
        decreases depth, 0nat,
    {
        let ghost file = self.file();
        let ghost d = (depth - 1) as nat;
        let items = match value {
            Value::Sequence(s) => &s.items,
            _ => {
                let message = text2("expected sequence, got ", value_type_name(value));
                return failed(path, ValidationErrorKind::ExpectedSequence, message.as_str());
            },
        };
        if schema.0.len() == 0 {
            return bad_schema(
                path,
                "seq schema must have element type",
                "invalid seq schema: missing element type",
            );
        }
        let inner = &schema.0[0];
        let ghost goal = check::item_errors(d, file, items@, *inner, path@, 0);
        let mut result = ValidationResult::ok();
        let mut i: usize = 0;
        assert(goal->0 =~= error::error_views(result.errors@) + goal->0);
        while i < items.len()
            invariant
                i <= items@.len(),
                file == self.file(),
                0 < depth,
                d == (depth - 1) as nat,
                goal is Some,
                check::item_errors(d, file, items@, *inner, path@, i as nat) is Some,
                goal->0 == error::error_views(result.errors@) + check::item_errors(
                    d,
                    file,
                    items@,
                    *inner,
                    path@,
                    i as nat,
                )->0,
                result.warnings@.len() == 0,
            decreases items@.len() - i,
        {
            let ghost before = error::error_views(result.errors@);
            let ghost rest = check::item_errors(d, file, items@, *inner, path@, (i + 1) as nat);
            let item_path = item_path(path, i);
            let found = self.validate_within(&items[i], inner, item_path.as_str(), Ghost(d));
            let ghost here = error::error_views(found.errors@);
            result.merge(found);
            assert(before + (here + rest->0) =~= (before + here) + rest->0);
            i += 1;
        }
        assert(error::error_views(result.errors@) =~= goal->0);
        result
    }

    /// Validates a value of one of several types.
    fn validate_union(
        &self,
        value: &Value,
        schema: &UnionSchema,
        path: &str,
        Ghost(depth): Ghost<nat>,
    ) -> (result: ValidationResult)
        requires
            check::errors_within(
                depth,
                self.file(),
                *value,
                Schema::Union(*schema),
                path@,
            ) is Some,
        ensures
            says(
                result,
                check::errors_within(
                    depth,
                    self.file(),
                    *value,
                    Schema::Union(*schema),
                    path@,
                )->0,
            ),
        decreases depth, 0nat,
    {
        let ghost file = self.file();
        let ghost d = (depth - 1) as nat;
        if schema.0.len() == 0 {
            return bad_schema(
                path,
                "union must have at least one variant",
                "invalid union schema: no variants",
            );
        }
        let mut i: usize = 0;
        let ghost goal = check::some_variant(d, file, *value, schema.0@, path@, 0);
        while i < schema.0.len()
            invariant
                i <= schema.0@.len(),
                0 < schema.0@.len(),
                file == self.file(),
                0 < depth,
                d == (depth - 1) as nat,
                goal == check::some_variant(d, file, *value, schema.0@, path@, 0),
                goal is Some,
                goal == check::some_variant(d, file, *value, schema.0@, path@, i as nat),
            decreases schema.0@.len() - i,
        {
            let found = self.validate_within(value, &schema.0[i], path, Ghost(d));
            if found.is_valid() {
                return ValidationResult::ok();
            }
            i += 1;
        }
        let tried = schema_type_names(&schema.0);
        let names = listed(&tried);
        let message = text3(
            "value doesn't match any union variant (tried: ",
            names.as_str(),
            ")",
        );
        failed(path, ValidationErrorKind::UnionMismatch { tried }, message.as_str())
    }

    /// Validates a value that may be absent, and is there.
    fn validate_optional(
        &self,
        value: &Value,
        schema: &OptionalSchema,
        path: &str,
        Ghost(depth): Ghost<nat>,
    ) -> (result: ValidationResult)
        requires
            check::errors_within(
                depth,
                self.file(),
                *value,
                Schema::Optional(*schema),
                path@,
            ) is Some,
        ensures
            says(
                result,
                check::errors_within(
                    depth,
                    self.file(),
                    *value,
                    Schema::Optional(*schema),
                    path@,
                )->0,
            ),
        decreases depth, 0nat,
    {
        if schema.0.len() == 0 {
            return ValidationResult::ok();
        }
        self.validate_within(value, &schema.0[0], path, Ghost((depth - 1) as nat))
    }

    /// Validates a tag out of several.
    fn validate_enum(
        &self,
        value: &Value,
        schema: &EnumSchema,
        path: &str,
        Ghost(depth): Ghost<nat>,
    ) -> (result: ValidationResult)
        requires
            check::errors_within(
                depth,
                self.file(),
                *value,
                Schema::Enum(*schema),
                path@,
            ) is Some,
        ensures
            says(
                result,
                check::errors_within(
                    depth,
                    self.file(),
                    *value,
                    Schema::Enum(*schema),
                    path@,
                )->0,
            ),
        decreases depth, 0nat,
    {
        let ghost d = (depth - 1) as nat;
        let tagged = match value {
            Value::Tagged(t) => t,
            Value::Unit => {
                return failed(
                    path,
                    ValidationErrorKind::ExpectedTagged,
                    "expected tagged value for enum",
                );
            },
            _ => {
                let message = text2("expected tagged value for enum, got ", value_type_name(value));
                return failed(path, ValidationErrorKind::ExpectedTagged, message.as_str());
            },
        };
        let tag = tagged.tag.as_str();
        match schema.0.get(tag) {
            Some(variant) => match &tagged.payload {
                Some(payload) => {
                    let variant_path = field_path(path, tag);
                    self.validate_within(payload, variant, variant_path.as_str(), Ghost(d))
                },
                None => {
                    if takes_no_payload(variant) {
                        return ValidationResult::ok();
                    }
                    let message = text3("variant '", tag, "' requires a payload");
                    failed(
                        path,
                        ValidationErrorKind::TypeMismatch {
                            expected: schema_type_name(variant),
                            got: "unit".to_owned(),
                        },
                        message.as_str(),
                    )
                },
            },
            None => {
                let expected = names_of(&schema.0);
                let names = listed(&expected);
                let message = text5(
                    "unknown enum variant '",
                    tag,
                    "' (expected one of: ",
                    names.as_str(),
                    ")",
                );
                failed(
                    path,
                    ValidationErrorKind::InvalidVariant { expected, got: tag.to_owned() },
                    message.as_str(),
                )
            },
        }
    }

    /// Validates an object with arbitrary keys.
    fn validate_map(
        &self,
        value: &Value,
        schema: &MapSchema,
        path: &str,
        Ghost(depth): Ghost<nat>,
    ) -> (result: ValidationResult)
        requires
            check::errors_within(
                depth,
                self.file(),
                *value,
                Schema::Mapping(*schema),
                path@,
            ) is Some,
        ensures
            says(
                result,
                check::errors_within(
                    depth,
                    self.file(),
                    *value,
                    Schema::Mapping(*schema),
                    path@,
                )->0,
            ),
        decreases depth, 0nat,
    {
        let ghost file = self.file();
        let ghost d = (depth - 1) as nat;
        let entries = match value {
            Value::Object(o) => &o.entries,
            _ => {
                let message = text2("expected map (object), got ", value_type_name(value));
                return failed(path, ValidationErrorKind::ExpectedObject, message.as_str());
            },
        };
        let (key_schema, value_schema): (Option<&Schema>, &Schema) = if schema.0.len() == 1 {
            (None, &schema.0[0])
        } else if schema.0.len() == 2 {
            (Some(&schema.0[0]), &schema.0[1])
        } else {
            return bad_schema(
                path,
                "map schema must have 1 or 2 type arguments",
                "invalid map schema",
            );
        };
        let ghost keys: Option<Schema> = match key_schema {
            Some(schema) => Some(*schema),
            None => None,
        };
        let ghost goal = check::entry_errors(d, file, entries@, keys, *value_schema, path@, 0);
        let mut result = ValidationResult::ok();
        let mut i: usize = 0;
        assert(goal->0 =~= error::error_views(result.errors@) + goal->0);
        while i < entries.len()
            invariant
                i <= entries@.len(),
                file == self.file(),
                0 < depth,
                d == (depth - 1) as nat,
                keys == match key_schema {
                    Some(schema) => Some(*schema),
                    None => None,
                },
                goal is Some,
                check::entry_errors(
                    d,
                    file,
                    entries@,
                    keys,
                    *value_schema,
                    path@,
                    i as nat,
                ) is Some,
                goal->0 == error::error_views(result.errors@) + check::entry_errors(
                    d,
                    file,
                    entries@,
                    keys,
                    *value_schema,
                    path@,
                    i as nat,
                )->0,
                result.warnings@.len() == 0,
            decreases entries@.len() - i,
        {
            let entry = &entries[i];
            let ghost before = error::error_views(result.errors@);
            let ghost rest = check::entry_errors(
                d,
                file,
                entries@,
                keys,
                *value_schema,
                path@,
                (i + 1) as nat,
            );
            let found = match map_key(entry, key_schema.is_some()) {
                Some(name) => {
                    let mut found = match key_schema {
                        Some(ks) => self.validate_within(&entry.key, ks, path, Ghost(d)),
                        None => ValidationResult::ok(),
                    };
                    let entry_path = field_path(path, name);
                    found.merge(
                        self.validate_within(
                            &entry.value,
                            value_schema,
                            entry_path.as_str(),
                            Ghost(d),
                        ),
                    );
                    found
                },
                None => failed(
                    path,
                    ValidationErrorKind::InvalidValue {
                        reason: "map keys must be scalars".to_owned(),
                    },
                    "invalid map key",
                ),
            };
            let ghost here = error::error_views(found.errors@);
            result.merge(found);
            assert(before + (here + rest->0) =~= (before + here) + rest->0);
            i += 1;
        }
        assert(error::error_views(result.errors@) =~= goal->0);
        result
    }

    /// Validates a value of the type whose fields are flattened.
    fn validate_flatten(
        &self,
        value: &Value,
        schema: &FlattenSchema,
        path: &str,
        Ghost(depth): Ghost<nat>,
    ) -> (result: ValidationResult)
        requires
            check::errors_within(
                depth,
                self.file(),
                *value,
                Schema::Flatten(*schema),
                path@,
            ) is Some,
        ensures
            says(
                result,
                check::errors_within(
                    depth,
                    self.file(),
                    *value,
                    Schema::Flatten(*schema),
                    path@,
                )->0,
            ),
        decreases depth, 0nat,
    {
        if schema.0.len() == 0 {
            return bad_schema(
                path,
                "flatten schema must reference a type",
                "invalid flatten schema",
            );
        }
        self.validate_within(value, &schema.0[0], path, Ghost((depth - 1) as nat))
    }

    /// Validates `value` against `schema`.
    pub fn validate_value(&self, value: &Value, schema: &Schema, path: &str) -> (result:
        ValidationResult)
        requires
            outcome::settled(self.file(), *value, *schema, path@),
        ensures
            says(result, outcome::errors(self.file(), *value, *schema, path@)),
    {
        let ghost depth = choose|depth: nat| #[trigger]
            check::errors_within(depth, self.file(), *value, *schema, path@) is Some;
        self.validate_within(value, schema, path, Ghost(depth))
    }

    /// Validates a document against the type `@`.
    pub fn validate_document(&self, doc: &Value) -> (result: ValidationResult)
        requires
            outcome::document_settled(self.file(), *doc),
        ensures
            says(result, outcome::document_errors(self.file(), *doc)),
    {
        proof {
            reveal_strlit("");
            assert(""@ =~= Seq::<char>::empty());
        }
        match self.schema_file.schema.get("@") {
            Some(root) => self.validate_value(doc, root, ""),
            None => bad_schema(
                "",
                "no root type (@) defined in schema",
                "schema has no root type definition",
            ),
        }
    }

    /// Validates a value against the type `name`.
    pub fn validate_as_type(&self, value: &Value, name: &str) -> (result: ValidationResult)
        requires
            outcome::type_settled(self.file(), *value, name@),
        ensures
            says(result, outcome::type_errors(self.file(), *value, name@)),
    {
        proof {
            reveal_strlit("");
            assert(""@ =~= Seq::<char>::empty());
        }
        match self.schema_file.schema.get(name) {
            Some(schema) => self.validate_value(value, schema, ""),
            None => unknown_type("", name),
        }
    }
}

/// Validates a document against the root type of a schema.
pub fn validate(doc: &Value, schema: &SchemaFile) -> (result: ValidationResult)
    requires
        outcome::document_settled(*schema, *doc),
    ensures
        says(result, outcome::document_errors(*schema, *doc)),
{
    Validator::new(schema).validate_document(doc)
}

/// Validates a value against a type of a schema.
pub fn validate_as(value: &Value, schema: &SchemaFile, name: &str) -> (result:
    ValidationResult)
    requires
        outcome::type_settled(*schema, *value, name@),
    ensures
        says(result, outcome::type_errors(*schema, *value, name@)),
{
    Validator::new(schema).validate_as_type(value, name)
}

} // verus!
