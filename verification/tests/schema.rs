//! Tests of validation.
use styx::schema::error::{
    ValidationError, ValidationErrorKind, ValidationResult, ValidationWarning,
    ValidationWarningKind,
};
use styx::schema::guard::is_guarded;
use styx::schema::meta::META_SCHEMA_SOURCE;
use styx::schema::names::NameMap;
use styx::schema::types::{
    EnumSchema, EnumTagSchema, EnumVariant, FlattenSchema, MapSchema, Meta, ObjectSchema,
    OptionalSchema, Schema, SchemaFile, SeqSchema, UnionSchema,
};
use styx::schema::validate::{
    schema_type_name, validate, validate_as, value_type_name, Validator,
};
use styx::schema::value::{Entry, Object, Scalar, Sequence, Tagged, Value};
use styx::span::Span;

fn scalar(text: &str) -> Value {
    Value::Scalar(Scalar { text: text.to_string(), span: Some(Span::new(3, 5)) })
}

fn tagged(tag: &str, payload: Option<Value>) -> Value {
    Value::Tagged(Tagged { tag: tag.to_string(), payload: payload.map(Box::new) })
}

fn sequence(items: Vec<Value>) -> Value {
    Value::Sequence(Sequence { items })
}

fn object(entries: Vec<(Value, Value)>) -> Value {
    Value::Object(Object {
        entries: entries.into_iter().map(|(key, value)| Entry { key, value }).collect(),
    })
}

fn named(name: &str) -> Schema {
    Schema::Type { name: Some(name.to_string()) }
}

fn fields(list: Vec<(&str, Schema)>) -> NameMap<Schema> {
    let mut map = NameMap::new();
    for (name, schema) in list {
        map.insert(name, schema);
    }
    map
}

fn file(types: Vec<(&str, Schema)>) -> SchemaFile {
    SchemaFile {
        meta: Meta { id: "test".to_string(), version: "1".to_string(), description: None },
        imports: None,
        schema: fields(types),
    }
}

/// Path, kind and message of every error, and the span of the first.
fn found(value: &Value, schema: &Schema, path: &str) -> Vec<(String, ValidationErrorKind, String)> {
    let file = file(vec![("Port", named("int")), ("Alias", named("Port"))]);
    let result = Validator::new(&file).validate_value(value, schema, path);
    assert!(result.warnings.is_empty());
    assert_eq!(result.is_valid(), result.errors.is_empty());
    result.errors.into_iter().map(|e| (e.path, e.kind, e.message)).collect()
}

fn one(path: &str, kind: ValidationErrorKind, message: &str) -> Vec<(String, ValidationErrorKind, String)> {
    vec![(path.to_string(), kind, message.to_string())]
}

fn invalid(reason: &str) -> ValidationErrorKind {
    ValidationErrorKind::InvalidValue { reason: reason.to_string() }
}

fn mismatch(expected: &str, got: &str) -> ValidationErrorKind {
    ValidationErrorKind::TypeMismatch { expected: expected.to_string(), got: got.to_string() }
}

fn schema_error(reason: &str) -> ValidationErrorKind {
    ValidationErrorKind::SchemaError { reason: reason.to_string() }
}

#[test]
fn literals() {
    let schema = Schema::Literal("on".to_string());
    assert_eq!(found(&scalar("on"), &schema, "p"), vec![]);
    assert_eq!(
        found(&scalar("off"), &schema, "p"),
        one("p", invalid("expected literal 'on', got 'off'"), "expected 'on', got 'off'")
    );
    assert_eq!(
        found(&Value::Unit, &schema, ""),
        one("", ValidationErrorKind::ExpectedScalar, "expected literal 'on', got non-scalar")
    );
}

#[test]
fn errors_at_scalars_have_a_span() {
    let file = file(vec![]);
    let result = Validator::new(&file).validate_value(&scalar("x"), &named("int"), "");
    assert_eq!(result.errors[0].span, Some(Span::new(3, 5)));
    let result = Validator::new(&file).validate_value(&Value::Unit, &named("int"), "");
    assert_eq!(result.errors[0].span, None);
}

#[test]
fn units() {
    for schema in [Schema::Type { name: None }, named("unit")] {
        assert_eq!(found(&Value::Unit, &schema, "p"), vec![]);
        assert_eq!(
            found(&scalar("x"), &schema, "p"),
            one("p", mismatch("unit", "scalar"), "expected unit value")
        );
    }
}

#[test]
fn strings() {
    assert_eq!(found(&scalar(""), &named("string"), "p"), vec![]);
    assert_eq!(
        found(&object(vec![]), &named("string"), "p"),
        one("p", ValidationErrorKind::ExpectedScalar, "expected string, got object")
    );
}

#[test]
fn integer_types() {
    for name in ["int", "integer"] {
        assert_eq!(found(&scalar("-12"), &named(name), "p"), vec![]);
        assert_eq!(
            found(&scalar("1.5"), &named(name), "p"),
            one("p", invalid("not a valid integer"), "'1.5' is not a valid integer")
        );
        assert_eq!(
            found(&sequence(vec![]), &named(name), "p"),
            one("p", ValidationErrorKind::ExpectedScalar, "expected integer, got sequence")
        );
    }
}

#[test]
fn number_types() {
    for name in ["float", "number"] {
        assert_eq!(found(&scalar("1.5e3"), &named(name), "p"), vec![]);
        assert_eq!(
            found(&scalar("abc"), &named(name), "p"),
            one("p", invalid("not a valid number"), "'abc' is not a valid number")
        );
        assert_eq!(
            found(&tagged("t", None), &named(name), "p"),
            one("p", ValidationErrorKind::ExpectedScalar, "expected number, got tagged")
        );
    }
}

#[test]
fn boolean_types() {
    for name in ["bool", "boolean"] {
        assert_eq!(found(&scalar("true"), &named(name), "p"), vec![]);
        assert_eq!(found(&scalar("false"), &named(name), "p"), vec![]);
        assert_eq!(
            found(&scalar("yes"), &named(name), "p"),
            one(
                "p",
                invalid("not a valid boolean"),
                "'yes' is not a valid boolean (expected true/false)"
            )
        );
        assert_eq!(
            found(&Value::Unit, &named(name), "p"),
            one("p", ValidationErrorKind::ExpectedScalar, "expected boolean, got unit")
        );
    }
}

#[test]
fn any_takes_everything() {
    for value in [scalar("x"), Value::Unit, tagged("t", None), sequence(vec![]), object(vec![])] {
        assert_eq!(found(&value, &named("any"), "p"), vec![]);
    }
}

#[test]
fn named_types() {
    assert_eq!(found(&scalar("80"), &named("Alias"), "p"), vec![]);
    assert_eq!(
        found(&scalar("x"), &named("Alias"), "p"),
        one("p", invalid("not a valid integer"), "'x' is not a valid integer")
    );
    assert_eq!(
        found(&scalar("x"), &named("Nope"), "p"),
        one(
            "p",
            ValidationErrorKind::UnknownType { name: "Nope".to_string() },
            "unknown type 'Nope'"
        )
    );
}

#[test]
fn objects() {
    let schema = Schema::Object(ObjectSchema(fields(vec![
        ("host", named("string")),
        ("port", named("Port")),
        ("tls", Schema::Optional(OptionalSchema(vec![named("bool")]))),
    ])));
    let good = object(vec![(scalar("port"), scalar("80")), (scalar("host"), scalar("h"))]);
    assert_eq!(found(&good, &schema, ""), vec![]);
    let bad = object(vec![
        (scalar("port"), scalar("x")),
        (scalar("extra"), Value::Unit),
        (tagged("t", None), Value::Unit),
    ]);
    assert_eq!(
        found(&bad, &schema, "server"),
        vec![
            (
                "server.port".to_string(),
                invalid("not a valid integer"),
                "'x' is not a valid integer".to_string()
            ),
            (
                "server.extra".to_string(),
                ValidationErrorKind::UnknownField { field: "extra".to_string() },
                "unknown field 'extra'".to_string()
            ),
            (
                "server".to_string(),
                invalid("object keys must be scalars or unit"),
                "invalid object key".to_string()
            ),
            (
                "server.host".to_string(),
                ValidationErrorKind::MissingField { field: "host".to_string() },
                "missing required field 'host'".to_string()
            ),
        ]
    );
    assert_eq!(
        found(&scalar("x"), &schema, ""),
        one("", ValidationErrorKind::ExpectedObject, "expected object, got scalar")
    );
}

#[test]
fn additional_fields() {
    let schema = Schema::Object(ObjectSchema(fields(vec![
        ("a", named("int")),
        ("@", named("bool")),
    ])));
    let value = object(vec![
        (scalar("a"), scalar("1")),
        (scalar("b"), scalar("true")),
        (Value::Unit, scalar("false")),
    ]);
    assert_eq!(found(&value, &schema, ""), vec![]);
    let value = object(vec![(scalar("a"), scalar("1")), (Value::Unit, scalar("x"))]);
    assert_eq!(
        found(&value, &schema, "o"),
        one(
            "o.@",
            invalid("not a valid boolean"),
            "'x' is not a valid boolean (expected true/false)"
        )
    );
}

#[test]
fn sequences() {
    let schema = Schema::Sequence(SeqSchema(vec![named("int")]));
    assert_eq!(found(&sequence(vec![scalar("1"), scalar("2")]), &schema, "s"), vec![]);
    let mut items: Vec<Value> = (0..11).map(|_| scalar("1")).collect();
    items.push(scalar("x"));
    assert_eq!(
        found(&sequence(items), &schema, "s"),
        one("s[11]", invalid("not a valid integer"), "'x' is not a valid integer")
    );
    assert_eq!(
        found(&Value::Unit, &schema, "s"),
        one("s", ValidationErrorKind::ExpectedSequence, "expected sequence, got unit")
    );
    assert_eq!(
        found(&sequence(vec![]), &Schema::Sequence(SeqSchema(vec![])), "s"),
        one(
            "s",
            schema_error("seq schema must have element type"),
            "invalid seq schema: missing element type"
        )
    );
}

#[test]
fn unions() {
    let schema = Schema::Union(UnionSchema(vec![
        named("int"),
        Schema::Literal("auto".to_string()),
        Schema::Type { name: None },
        Schema::Object(ObjectSchema(NameMap::new())),
        Schema::Sequence(SeqSchema(vec![])),
        Schema::Union(UnionSchema(vec![])),
        Schema::Enum(EnumSchema(NameMap::new())),
        Schema::Mapping(MapSchema(vec![])),
        Schema::Flatten(FlattenSchema(vec![])),
    ]));
    for value in [scalar("1"), scalar("auto"), Value::Unit, object(vec![])] {
        assert_eq!(found(&value, &schema, "u"), vec![]);
    }
    let tried = vec![
        "int", "literal(auto)", "unit", "object", "seq", "union", "enum", "map", "flatten",
    ];
    assert_eq!(
        found(&scalar("x"), &schema, "u"),
        one(
            "u",
            ValidationErrorKind::UnionMismatch {
                tried: tried.iter().map(|s| s.to_string()).collect()
            },
            "value doesn't match any union variant (tried: int, literal(auto), unit, object, seq, \
             union, enum, map, flatten)"
        )
    );
    assert_eq!(
        found(&scalar("x"), &Schema::Union(UnionSchema(vec![])), "u"),
        one(
            "u",
            schema_error("union must have at least one variant"),
            "invalid union schema: no variants"
        )
    );
}

#[test]
fn optionals() {
    let schema = Schema::Optional(OptionalSchema(vec![named("int")]));
    assert_eq!(found(&scalar("1"), &schema, "o"), vec![]);
    assert_eq!(
        found(&scalar("x"), &schema, "o"),
        one("o", invalid("not a valid integer"), "'x' is not a valid integer")
    );
    assert_eq!(found(&scalar("x"), &Schema::Optional(OptionalSchema(vec![])), "o"), vec![]);
    assert_eq!(schema_type_name(&schema), "optional");
}

#[test]
fn enums() {
    let schema = Schema::Enum(EnumSchema(fields(vec![
        ("ok", named("unit")),
        ("none", Schema::Type { name: None }),
        ("err", named("string")),
    ])));
    assert_eq!(found(&tagged("ok", None), &schema, "e"), vec![]);
    assert_eq!(found(&tagged("none", None), &schema, "e"), vec![]);
    assert_eq!(found(&tagged("err", Some(scalar("boom"))), &schema, "e"), vec![]);
    assert_eq!(
        found(&tagged("err", Some(Value::Unit)), &schema, "e"),
        one("e.err", ValidationErrorKind::ExpectedScalar, "expected string, got unit")
    );
    assert_eq!(
        found(&tagged("err", None), &schema, "e"),
        one("e", mismatch("string", "unit"), "variant 'err' requires a payload")
    );
    assert_eq!(
        found(&tagged("bad", None), &schema, "e"),
        one(
            "e",
            ValidationErrorKind::InvalidVariant {
                expected: vec!["ok".to_string(), "none".to_string(), "err".to_string()],
                got: "bad".to_string()
            },
            "unknown enum variant 'bad' (expected one of: ok, none, err)"
        )
    );
    assert_eq!(
        found(&Value::Unit, &schema, "e"),
        one("e", ValidationErrorKind::ExpectedTagged, "expected tagged value for enum")
    );
    assert_eq!(
        found(&scalar("ok"), &schema, "e"),
        one("e", ValidationErrorKind::ExpectedTagged, "expected tagged value for enum, got scalar")
    );
}

#[test]
fn maps() {
    let schema = Schema::Mapping(MapSchema(vec![named("int"), named("bool")]));
    assert_eq!(found(&object(vec![(scalar("1"), scalar("true"))]), &schema, "m"), vec![]);
    assert_eq!(
        found(&object(vec![(scalar("x"), scalar("y")), (Value::Unit, scalar("z"))]), &schema, "m"),
        vec![
            (
                "m".to_string(),
                invalid("not a valid integer"),
                "'x' is not a valid integer".to_string()
            ),
            (
                "m.x".to_string(),
                invalid("not a valid boolean"),
                "'y' is not a valid boolean (expected true/false)".to_string()
            ),
            (
                "m".to_string(),
                ValidationErrorKind::ExpectedScalar,
                "expected integer, got unit".to_string()
            ),
            (
                "m.@".to_string(),
                invalid("not a valid boolean"),
                "'z' is not a valid boolean (expected true/false)".to_string()
            ),
        ]
    );
    let keys = Schema::Union(UnionSchema(vec![named("string"), named("unit")]));
    let schema = Schema::Mapping(MapSchema(vec![keys, named("any")]));
    assert_eq!(found(&object(vec![(Value::Unit, scalar("x"))]), &schema, "m"), vec![]);
    assert_eq!(
        found(&object(vec![(tagged("t", None), scalar("x"))]), &schema, "m"),
        one("m", invalid("map keys must be scalars"), "invalid map key")
    );
    let schema = Schema::Mapping(MapSchema(vec![named("bool")]));
    assert_eq!(
        found(&object(vec![(Value::Unit, scalar("true"))]), &schema, "m"),
        one("m", invalid("map keys must be scalars"), "invalid map key")
    );
    assert_eq!(found(&object(vec![(scalar("x"), scalar("true"))]), &schema, ""), vec![]);
    assert_eq!(
        found(&scalar("x"), &schema, "m"),
        one("m", ValidationErrorKind::ExpectedObject, "expected map (object), got scalar")
    );
    assert_eq!(
        found(&object(vec![]), &Schema::Mapping(MapSchema(vec![])), "m"),
        one(
            "m",
            schema_error("map schema must have 1 or 2 type arguments"),
            "invalid map schema"
        )
    );
}

#[test]
fn flattened_types() {
    let schema = Schema::Flatten(FlattenSchema(vec![named("Port")]));
    assert_eq!(found(&scalar("1"), &schema, "f"), vec![]);
    assert_eq!(
        found(&scalar("x"), &Schema::Flatten(FlattenSchema(vec![])), "f"),
        one("f", schema_error("flatten schema must reference a type"), "invalid flatten schema")
    );
}

#[test]
fn flattened_fields_stand_in_the_object() {
    let flatten = |name: &str| Schema::Flatten(FlattenSchema(vec![named(name)]));
    let optional = |name: &str| Schema::Optional(OptionalSchema(vec![named(name)]));
    let outer = Schema::Object(ObjectSchema(fields(vec![
        ("a", named("string")),
        ("base", flatten("Alias")),
        ("c", optional("int")),
    ])));
    let base = Schema::Object(ObjectSchema(fields(vec![
        ("b", named("int")),
        ("c", named("int")),
        ("deep", flatten("Deep")),
    ])));
    let deep = Schema::Object(ObjectSchema(fields(vec![("d", named("bool")), ("b", named("bool"))])));
    let file = file(vec![
        ("@", outer),
        ("Alias", named("Base")),
        ("Base", base),
        ("Deep", deep),
    ]);
    assert!(is_guarded(&file));
    let errors = |value: &Value| -> Vec<(String, ValidationErrorKind)> {
        validate(value, &file).errors.into_iter().map(|e| (e.path, e.kind)).collect()
    };
    let good = object(vec![
        (scalar("a"), scalar("x")),
        (scalar("b"), scalar("1")),
        (scalar("d"), scalar("true")),
    ]);
    assert_eq!(errors(&good), vec![]);
    let missing = |name: &str| {
        (name.to_string(), ValidationErrorKind::MissingField { field: name.to_string() })
    };
    assert_eq!(errors(&object(vec![])), vec![missing("a"), missing("b"), missing("d")]);
    let bad = object(vec![
        (scalar("a"), scalar("x")),
        (scalar("b"), scalar("true")),
        (scalar("d"), scalar("true")),
        (scalar("e"), scalar("x")),
    ]);
    assert_eq!(
        errors(&bad),
        vec![
            ("b".to_string(), invalid("not a valid integer")),
            ("e".to_string(), ValidationErrorKind::UnknownField { field: "e".to_string() }),
        ]
    );
}

#[test]
fn the_name_of_a_flattened_type_is_no_field() {
    let base = |value: Value| {
        object(vec![
            (scalar("a"), scalar("x")),
            (scalar("b"), scalar("1")),
            (scalar("base"), value),
        ])
    };
    let outer = |rest: Vec<(&'static str, Schema)>| {
        let inner = Schema::Object(ObjectSchema(fields(vec![("b", named("int"))])));
        let mut all = vec![
            ("a", named("string")),
            ("base", Schema::Flatten(FlattenSchema(vec![inner]))),
        ];
        all.extend(rest);
        Schema::Object(ObjectSchema(fields(all)))
    };
    assert_eq!(
        found(&base(object(vec![(scalar("b"), scalar("2"))])), &outer(vec![]), ""),
        one(
            "base",
            ValidationErrorKind::UnknownField { field: "base".to_string() },
            "unknown field 'base'"
        )
    );
    assert_eq!(found(&base(scalar("2")), &outer(vec![("@", named("int"))]), ""), vec![]);
}

#[test]
fn a_flattened_type_without_fields_adds_none() {
    let flatten = |inner: Vec<Schema>| Schema::Flatten(FlattenSchema(inner));
    let schema = Schema::Object(ObjectSchema(fields(vec![
        ("b", flatten(vec![named("int")])),
        ("d", flatten(vec![Schema::Object(ObjectSchema(fields(vec![("@", named("int"))])))])),
    ])));
    assert_eq!(found(&object(vec![]), &schema, ""), vec![]);
    assert_eq!(found(&object(vec![(scalar("x"), scalar("1"))]), &schema, ""), vec![]);
    assert_eq!(
        found(&object(vec![(scalar("x"), scalar("y"))]), &schema, ""),
        one("x", invalid("not a valid integer"), "'y' is not a valid integer")
    );
}

#[test]
fn a_flattened_type_that_is_not_there_is_an_error() {
    let flatten = |inner: Vec<Schema>| Schema::Flatten(FlattenSchema(inner));
    let inner = Schema::Object(ObjectSchema(fields(vec![("c", flatten(vec![named("Nope")]))])));
    let schema = Schema::Object(ObjectSchema(fields(vec![
        ("a", flatten(vec![])),
        ("b", flatten(vec![inner])),
    ])));
    assert_eq!(
        found(&object(vec![]), &schema, "p"),
        vec![
            (
                "p".to_string(),
                schema_error("flatten schema must reference a type"),
                "invalid flatten schema".to_string()
            ),
            (
                "p".to_string(),
                ValidationErrorKind::UnknownType { name: "Nope".to_string() },
                "unknown type 'Nope'".to_string()
            ),
        ]
    );
}

#[test]
fn recursive_types_end_with_the_value() {
    let tree = Schema::Object(ObjectSchema(fields(vec![(
        "@",
        named("Tree"),
    )])));
    let file = file(vec![("@", named("Tree")), ("Tree", tree)]);
    let leaf = || object(vec![]);
    let value = object(vec![(scalar("l"), leaf()), (scalar("r"), object(vec![(scalar("x"), leaf())]))]);
    assert!(validate(&value, &file).is_valid());
    let value = object(vec![(scalar("l"), object(vec![(scalar("x"), scalar("1"))]))]);
    let result = validate(&value, &file);
    assert_eq!(result.errors.len(), 1);
    assert_eq!(result.errors[0].path, "l.x");
}

#[test]
fn documents() {
    let with_root = file(vec![("@", named("int")), ("Flag", named("bool"))]);
    assert!(validate(&scalar("1"), &with_root).is_valid());
    assert!(validate_as(&scalar("1"), &with_root, "@").is_valid());
    assert!(validate_as(&scalar("true"), &with_root, "Flag").is_valid());
    let result = validate_as(&scalar("true"), &with_root, "Nope");
    assert_eq!(
        result.errors[0].kind,
        ValidationErrorKind::UnknownType { name: "Nope".to_string() }
    );
    assert_eq!(result.errors[0].message, "unknown type 'Nope'");
    let result = validate(&scalar("1"), &file(vec![]));
    assert_eq!(result.errors[0].kind, schema_error("no root type (@) defined in schema"));
    assert_eq!(result.errors[0].message, "schema has no root type definition");
    assert_eq!(result.errors[0].path, "");
    let validator = Validator::new(&with_root);
    assert_eq!(validator.validate_document(&scalar("x")).errors.len(), 1);
    assert_eq!(validator.validate_as_type(&scalar("x"), "Flag").errors.len(), 1);
}

#[test]
fn the_path_only_labels() {
    let schema = Schema::Sequence(SeqSchema(vec![named("int")]));
    let value = sequence(vec![scalar("x"), scalar("1"), scalar("y")]);
    for path in ["", "a", "a.b[3]"] {
        let errors = found(&value, &schema, path);
        assert_eq!(errors.len(), 2);
        assert!(errors.iter().all(|e| e.0.starts_with(path)));
    }
}

#[test]
fn results() {
    let mut a = ValidationResult::ok();
    assert!(a.is_valid());
    a.warning(ValidationWarning::new(
        "w",
        ValidationWarningKind::IgnoredField { field: "x".to_string() },
        "ignored",
    ));
    assert!(a.is_valid());
    a.error(ValidationError::new("a", ValidationErrorKind::ExpectedObject, "first"));
    let mut b = ValidationResult::ok();
    b.error(ValidationError::new("b", ValidationErrorKind::ExpectedTagged, "second"));
    b.warning(ValidationWarning::new(
        "v",
        ValidationWarningKind::Deprecated { reason: "old".to_string() },
        "deprecated",
    ));
    a.merge(b);
    assert!(!a.is_valid());
    let messages: Vec<&str> = a.errors.iter().map(|e| e.message.as_str()).collect();
    assert_eq!(messages, vec!["first", "second"]);
    let paths: Vec<&str> = a.warnings.iter().map(|w| w.path.as_str()).collect();
    assert_eq!(paths, vec!["w", "v"]);
    assert_eq!(a.warnings[0].message, "ignored");
    assert_eq!(a.warnings[1].span, None);
}

#[test]
fn errors_describe_themselves() {
    let error = ValidationError::new("", ValidationErrorKind::ExpectedScalar, "oops");
    assert_eq!(error.describe(), "oops");
    let error = ValidationError::new("a.b", ValidationErrorKind::ExpectedScalar, "oops")
        .with_span(Some(Span::new(1, 2)));
    assert_eq!(error.describe(), "a.b: oops");
    assert_eq!(error.span, Some(Span::new(1, 2)));
}

#[test]
fn names_of_values() {
    assert_eq!(value_type_name(&scalar("")), "scalar");
    assert_eq!(value_type_name(&Value::Unit), "unit");
    assert_eq!(value_type_name(&tagged("t", None)), "tagged");
    assert_eq!(value_type_name(&sequence(vec![])), "sequence");
    assert_eq!(value_type_name(&object(vec![])), "object");
    assert!(Value::Unit.is_unit());
    assert!(!scalar("").is_unit());
}

#[test]
fn variants_as_they_are_written() {
    let variant = EnumVariant::Struct(ObjectSchema(fields(vec![("x", named("int"))])));
    assert!(matches!(variant, EnumVariant::Struct(ref o) if o.0.contains_key("x")));
    assert!(matches!(EnumVariant::Unit, EnumVariant::Unit));
    let tag = EnumTagSchema { enum_variants: EnumSchema(fields(vec![("a", named("unit"))])) };
    assert!(tag.enum_variants.0.contains_key("a"));
}

#[test]
fn the_schema_of_schemas_is_there() {
    assert!(META_SCHEMA_SOURCE.contains("id https://styx-lang.org/schemas/schema"));
    assert!(META_SCHEMA_SOURCE.contains("version 2026-01-11"));
}

#[test]
fn types_that_refer_to_themselves_are_told_apart() {
    let union = |list: Vec<Schema>| Schema::Union(UnionSchema(list));
    let optional = |inner: Schema| Schema::Optional(OptionalSchema(vec![inner]));
    let flatten = |inner: Schema| Schema::Flatten(FlattenSchema(vec![inner]));
    assert!(is_guarded(&file(vec![])));
    assert!(is_guarded(&file(vec![("a", named("b")), ("b", named("missing"))])));
    assert!(is_guarded(&file(vec![
        ("c", union(vec![named("b"), named("string")])),
        ("b", optional(named("a"))),
        ("a", flatten(named("int"))),
    ])));
    let node = Schema::Object(ObjectSchema(fields(vec![("next", optional(named("node")))])));
    assert!(is_guarded(&file(vec![("node", node)])));
    assert!(is_guarded(&file(vec![("string", named("string"))])));
    assert!(is_guarded(&file(vec![("a", union(vec![])), ("b", Schema::Type { name: None })])));
    assert!(!is_guarded(&file(vec![("a", named("a"))])));
    assert!(!is_guarded(&file(vec![("a", named("b")), ("b", optional(named("a")))])));
    assert!(!is_guarded(&file(vec![
        ("ok", named("int")),
        ("a", union(vec![named("int"), flatten(named("b"))])),
        ("b", named("a")),
    ])));
    assert!(!is_guarded(&file(vec![("string", named("a")), ("a", named("a"))])));
    let inside = |schema: Schema| Schema::Object(ObjectSchema(fields(vec![("x", schema)])));
    assert!(is_guarded(&file(vec![("a", inside(flatten(named("b")))), ("b", inside(named("a")))])));
    assert!(!is_guarded(&file(vec![("a", inside(flatten(named("a"))))])));
    assert!(!is_guarded(&file(vec![
        ("a", inside(flatten(named("b")))),
        ("b", inside(flatten(named("a")))),
    ])));
}
