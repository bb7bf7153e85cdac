//! The fields of object types, those of flattened types in their place.
use crate::schema::check;
use crate::schema::names;
use crate::schema::names::NameMap;
use crate::schema::types::{ObjectSchema, Schema, SchemaFile};
use crate::schema::validate;
use crate::text;
use vstd::prelude::*;

verus! {

/// The name of a field and its schema.
pub type Field = (Seq<char>, Schema);

/// The schema of the first of the fields from number `i` on with this name.
pub open spec fn find(all: Seq<Field>, name: Seq<char>, i: nat) -> Option<Schema>
    decreases all.len() - i,
{
    if i >= all.len() {
        None
    } else if all[i as int].0 == name {
        Some(all[i as int].1)
    } else {
        find(all, name, i + 1)
    }
}

/// The object type `fields` gives `name` a schema of its own.
pub open spec fn is_own(fields: NameMap<Schema>, name: Seq<char>) -> bool {
    fields.find(name) matches Some(schema) && !(schema is Flatten)
}

/// `all` and, of the fields from number `k` of `more` on, those whose names
/// neither occur in `all` nor belong to the object type `fields` itself.
pub open spec fn with_more(
    fields: NameMap<Schema>,
    all: Seq<Field>,
    more: Seq<Field>,
    k: nat,
) -> Seq<Field>
    decreases more.len() - k,
{
    if k >= more.len() {
        all
    } else {
        let field = more[k as int];
        if is_own(fields, field.0) || find(all, field.0, 0) is Some {
            with_more(fields, all, more, k + 1)
        } else {
            with_more(fields, all.push(field), more, k + 1)
        }
    }
}

/// What the type is whose fields are flattened.
pub enum Target {
    /// An object type.
    Object(ObjectSchema),
    /// Nothing with fields.
    Other,
    /// There is no type.
    Absent,
    /// There is no type of this name.
    Unknown(Seq<char>),
}

/// What `schema` is or names, where that can be told by following at most
/// `depth` schemas into one another.
pub open spec fn target(depth: nat, file: SchemaFile, schema: Schema) -> Option<Target>
    decreases depth,
{
    if depth == 0 {
        None
    } else {
        let d = (depth - 1) as nat;
        match schema {
            Schema::Object(fields) => Some(Target::Object(fields)),
            Schema::Type { name: Some(name) } => if check::builtin(name@) is Some {
                Some(Target::Other)
            } else {
                match file.schema.find(name@) {
                    Some(named) => target(d, file, named),
                    None => Some(Target::Unknown(name@)),
                }
            },
            Schema::Flatten(inner) => if inner.0@.len() > 0 {
                target(d, file, inner.0@[0])
            } else {
                Some(Target::Absent)
            },
            _ => Some(Target::Other),
        }
    }
}

/// The fields of an object type.
#[verifier::ext_equal]
pub struct Inlined {
    /// The fields, those of flattened types in their place.
    pub fields: Seq<Field>,
    /// The types that should be flattened and are not there, with their names.
    pub broken: Seq<Option<Seq<char>>>,
}

/// No fields.
pub open spec fn no_fields() -> Inlined {
    Inlined { fields: Seq::empty(), broken: Seq::empty() }
}

/// `all` and one more field.
pub open spec fn with_field(all: Inlined, field: Field) -> Inlined {
    Inlined { fields: all.fields.push(field), ..all }
}

/// `all` and one more type that is not there.
pub open spec fn with_broken(all: Inlined, name: Option<Seq<char>>) -> Inlined {
    Inlined { broken: all.broken.push(name), ..all }
}

/// `all` and the fields of a type that the object type `fields` flattens.
pub open spec fn with_inner(fields: NameMap<Schema>, all: Inlined, more: Inlined) -> Inlined {
    Inlined {
        fields: with_more(fields, all.fields, more.fields, 0),
        broken: all.broken + more.broken,
    }
}

/// The fields of the object type `fields`, those of flattened types in their
/// place, where that can be told by following at most `depth` schemas into one
/// another. A name of the object type itself comes before those of flattened
/// types, and of these the first one counts.
pub open spec fn inlined(depth: nat, file: SchemaFile, fields: NameMap<Schema>) -> Option<Inlined>
    decreases depth, fields.names().len() + 1,
{
    inlined_from(depth, file, fields, no_fields(), 0)
}

/// `all` and the fields of the object type `fields` from number `j` on. See
/// [`inlined`].
pub open spec fn inlined_from(
    depth: nat,
    file: SchemaFile,
    fields: NameMap<Schema>,
    all: Inlined,
    j: nat,
) -> Option<Inlined>
    decreases depth, fields.names().len() - j,
{
    if j >= fields.names().len() {
        Some(all)
    } else {
        let schema = fields.values()[j as int];
        if schema is Flatten {
            match target(depth, file, schema) {
                Some(Target::Object(inner)) => match inlined((depth - 1) as nat, file, inner.0) {
                    Some(more) => inlined_from(
                        depth,
                        file,
                        fields,
                        with_inner(fields, all, more),
                        j + 1,
                    ),
                    None => None,
                },
                Some(Target::Other) => inlined_from(depth, file, fields, all, j + 1),
                Some(Target::Absent) => inlined_from(
                    depth,
                    file,
                    fields,
                    with_broken(all, None),
                    j + 1,
                ),
                Some(Target::Unknown(name)) => inlined_from(
                    depth,
                    file,
                    fields,
                    with_broken(all, Some(name)),
                    j + 1,
                ),
                None => None,
            }
        } else {
            let field = (fields.names()[j as int], schema);
            inlined_from(depth, file, fields, with_field(all, field), j + 1)
        }
    }
}

/// What can be told within `d` can be told within `e`, and is the same.
pub proof fn lemma_deeper_target(d: nat, e: nat, file: SchemaFile, schema: Schema)
    requires
        d <= e,
        target(d, file, schema) is Some,
    ensures
        target(e, file, schema) == target(d, file, schema),
    decreases d,
{
    let d1 = (d - 1) as nat;
    let e1 = (e - 1) as nat;
    match schema {
        Schema::Type { name: Some(name) } => {
            if check::builtin(name@) is None {
                if let Some(named) = file.schema.find(name@) {
                    lemma_deeper_target(d1, e1, file, named);
                }
            }
        },
        Schema::Flatten(inner) => {
            if inner.0@.len() > 0 {
                lemma_deeper_target(d1, e1, file, inner.0@[0]);
            }
        },
        _ => {},
    }
}

/// What can be told within `d` can be told within `e`, and is the same.
pub proof fn lemma_deeper(d: nat, e: nat, file: SchemaFile, fields: NameMap<Schema>)
    requires
        d <= e,
        inlined(d, file, fields) is Some,
    ensures
        inlined(e, file, fields) == inlined(d, file, fields),
    decreases d, fields.names().len() + 1,
{
    lemma_deeper_from(d, e, file, fields, no_fields(), 0);
}

/// See [`lemma_deeper`].
pub proof fn lemma_deeper_from(
    d: nat,
    e: nat,
    file: SchemaFile,
    fields: NameMap<Schema>,
    all: Inlined,
    j: nat,
)
    requires
        d <= e,
        inlined_from(d, file, fields, all, j) is Some,
    ensures
        inlined_from(e, file, fields, all, j) == inlined_from(d, file, fields, all, j),
    decreases d, fields.names().len() - j,
{
    if j < fields.names().len() {
        let schema = fields.values()[j as int];
        if schema is Flatten {
            lemma_deeper_target(d, e, file, schema);
            match target(d, file, schema)->0 {
                Target::Object(inner) => {
                    let more = inlined((d - 1) as nat, file, inner.0)->0;
                    lemma_deeper((d - 1) as nat, (e - 1) as nat, file, inner.0);
                    lemma_deeper_from(d, e, file, fields, with_inner(fields, all, more), j + 1);
                },
                Target::Other => lemma_deeper_from(d, e, file, fields, all, j + 1),
                Target::Absent => {
                    lemma_deeper_from(d, e, file, fields, with_broken(all, None), j + 1);
                },
                Target::Unknown(name) => {
                    lemma_deeper_from(d, e, file, fields, with_broken(all, Some(name)), j + 1);
                },
            }
        } else {
            let field = (fields.names()[j as int], schema);
            lemma_deeper_from(d, e, file, fields, with_field(all, field), j + 1);
        }
    }
}

/// What the fields of the object type `fields` are can be told: following
/// flattened types into one another comes to an end.
pub open spec fn settled(file: SchemaFile, fields: NameMap<Schema>) -> bool {
    exists|depth: nat| #[trigger] inlined(depth, file, fields) is Some
}

/// The fields of the object type `fields`, those of flattened types in their
/// place.
pub open spec fn all_of(file: SchemaFile, fields: NameMap<Schema>) -> Inlined {
    let depth = choose|depth: nat| #[trigger] inlined(depth, file, fields) is Some;
    inlined(depth, file, fields)->0
}

/// Whatever depth is enough, the fields that are found there are all fields.
pub proof fn lemma_all_of(depth: nat, file: SchemaFile, fields: NameMap<Schema>)
    requires
        inlined(depth, file, fields) is Some,
    ensures
        settled(file, fields),
        inlined(depth, file, fields) == Some(all_of(file, fields)),
{
    let other = choose|d: nat| #[trigger] inlined(d, file, fields) is Some;
    if depth <= other {
        lemma_deeper(depth, other, file, fields);
    } else {
        lemma_deeper(other, depth, file, fields);
    }
}

// --- what they are ---

/// The fields that the object type `fields` takes from the type that it
/// flattens at number `j`.
pub open spec fn flattened(file: SchemaFile, fields: NameMap<Schema>, j: int) -> Seq<Field> {
    let depth = choose|depth: nat| #[trigger]
        target(depth, file, fields.values()[j]) is Some;
    match target(depth, file, fields.values()[j])->0 {
        Target::Object(inner) => all_of(file, inner.0).fields,
        _ => Seq::empty(),
    }
}

/// The schema of the field `name` as the object type `fields` has it from
/// number `j` on: its own, or that of the first flattened type that has one.
pub open spec fn looked_up(
    file: SchemaFile,
    fields: NameMap<Schema>,
    name: Seq<char>,
    j: nat,
) -> Option<Schema>
    decreases fields.names().len() - j,
{
    if j >= fields.names().len() {
        None
    } else if fields.values()[j as int] is Flatten {
        if !is_own(fields, name) && find(flattened(file, fields, j as int), name, 0) is Some {
            find(flattened(file, fields, j as int), name, 0)
        } else {
            looked_up(file, fields, name, j + 1)
        }
    } else if fields.names()[j as int] == name {
        Some(fields.values()[j as int])
    } else {
        looked_up(file, fields, name, j + 1)
    }
}

/// One more field is found where no other has its name.
proof fn lemma_find_push(all: Seq<Field>, field: Field, name: Seq<char>, i: nat)
    requires
        i <= all.len(),
    ensures
        find(all.push(field), name, i) == match find(all, name, i) {
            Some(schema) => Some(schema),
            None => if field.0 == name {
                Some(field.1)
            } else {
                None
            },
        },
    decreases all.len() - i,
{
    if i < all.len() {
        lemma_find_push(all, field, name, i + 1);
    } else {
        assert(find(all.push(field), name, i + 1) is None);
    }
}

/// What is found where fields were added.
proof fn lemma_find_more(
    fields: NameMap<Schema>,
    all: Seq<Field>,
    more: Seq<Field>,
    k: nat,
    name: Seq<char>,
)
    requires
        k <= more.len(),
    ensures
        find(with_more(fields, all, more, k), name, 0) == match find(all, name, 0) {
            Some(schema) => Some(schema),
            None => if is_own(fields, name) {
                None
            } else {
                find(more, name, k)
            },
        },
    decreases more.len() - k,
{
    if k < more.len() {
        let field = more[k as int];
        if is_own(fields, field.0) || find(all, field.0, 0) is Some {
            lemma_find_more(fields, all, more, k + 1, name);
        } else {
            lemma_find_push(all, field, name, 0);
            lemma_find_more(fields, all.push(field), more, k + 1, name);
        }
    }
}

/// What is found among all fields.
proof fn lemma_find(
    d: nat,
    file: SchemaFile,
    fields: NameMap<Schema>,
    all: Inlined,
    j: nat,
    name: Seq<char>,
)
    requires
        j <= fields.names().len(),
        inlined_from(d, file, fields, all, j) is Some,
    ensures
        find(inlined_from(d, file, fields, all, j)->0.fields, name, 0) == match find(
            all.fields,
            name,
            0,
        ) {
            Some(schema) => Some(schema),
            None => looked_up(file, fields, name, j),
        },
    decreases fields.names().len() - j,
{
    if j < fields.names().len() {
        let schema = fields.values()[j as int];
        if schema is Flatten {
            let other = choose|depth: nat| #[trigger] target(depth, file, schema) is Some;
            if d <= other {
                lemma_deeper_target(d, other, file, schema);
            } else {
                lemma_deeper_target(other, d, file, schema);
            }
            match target(d, file, schema)->0 {
                Target::Object(inner) => {
                    let more = inlined((d - 1) as nat, file, inner.0)->0;
                    lemma_all_of((d - 1) as nat, file, inner.0);
                    assert(more.fields == flattened(file, fields, j as int));
                    lemma_find_more(fields, all.fields, more.fields, 0, name);
                    lemma_find(d, file, fields, with_inner(fields, all, more), j + 1, name);
                },
                Target::Other => {
                    assert(find(flattened(file, fields, j as int), name, 0) is None);
                    lemma_find(d, file, fields, all, j + 1, name);
                },
                Target::Absent => {
                    assert(find(flattened(file, fields, j as int), name, 0) is None);
                    lemma_find(d, file, fields, with_broken(all, None), j + 1, name);
                },
                Target::Unknown(unknown) => {
                    assert(find(flattened(file, fields, j as int), name, 0) is None);
                    lemma_find(d, file, fields, with_broken(all, Some(unknown)), j + 1, name);
                },
            }
        } else {
            let field = (fields.names()[j as int], schema);
            lemma_find_push(all.fields, field, name, 0);
            lemma_find(d, file, fields, with_field(all, field), j + 1, name);
        }
    }
}

/// An object type has the fields that it names itself, with the schemas that it
/// gives them, and those of the types that it flattens. Of two flattened types
/// with a field of the same name the first one counts.
pub proof fn law_flattened(file: SchemaFile, fields: NameMap<Schema>, name: Seq<char>)
    requires
        settled(file, fields),
    ensures
        find(all_of(file, fields).fields, name, 0) == looked_up(file, fields, name, 0),
        is_own(fields, name) ==> find(all_of(file, fields).fields, name, 0) == fields.find(name),
        forall|j: int|
            0 <= j < fields.names().len() && fields.values()[j] is Flatten && find(
                #[trigger] flattened(file, fields, j),
                name,
                0,
            ) is Some ==> find(all_of(file, fields).fields, name, 0) is Some,
{
    let d = choose|d: nat| #[trigger] inlined(d, file, fields) is Some;
    lemma_find(d, file, fields, no_fields(), 0, name);
    assert(find(Seq::<Field>::empty(), name, 0) is None);
    fields.lemma_values();
    if is_own(fields, name) {
        lemma_looked_up_own(file, fields, name, 0);
    }
    assert forall|j: int|
        0 <= j < fields.names().len() && fields.values()[j] is Flatten && find(
            #[trigger] flattened(file, fields, j),
            name,
            0,
        ) is Some implies looked_up(file, fields, name, 0) is Some by {
        if !is_own(fields, name) {
            lemma_looked_up_some(file, fields, name, 0, j as nat);
        }
    }
}

/// A name of the object type itself is looked up there.
proof fn lemma_looked_up_own(file: SchemaFile, fields: NameMap<Schema>, name: Seq<char>, j: nat)
    requires
        is_own(fields, name),
        j <= names::place(fields.names(), name, 0),
    ensures
        looked_up(file, fields, name, j) == fields.find(name),
    decreases fields.names().len() - j,
{
    names::lemma_place(fields.names(), name, 0);
    if j < names::place(fields.names(), name, 0) {
        lemma_looked_up_own(file, fields, name, j + 1);
    }
}

/// A name of a flattened type is looked up in it, or before it.
proof fn lemma_looked_up_some(
    file: SchemaFile,
    fields: NameMap<Schema>,
    name: Seq<char>,
    j: nat,
    at: nat,
)
    requires
        !is_own(fields, name),
        j <= at < fields.names().len(),
        fields.values()[at as int] is Flatten,
        find(flattened(file, fields, at as int), name, 0) is Some,
    ensures
        looked_up(file, fields, name, j) is Some,
    decreases at - j,
{
    if j < at {
        lemma_looked_up_some(file, fields, name, j + 1, at);
    }
}

// --- finding them ---

/// A field as it stands in a schema.
pub struct FieldRef<'a> {
    /// The name.
    pub name: &'a str,
    /// The schema.
    pub schema: &'a Schema,
}

/// The fields of a list.
pub open spec fn fields_of<'a>(list: Seq<FieldRef<'a>>) -> Seq<Field> {
    list.map_values(|f: FieldRef<'a>| (f.name@, *f.schema))
}

/// The schema of the first field with this name.
pub(crate) fn find_field<'a>(list: &Vec<FieldRef<'a>>, name: &str) -> (schema: Option<&'a Schema>)
    ensures
        match schema {
            Some(s) => find(fields_of(list@), name@, 0) == Some(*s),
            None => find(fields_of(list@), name@, 0) is None,
        },
{
    let mut i: usize = 0;
    while i < list.len()
        invariant
            i <= list@.len(),
            find(fields_of(list@), name@, 0) == find(fields_of(list@), name@, i as nat),
        decreases list@.len() - i,
    {
        assert(fields_of(list@)[i as int] == (list@[i as int].name@, *list@[i as int].schema));
        if text::equal(list[i].name, name) {
            return Some(list[i].schema);
        }
        i += 1;
    }
    None
}

/// What the type is whose fields are flattened. See [`Target`].
enum TargetRef<'a> {
    Object(&'a ObjectSchema),
    Other,
    Absent,
    Unknown(&'a str),
}

/// What `r` refers to.
spec fn target_of<'a>(r: TargetRef<'a>) -> Target {
    match r {
        TargetRef::Object(o) => Target::Object(*o),
        TargetRef::Other => Target::Other,
        TargetRef::Absent => Target::Absent,
        TargetRef::Unknown(name) => Target::Unknown(name@),
    }
}

/// What `schema` is or names.
fn find_target<'a>(file: &'a SchemaFile, schema: &'a Schema, Ghost(depth): Ghost<nat>) -> (r:
    TargetRef<'a>)
    requires
        target(depth, *file, *schema) is Some,
    ensures
        target(depth, *file, *schema) == Some(target_of(r)),
    decreases depth,
{
    match schema {
        Schema::Object(fields) => TargetRef::Object(fields),
        Schema::Type { name: Some(name) } => {
            if validate::builtin(name.as_str()).is_some() {
                return TargetRef::Other;
            }
            match file.schema.get(name.as_str()) {
                Some(named) => find_target(file, named, Ghost((depth - 1) as nat)),
                None => TargetRef::Unknown(name.as_str()),
            }
        },
        Schema::Flatten(inner) => {
            if inner.0.len() == 0 {
                return TargetRef::Absent;
            }
            find_target(file, &inner.0[0], Ghost((depth - 1) as nat))
        },
        _ => TargetRef::Other,
    }
}

/// Whether the object type `fields` gives `name` a schema of its own.
fn has_own(fields: &NameMap<Schema>, name: &str) -> (r: bool)
    ensures
        r == is_own(*fields, name@),
{
    match fields.get(name) {
        Some(schema) => !matches!(schema, Schema::Flatten(_)),
        None => false,
    }
}

/// Adds those of `more` whose names are new to `list` and to `fields` itself.
fn add_more<'a>(
    fields: &NameMap<Schema>,
    list: Vec<FieldRef<'a>>,
    more: &Vec<FieldRef<'a>>,
) -> (r: Vec<FieldRef<'a>>)
    ensures
        fields_of(r@) == with_more(*fields, fields_of(list@), fields_of(more@), 0),
{
    let mut r = list;
    let ghost goal = with_more(*fields, fields_of(list@), fields_of(more@), 0);
    let mut k: usize = 0;
    while k < more.len()
        invariant
            k <= more@.len(),
            goal == with_more(*fields, fields_of(r@), fields_of(more@), k as nat),
        decreases more@.len() - k,
    {
        let name = more[k].name;
        let schema = more[k].schema;
        let ghost before = fields_of(r@);
        assert(fields_of(more@)[k as int] == (name@, *schema));
        if !has_own(fields, name) && find_field(&r, name).is_none() {
            r.push(FieldRef { name, schema });
            assert(fields_of(r@) =~= before.push((name@, *schema)));
        }
        k += 1;
    }
    r
}

/// The fields of an object type. See [`Inlined`].
pub struct FieldList<'a> {
    /// The fields.
    pub fields: Vec<FieldRef<'a>>,
    /// The types that should be flattened and are not there.
    pub broken: Vec<Option<&'a str>>,
}

/// The names in a list.
pub open spec fn names_of<'a>(list: Seq<Option<&'a str>>) -> Seq<Option<Seq<char>>> {
    list.map_values(
        |name: Option<&'a str>|
            match name {
                Some(n) => Some(n@),
                None => None,
            },
    )
}

impl<'a> View for FieldList<'a> {
    type V = Inlined;

    open spec fn view(&self) -> Inlined {
        Inlined { fields: fields_of(self.fields@), broken: names_of(self.broken@) }
    }
}

/// Adds a type that is not there.
fn add_broken<'a>(list: &mut FieldList<'a>, name: Option<&'a str>)
    ensures
        final(list)@ == with_broken(
            old(list)@,
            match name {
                Some(n) => Some(n@),
                None => None,
            },
        ),
{
    let ghost before = list@;
    list.broken.push(name);
    assert(list@.broken =~= before.broken.push(
        match name {
            Some(n) => Some(n@),
            None => None,
        },
    ));
}

/// The fields of the object type `fields`, those of flattened types in their
/// place.
pub(crate) fn all_fields<'a>(
    file: &'a SchemaFile,
    fields: &'a NameMap<Schema>,
    Ghost(depth): Ghost<nat>,
) -> (list: FieldList<'a>)
    requires
        inlined(depth, *file, *fields) is Some,
    ensures
        inlined(depth, *file, *fields) == Some(list@),
    decreases depth,
{
    let mut list: FieldList<'a> = FieldList { fields: Vec::new(), broken: Vec::new() };
    let mut j: usize = 0;
    assert(list@ =~= no_fields());
    proof {
        fields.lemma_values();
    }
    while j < fields.len()
        invariant
            j <= fields.names().len() == fields.values().len(),
            inlined(depth, *file, *fields) is Some,
            inlined(depth, *file, *fields) == inlined_from(
                depth,
                *file,
                *fields,
                list@,
                j as nat,
            ),
        decreases fields.names().len() - j,
    {
        let schema = fields.value_at(j);
        let ghost before = list@;
        if matches!(schema, Schema::Flatten(_)) {
            match find_target(file, schema, Ghost(depth)) {
                TargetRef::Object(inner) => {
                    let mut more = all_fields(file, &inner.0, Ghost((depth - 1) as nat));
                    let ghost added = more@;
                    let FieldList { fields: own, broken } = list;
                    let mut broken = broken;
                    let ghost had = broken@;
                    let ghost has = more.broken@;
                    broken.append(&mut more.broken);
                    assert(names_of(broken@) =~= names_of(had) + names_of(has));
                    list = FieldList { fields: add_more(fields, own, &more.fields), broken };
                    assert(list@ =~= with_inner(*fields, before, added));
                },
                TargetRef::Other => {},
                TargetRef::Absent => add_broken(&mut list, None),
                TargetRef::Unknown(name) => add_broken(&mut list, Some(name)),
            }
        } else {
            let name = fields.name_at(j);
            list.fields.push(FieldRef { name, schema });
            assert(list@.fields =~= before.fields.push((name@, *schema)));
            assert(list@ =~= with_field(before, (name@, *schema)));
        }
        j += 1;
    }
    list
}

} // verus!
