//! Whether the types of a schema refer to themselves without end.
use crate::schema::check;
use crate::schema::laws;
use crate::schema::names;
use crate::schema::names::NameMap;
use crate::schema::types::{Schema, SchemaFile};
use crate::schema::validate;
use vstd::prelude::*;

verus! {

// --- types in the order of their ranks ---

/// A type that `name` may refer to: one that every schema has, one that is not
/// there, or one of `types` that is marked.
pub open spec fn may_name(types: NameMap<Schema>, marked: Seq<bool>, name: Seq<char>) -> bool {
    let p = names::place(types.names(), name, 0);
    check::builtin(name) is Some || p >= types.names().len() || marked[p as int]
}

/// Every type that `schema` refers to without going into the value may be named.
pub open spec fn may_refer(types: NameMap<Schema>, marked: Seq<bool>, schema: Schema) -> bool
    decreases schema,
{
    match schema {
        Schema::Type { name: Some(name) } => may_name(types, marked, name@),
        Schema::Union(union) => forall|i: int|
            0 <= i < union.0@.len() ==> may_refer(types, marked, #[trigger] union.0@[i]),
        Schema::Optional(inner) => inner.0@.len() > 0 ==> may_refer(types, marked, inner.0@[0]),
        Schema::Flatten(inner) => inner.0@.len() > 0 ==> may_refer(types, marked, inner.0@[0]),
        Schema::Object(fields) => {
            proof {
                fields.0.lemma_values_below();
                assert(decreases_to!(schema => schema->Object_0.0));
            }
            forall|j: int|
                0 <= j < fields.0.values().len() && (#[trigger] fields.0.values()[j]) is Flatten
                    ==> may_refer(types, marked, fields.0.values()[j])
        },
        _ => true,
    }
}

/// The rank of a name: that of its type, or the lowest one if it has none.
pub open spec fn rank_of(types: NameMap<Schema>, ranks: Seq<nat>) -> spec_fn(Seq<char>) -> nat {
    |name: Seq<char>|
        {
            let p = names::place(types.names(), name, 0);
            if p < types.names().len() {
                ranks[p as int]
            } else {
                0
            }
        }
}

/// The marked types have ranks below `next`, and refer to marked types of
/// lower rank only.
pub open spec fn ranked(
    types: NameMap<Schema>,
    marked: Seq<bool>,
    ranks: Seq<nat>,
    next: nat,
) -> bool {
    &&& marked.len() == ranks.len() == types.names().len() == types.values().len()
    &&& next > 0
    &&& forall|i: int| 0 <= i < ranks.len() ==> #[trigger] ranks[i] < next
    &&& forall|i: int|
        0 <= i < marked.len() && #[trigger] marked[i] ==> {
            &&& 0 < ranks[i]
            &&& may_refer(types, marked, types.values()[i])
            &&& laws::refers_below(types.values()[i], rank_of(types, ranks), ranks[i])
        }
}

/// Marking a type that refers to marked ones only keeps what the others refer
/// to, and gives it a rank above them.
proof fn lemma_mark(
    types: NameMap<Schema>,
    marked: Seq<bool>,
    ranks: Seq<nat>,
    next: nat,
    at: int,
    schema: Schema,
    r: nat,
)
    requires
        ranked(types, marked, ranks, next),
        0 <= at < marked.len(),
        !marked[at],
        may_refer(types, marked, schema),
        r > 0,
        r == next || laws::refers_below(schema, rank_of(types, ranks), r),
    ensures
        may_refer(types, marked.update(at, true), schema),
        laws::refers_below(schema, rank_of(types, ranks.update(at, next)), r),
    decreases schema,
{
    match schema {
        Schema::Type { name: Some(name) } => {
            names::lemma_place(types.names(), name@, 0);
        },
        Schema::Union(union) => {
            assert forall|i: int| 0 <= i < union.0@.len() implies may_refer(
                types,
                marked.update(at, true),
                #[trigger] union.0@[i],
            ) && laws::refers_below(
                union.0@[i],
                rank_of(types, ranks.update(at, next)),
                r,
            ) by {
                lemma_mark(types, marked, ranks, next, at, union.0@[i], r);
            }
        },
        Schema::Optional(inner) => {
            if inner.0@.len() > 0 {
                lemma_mark(types, marked, ranks, next, at, inner.0@[0], r);
            }
        },
        Schema::Flatten(inner) => {
            if inner.0@.len() > 0 {
                lemma_mark(types, marked, ranks, next, at, inner.0@[0], r);
            }
        },
        Schema::Object(fields) => {
            let values = fields.0.values();
            fields.0.lemma_values_below();
            assert forall|j: int| 0 <= j < values.len() && (#[trigger] values[j])
                is Flatten implies may_refer(types, marked.update(at, true), values[j])
                && laws::refers_below(
                values[j],
                rank_of(types, ranks.update(at, next)),
                r,
            ) by {
                assert(decreases_to!(schema => schema->Object_0.0));
                lemma_mark(types, marked, ranks, next, at, values[j], r);
            }
        },
        _ => {},
    }
}

/// A type that refers to marked ones only can be marked.
proof fn lemma_ranked(
    types: NameMap<Schema>,
    marked: Seq<bool>,
    ranks: Seq<nat>,
    next: nat,
    at: int,
)
    requires
        ranked(types, marked, ranks, next),
        0 <= at < marked.len(),
        !marked[at],
        may_refer(types, marked, types.values()[at]),
    ensures
        ranked(types, marked.update(at, true), ranks.update(at, next), next + 1),
{
    let now = marked.update(at, true);
    let with_rank = ranks.update(at, next);
    assert forall|i: int| 0 <= i < now.len() && #[trigger] now[i] implies {
        &&& 0 < with_rank[i]
        &&& may_refer(types, now, types.values()[i])
        &&& laws::refers_below(types.values()[i], rank_of(types, with_rank), with_rank[i])
    } by {
        if i == at {
            lemma_mark(types, marked, ranks, next, at, types.values()[i], next);
        } else {
            assert(marked[i]);
            lemma_mark(types, marked, ranks, next, at, types.values()[i], ranks[i]);
        }
    }
}

/// The type at `i` is the one that its name stands for.
pub open spec fn is_named(types: NameMap<Schema>, i: int) -> bool {
    names::place(types.names(), types.names()[i], 0) == i
}

/// Where all types are marked, their ranks show that none refers to itself.
proof fn lemma_guarded(file: SchemaFile, marked: Seq<bool>, ranks: Seq<nat>, next: nat)
    requires
        ranked(file.schema, marked, ranks, next),
        forall|i: int|
            0 <= i < marked.len() && is_named(file.schema, i) ==> #[trigger] marked[i],
    ensures
        laws::well_guarded(file),
{
    let rank = rank_of(file.schema, ranks);
    assert forall|name: Seq<char>| #[trigger] rank(name) < next by {
        names::lemma_place(file.schema.names(), name, 0);
    }
    assert forall|name: Seq<char>| #[trigger]
        file.schema.find(name) matches Some(schema) implies laws::refers_below(
        file.schema.find(name)->0,
        rank,
        rank(name),
    ) by {
        names::lemma_place(file.schema.names(), name, 0);
        let p = names::place(file.schema.names(), name, 0);
        assert(is_named(file.schema, p as int));
        assert(marked[p as int]);
    }
    assert(laws::guarded(file, rank, next));
}

// --- types that refer to themselves ---

/// A schema that may not refer to what it does refers to a type that is not
/// marked and has a lower rank.
proof fn lemma_unmarked(
    types: NameMap<Schema>,
    marked: Seq<bool>,
    rank: spec_fn(Seq<char>) -> nat,
    r: nat,
    schema: Schema,
) -> (name: Seq<char>)
    requires
        laws::refers_below(schema, rank, r),
        !may_refer(types, marked, schema),
    ensures
        !may_name(types, marked, name),
        rank(name) < r,
    decreases schema,
{
    match schema {
        Schema::Type { name: Some(name) } => name@,
        Schema::Union(union) => {
            let i = choose|i: int|
                0 <= i < union.0@.len() && !may_refer(types, marked, #[trigger] union.0@[i]);
            lemma_unmarked(types, marked, rank, r, union.0@[i])
        },
        Schema::Optional(inner) => lemma_unmarked(types, marked, rank, r, inner.0@[0]),
        Schema::Flatten(inner) => lemma_unmarked(types, marked, rank, r, inner.0@[0]),
        Schema::Object(fields) => {
            let values = fields.0.values();
            fields.0.lemma_values_below();
            assert(decreases_to!(schema => schema->Object_0.0));
            let j = choose|j: int|
                0 <= j < values.len() && (#[trigger] values[j]) is Flatten && !may_refer(
                    types,
                    marked,
                    values[j],
                );
            lemma_unmarked(types, marked, rank, r, values[j])
        },
        _ => Seq::empty(),
    }
}

/// Where no type that is not marked can be marked, every type that has a rank
/// is marked.
proof fn lemma_stuck(
    file: SchemaFile,
    marked: Seq<bool>,
    rank: spec_fn(Seq<char>) -> nat,
    bound: nat,
    name: Seq<char>,
)
    requires
        laws::guarded(file, rank, bound),
        marked.len() == file.schema.names().len(),
        forall|i: int|
            0 <= i < marked.len() && !#[trigger] marked[i] ==> !may_refer(
                file.schema,
                marked,
                file.schema.values()[i],
            ),
    ensures
        may_name(file.schema, marked, name),
    decreases rank(name),
{
    if !may_name(file.schema, marked, name) {
        names::lemma_place(file.schema.names(), name, 0);
        let p = names::place(file.schema.names(), name, 0);
        assert(!marked[p as int]);
        assert(file.schema.find(name) == Some(file.schema.values()[p as int]));
        let lower = lemma_unmarked(
            file.schema,
            marked,
            rank,
            rank(name),
            file.schema.values()[p as int],
        );
        lemma_stuck(file, marked, rank, bound, lower);
    }
}

// --- telling them apart ---

/// How many are not marked.
pub open spec fn unmarked(marked: Seq<bool>) -> nat
    decreases marked.len(),
{
    if marked.len() == 0 {
        0
    } else {
        unmarked(marked.drop_last()) + if marked.last() {
            0nat
        } else {
            1nat
        }
    }
}

/// Marking one leaves one less.
proof fn lemma_unmarked_less(marked: Seq<bool>, at: int)
    requires
        0 <= at < marked.len(),
        !marked[at],
    ensures
        unmarked(marked.update(at, true)) + 1 == unmarked(marked),
    decreases marked.len(),
{
    let now = marked.update(at, true);
    if at == marked.len() - 1 {
        assert(now.drop_last() =~= marked.drop_last());
    } else {
        assert(now.drop_last() =~= marked.drop_last().update(at, true));
        lemma_unmarked_less(marked.drop_last(), at);
    }
}

/// Whether every type that `schema` refers to may be named.
fn refers_to_marked(types: &NameMap<Schema>, marked: &Vec<bool>, schema: &Schema) -> (r: bool)
    requires
        marked@.len() == types.names().len(),
    ensures
        r == may_refer(*types, marked@, *schema),
    decreases schema,
{
    match schema {
        Schema::Type { name: Some(name) } => {
            let p = types.find_place(name.as_str());
            validate::builtin(name.as_str()).is_some() || p >= types.len() || marked[p]
        },
        Schema::Union(union) => {
            let mut i: usize = 0;
            while i < union.0.len()
                invariant
                    i <= union.0@.len(),
                    *schema == Schema::Union(*union),
                    marked@.len() == types.names().len(),
                    forall|k: int|
                        0 <= k < i ==> may_refer(*types, marked@, #[trigger] union.0@[k]),
                decreases union.0@.len() - i,
            {
                assert(schema->Union_0 == *union);
                if !refers_to_marked(types, marked, &union.0[i]) {
                    return false;
                }
                i += 1;
            }
            true
        },
        Schema::Optional(inner) => inner.0.len() == 0 || refers_to_marked(
            types,
            marked,
            &inner.0[0],
        ),
        Schema::Flatten(inner) => inner.0.len() == 0 || refers_to_marked(
            types,
            marked,
            &inner.0[0],
        ),
        Schema::Object(fields) => {
            let mut j: usize = 0;
            while j < fields.0.len()
                invariant
                    j <= fields.0.values().len(),
                    *schema == Schema::Object(*fields),
                    marked@.len() == types.names().len(),
                    forall|k: int|
                        0 <= k < j && (#[trigger] fields.0.values()[k]) is Flatten ==> may_refer(
                            *types,
                            marked@,
                            fields.0.values()[k],
                        ),
                decreases fields.0.values().len() - j,
            {
                let field = fields.0.value_at(j);
                proof {
                    fields.0.lemma_values_below();
                    assert(decreases_to!(schema => schema->Object_0.0));
                }
                if matches!(field, Schema::Flatten(_)) && !refers_to_marked(types, marked, field) {
                    return false;
                }
                j += 1;
            }
            true
        },
        _ => true,
    }
}

/// Whether no type of `file` refers to itself, directly or through others,
/// without going into the value. Then every value can be validated.
pub fn is_guarded(file: &SchemaFile) -> (r: bool)
    ensures
        r == laws::well_guarded(*file),
{
    let types = &file.schema;
    let n = types.len();
    let mut marked: Vec<bool> = Vec::new();
    while marked.len() < n
        invariant
            marked@.len() <= n,
            forall|i: int| 0 <= i < marked@.len() ==> !#[trigger] marked@[i],
        decreases n - marked@.len(),
    {
        marked.push(false);
    }
    let ghost mut ranks: Seq<nat> = Seq::new(n as nat, |i: int| 0nat);
    let ghost mut next: nat = 1;
    let mut more = true;
    while more
        invariant
            *types == file.schema,
            n == types.names().len() == types.values().len(),
            ranked(*types, marked@, ranks, next),
            !more ==> forall|i: int|
                0 <= i < n && !#[trigger] marked@[i] ==> !may_refer(
                    *types,
                    marked@,
                    types.values()[i],
                ),
        decreases unmarked(marked@) + if more {
            1nat
        } else {
            0nat
        },
    {
        more = false;
        let ghost before = unmarked(marked@);
        let mut i: usize = 0;
        while i < n
            invariant
                i <= n,
                *types == file.schema,
                n == types.names().len() == types.values().len(),
                ranked(*types, marked@, ranks, next),
                unmarked(marked@) <= before,
                more ==> unmarked(marked@) < before,
                !more ==> forall|k: int|
                    0 <= k < i && !#[trigger] marked@[k] ==> !may_refer(
                        *types,
                        marked@,
                        types.values()[k],
                    ),
            decreases n - i,
        {
            if !marked[i] && refers_to_marked(types, &marked, types.value_at(i)) {
                proof {
                    lemma_ranked(*types, marked@, ranks, next, i as int);
                    lemma_unmarked_less(marked@, i as int);
                    ranks = ranks.update(i as int, next);
                    next = next + 1;
                }
                marked.set(i, true);
                more = true;
            }
            i += 1;
        }
    }
    let mut i: usize = 0;
    while i < n
        invariant
            i <= n,
            *types == file.schema,
            n == types.names().len() == types.values().len() == marked@.len(),
            forall|k: int| 0 <= k < i && is_named(*types, k) ==> #[trigger] marked@[k],
            forall|k: int|
                0 <= k < n && !#[trigger] marked@[k] ==> !may_refer(
                    *types,
                    marked@,
                    types.values()[k],
                ),
        decreases n - i,
    {
        if !marked[i] && types.find_place(types.name_at(i)) == i {
            proof {
                if laws::well_guarded(*file) {
                    let (rank, bound) = choose|
                        rank: spec_fn(Seq<char>) -> nat,
                        bound: nat,
                    | #[trigger] laws::guarded(*file, rank, bound);
                    let name = types.names()[i as int];
                    assert(file.schema.find(name) == Some(types.values()[i as int]));
                    let lower = lemma_unmarked(
                        *types,
                        marked@,
                        rank,
                        rank(name),
                        types.values()[i as int],
                    );
                    lemma_stuck(*file, marked@, rank, bound, lower);
                }
            }
            return false;
        }
        i += 1;
    }
    proof {
        lemma_guarded(*file, marked@, ranks, next);
    }
    true
}

} // verus!
