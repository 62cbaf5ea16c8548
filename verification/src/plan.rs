//! Migration plans: the mappings a definition declares for the rows and root
//! members it takes over.

use crate::doc::{doc_member, find_doc, find_text, member, member_of, member_text, object, text_of, Doc};
use crate::model::name_view;
use crate::order::Duplicate;
use crate::table::{sorted, Table};
use crate::text::{characters, same_text};
use vstd::prelude::*;

verus! {

/// How one field takes its value from the source.
#[derive(Debug)]
pub struct FieldMigration {
    /// The source field.
    pub from: String,
    /// The transform of its value, as program text.
    pub transform: Option<String>,
    /// The exact inverse of the transform, as program text.
    pub back: Option<String>,
}

/// What a [`FieldMigration`] denotes.
#[verifier::ext_equal]
pub struct FieldPlan {
    pub from: Seq<char>,
    pub transform: Option<Seq<char>>,
    pub back: Option<Seq<char>>,
}

impl View for FieldMigration {
    type V = FieldPlan;

    open spec fn view(&self) -> FieldPlan {
        FieldPlan { from: self.from@, transform: name_view(self.transform), back: name_view(self.back) }
    }
}

fn copy_name(name: &Option<String>) -> (r: Option<String>)
    ensures
        name_view(r) == name_view(*name),
{
    match name {
        Some(n) => Some(n.clone()),
        None => None,
    }
}

impl Duplicate for FieldMigration {
    fn duplicate(&self) -> (r: Self) {
        FieldMigration {
            from: self.from.clone(),
            transform: copy_name(&self.transform),
            back: copy_name(&self.back),
        }
    }
}

/// The migration of one collection: the source collection, where it is renamed, the
/// mappings of its fields, and the migrations of the collections nested in it. Of
/// two nested migrations of one name the later counts.
pub struct CollectionMigration {
    pub from: Option<String>,
    pub fields: Table<String, FieldMigration>,
    pub children: Vec<(String, CollectionMigration)>,
}

/// What a [`CollectionMigration`] denotes.
#[verifier::ext_equal]
pub struct CollectionPlan {
    pub from: Option<Seq<char>>,
    pub fields: Map<Seq<char>, FieldPlan>,
    pub children: Map<Seq<char>, CollectionPlan>,
}

/// What a collection's migration denotes.
pub open spec fn plan_view(m: CollectionMigration) -> CollectionPlan
    decreases m,
{
    CollectionPlan { from: name_view(m.from), fields: m.fields@, children: plans_view(m.children@) }
}

/// What named migrations denote.
pub open spec fn plans_view(items: Seq<(String, CollectionMigration)>) -> Map<Seq<char>, CollectionPlan>
    decreases items,
{
    if items.len() == 0 {
        Map::empty()
    } else {
        plans_view(items.drop_last()).insert(items.last().0@, plan_view(items.last().1))
    }
}

impl View for CollectionMigration {
    type V = CollectionPlan;

    open spec fn view(&self) -> CollectionPlan {
        plan_view(*self)
    }
}

/// A migration that maps nothing.
pub open spec fn no_plan() -> CollectionPlan {
    CollectionPlan { from: None, fields: Map::empty(), children: Map::empty() }
}

/// Whether a collection, or anything nested in it, declares a mapping.
pub open spec fn maps_something(plan: CollectionPlan) -> bool {
    plan.from is Some || plan.fields != Map::<Seq<char>, FieldPlan>::empty() || plan.children != Map::<
        Seq<char>,
        CollectionPlan,
    >::empty()
}

/// Whether an object declares a keyed collection: it has a `$key`.
pub open spec fn declares_key(shape: Seq<(String, Doc)>) -> bool {
    doc_member(shape, "$key"@) is Some
}

/// Whether a name is a directive's.
pub open spec fn is_directive(name: Seq<char>) -> bool {
    name.len() > 0 && name[0] == '$'
}

/// The mapping a field's declaration gives it.
pub open spec fn field_plan(value: Doc) -> Option<FieldPlan> {
    match value {
        Doc::Object(members) => match member_text(members@, "$from"@) {
            Some(from) => Some(
                FieldPlan {
                    from,
                    transform: member_text(members@, "$as"@),
                    back: member_text(members@, "$back"@),
                },
            ),
            None => None,
        },
        _ => None,
    }
}

/// The migration a collection's declaration gives it, member by member.
pub open spec fn collection_plan(shape: Seq<(String, Doc)>) -> CollectionPlan
    decreases shape,
{
    if shape.len() == 0 {
        no_plan()
    } else {
        let rest = collection_plan(shape.drop_last());
        let name = shape.last().0@;
        let value = shape.last().1;
        if name == "$from"@ {
            CollectionPlan { from: text_of(value), ..rest }
        } else if is_directive(name) {
            rest
        } else {
            match value {
                Doc::Object(nested) if declares_key(nested@) => {
                    let child = collection_plan(nested@);
                    if maps_something(child) {
                        CollectionPlan { children: rest.children.insert(name, child), ..rest }
                    } else {
                        rest
                    }
                },
                _ => match field_plan(value) {
                    Some(f) => CollectionPlan { fields: rest.fields.insert(name, f), ..rest },
                    None => rest,
                },
            }
        }
    }
}

/// The mappings a definition declares: per collection, and per root member.
pub struct MigrationPlan {
    pub collections: Vec<(String, CollectionMigration)>,
    pub singleton_fields: Table<String, FieldMigration>,
}

/// What a [`MigrationPlan`] denotes.
#[verifier::ext_equal]
pub struct PlanView {
    pub collections: Map<Seq<char>, CollectionPlan>,
    pub singleton_fields: Map<Seq<char>, FieldPlan>,
}

impl View for MigrationPlan {
    type V = PlanView;

    open spec fn view(&self) -> PlanView {
        PlanView { collections: plans_view(self.collections@), singleton_fields: self.singleton_fields@ }
    }
}

/// The mappings the members of a model declare: a member with a `$key` is a
/// collection, and any other member with a `$from` a root member.
pub open spec fn model_plan(members: Seq<(String, Doc)>) -> PlanView
    decreases members.len(),
{
    if members.len() == 0 {
        PlanView { collections: Map::empty(), singleton_fields: Map::empty() }
    } else {
        let rest = model_plan(members.drop_last());
        let name = members.last().0@;
        let value = members.last().1;
        match value {
            Doc::Object(shape) => if declares_key(shape@) {
                let plan = collection_plan(shape@);
                if maps_something(plan) {
                    PlanView { collections: rest.collections.insert(name, plan), ..rest }
                } else {
                    rest
                }
            } else {
                match field_plan(value) {
                    Some(f) => PlanView { singleton_fields: rest.singleton_fields.insert(name, f), ..rest },
                    None => rest,
                }
            },
            _ => rest,
        }
    }
}

/// The mappings a definition declares in its `$model`.
pub open spec fn definition_plan(definition: Doc) -> PlanView {
    match member_of(definition, "$model"@) {
        Some(Doc::Object(members)) => model_plan(members@),
        _ => PlanView { collections: Map::empty(), singleton_fields: Map::empty() },
    }
}

fn starts_with_dollar(name: &String) -> (r: bool)
    ensures
        r == is_directive(name@),
{
    let chars = characters(name.as_str());
    chars.len() > 0 && chars[0] == '$'
}

fn read_text(doc: &Doc) -> (r: Option<String>)
    ensures
        name_view(r) == text_of(*doc),
{
    match doc {
        Doc::Text(t) => Some(t.clone()),
        _ => None,
    }
}

fn found_text(members: &Vec<(String, Doc)>, name: &str) -> (r: Option<String>)
    ensures
        name_view(r) == member_text(members@, name@),
{
    match find_text(members, name) {
        Some(t) => Some(t.clone()),
        None => None,
    }
}

impl CollectionMigration {
    /// A migration that maps nothing.
    pub fn none() -> (r: CollectionMigration)
        ensures
            r@ == no_plan(),
    {
        CollectionMigration { from: None, fields: Table::new(), children: Vec::new() }
    }

    /// Whether this collection, or anything nested in it, declares a mapping.
    pub fn declares_a_mapping(&self) -> (r: bool)
        ensures
            r == maps_something(self@),
    {
        proof {
            if self.children@.len() > 0 {
                let last = self.children@.last().0@;
                assert(plans_view(self.children@).contains_key(last));
                assert(!Map::<Seq<char>, CollectionPlan>::empty().contains_key(last));
            }
        }
        self.from.is_some() || !self.fields.is_empty() || self.children.len() > 0
    }
}

impl MigrationPlan {
    /// Whether an object declares a keyed collection.
    fn is_collection(shape: &Vec<(String, Doc)>) -> (r: bool)
        ensures
            r == declares_key(shape@),
    {
        find_doc(shape, "$key").is_some()
    }

    /// The mapping a field's declaration gives it.
    fn read_field(value: &Doc) -> (r: Option<FieldMigration>)
        ensures
            match r {
                Some(f) => field_plan(*value) == Some(f@),
                None => field_plan(*value) is None,
            },
    {
        let members = match object(value) {
            Some(m) => m,
            None => {
                return None;
            },
        };
        let from = match found_text(members, "$from") {
            Some(t) => t,
            None => {
                return None;
            },
        };
        Some(FieldMigration { from, transform: found_text(members, "$as"), back: found_text(members, "$back") })
    }

    /// The migration a collection's declaration gives it.
    fn read_collection(shape: &Vec<(String, Doc)>) -> (r: CollectionMigration)
        ensures
            r@ == collection_plan(shape@),
        decreases shape@,
    {
        let mut migration = CollectionMigration::none();
        let mut i: usize = 0;
        proof {
            assert(shape@.take(0) =~= Seq::<(String, Doc)>::empty());
        }
        while i < shape.len()
            invariant
                i <= shape@.len(),
                migration@ == collection_plan(shape@.take(i as int)),
            decreases shape@.len() - i,
        {
            proof {
                assert(shape@.take(i + 1).drop_last() =~= shape@.take(i as int));
                assert(shape@.take(i + 1).last() == shape@[i as int]);
            }
            let name = &shape[i].0;
            let value = &shape[i].1;
            if same_text(name.as_str(), "$from") {
                migration.from = read_text(value);
            } else if !starts_with_dollar(name) {
                match value {
                    Doc::Object(nested) if Self::is_collection(nested) => {
                        let child = Self::read_collection(nested);
                        if child.declares_a_mapping() {
                            let ghost before = migration.children@;
                            let ghost c = child;
                            migration.children.push((name.clone(), child));
                            proof {
                                assert(migration.children@.drop_last() =~= before);
                            }
                        }
                    },
                    _ => {
                        if let Some(field) = Self::read_field(value) {
                            migration.fields.insert(name.clone(), field);
                        }
                    },
                }
            }
            i = i + 1;
        }
        proof {
            assert(shape@.take(i as int) =~= shape@);
        }
        migration
    }

    /// Read the mappings a definition declares.
    pub fn read(definition: &Doc) -> (r: MigrationPlan)
        ensures
            r@ == definition_plan(*definition),
    {
        let mut plan = MigrationPlan { collections: Vec::new(), singleton_fields: Table::new() };
        let members = match member(definition, "$model") {
            Some(Doc::Object(members)) => members,
            _ => {
                return plan;
            },
        };
        let mut i: usize = 0;
        proof {
            assert(members@.take(0) =~= Seq::<(String, Doc)>::empty());
        }
        while i < members.len()
            invariant
                i <= members@.len(),
                plan@ == model_plan(members@.take(i as int)),
            decreases members@.len() - i,
        {
            proof {
                assert(members@.take(i + 1).drop_last() =~= members@.take(i as int));
                assert(members@.take(i + 1).last() == members@[i as int]);
            }
            let name = &members[i].0;
            let value = &members[i].1;
            if let Doc::Object(shape) = value {
                if Self::is_collection(shape) {
                    let migration = Self::read_collection(shape);
                    if migration.declares_a_mapping() {
                        let ghost before = plan.collections@;
                        plan.collections.push((name.clone(), migration));
                        proof {
                            assert(plan.collections@.drop_last() =~= before);
                        }
                    }
                } else if let Some(field) = Self::read_field(value) {
                    plan.singleton_fields.insert(name.clone(), field);
                }
            }
            i = i + 1;
        }
        proof {
            assert(members@.take(i as int) =~= members@);
        }
        plan
    }
}

/// The migration that counts for a name: the last of that name.
pub fn find_plan<'a>(items: &'a Vec<(String, CollectionMigration)>, name: &str) -> (r: Option<&'a CollectionMigration>)
    ensures
        match r {
            Some(m) => {
                &&& plans_view(items@).contains_key(name@)
                &&& plans_view(items@)[name@] == m@
                &&& exists|k: int| 0 <= k < items@.len() && (#[trigger] items@[k]).1 == *m
            },
            None => !plans_view(items@).contains_key(name@),
        },
{
    let mut i: usize = items.len();
    proof {
        assert(items@.take(i as int) =~= items@);
    }
    while i > 0
        invariant
            i <= items@.len(),
            plans_view(items@).contains_key(name@) == plans_view(items@.take(i as int)).contains_key(name@),
            plans_view(items@).contains_key(name@) ==> plans_view(items@)[name@] == plans_view(
                items@.take(i as int),
            )[name@],
        decreases i,
    {
        i = i - 1;
        proof {
            assert(items@.take(i + 1).drop_last() =~= items@.take(i as int));
            assert(items@.take(i + 1).last() == items@[i as int]);
        }
        if same_text(items[i].0.as_str(), name) {
            return Some(&items[i].1);
        }
    }
    None
}

/// Copy a collection's migration.
pub fn copy_plan(m: &CollectionMigration) -> (r: CollectionMigration)
    ensures
        r@ == m@,
    decreases *m,
{
    CollectionMigration { from: copy_name(&m.from), fields: m.fields.duplicate(), children: copy_plans(&m.children) }
}

/// Copy named migrations.
pub fn copy_plans(items: &Vec<(String, CollectionMigration)>) -> (r: Vec<(String, CollectionMigration)>)
    ensures
        plans_view(r@) == plans_view(items@),
    decreases items@,
{
    let mut r: Vec<(String, CollectionMigration)> = Vec::new();
    let mut i: usize = 0;
    proof {
        assert(items@.take(0) =~= Seq::<(String, CollectionMigration)>::empty());
    }
    while i < items.len()
        invariant
            i <= items@.len(),
            plans_view(r@) == plans_view(items@.take(i as int)),
        decreases items@.len() - i,
    {
        proof {
            assert(items@.take(i + 1).drop_last() =~= items@.take(i as int));
            assert(items@.take(i + 1).last() == items@[i as int]);
        }
        let ghost before = r@;
        r.push((items[i].0.clone(), copy_plan(&items[i].1)));
        proof {
            assert(r@.drop_last() =~= before);
        }
        i = i + 1;
    }
    proof {
        assert(items@.take(i as int) =~= items@);
    }
    r
}

/// Field mappings with the exact inverses of other mappings added: where a field
/// `a` came from `x` with an inverse, `x` comes back from `a` through it. A mapping
/// that is there already stays, and of two inverses for one field the first counts.
pub open spec fn with_inverses(
    base: Map<Seq<char>, FieldPlan>,
    fields: Map<Seq<char>, FieldPlan>,
    names: Seq<Seq<char>>,
) -> Map<Seq<char>, FieldPlan>
    decreases names.len(),
{
    if names.len() == 0 {
        base
    } else {
        let rest = with_inverses(base, fields, names.drop_last());
        let f = fields[names.last()];
        match f.back {
            Some(back) => if rest.contains_key(f.from) {
                rest
            } else {
                rest.insert(f.from, FieldPlan { from: names.last(), transform: Some(back), back: None })
            },
            None => rest,
        }
    }
}

/// Whether some mapping has an inverse.
pub open spec fn has_inverse(fields: Map<Seq<char>, FieldPlan>) -> bool {
    exists|name: Seq<char>| #[trigger] fields.contains_key(name) && fields[name].back is Some
}

/// A collection's own migration, or one that maps nothing.
pub open spec fn plan_for(plans: Map<Seq<char>, CollectionPlan>, name: Seq<char>) -> CollectionPlan {
    if plans.contains_key(name) {
        plans[name]
    } else {
        no_plan()
    }
}

/// Whether a mapping of a collection, or of one nested in it at any depth, has an
/// inverse.
pub open spec fn offers_inverse(plan: CollectionPlan) -> bool
    decreases plan,
{
    has_inverse(plan.fields) || exists|c: Seq<char>| #[trigger]
        plan.children.contains_key(c) && offers_inverse(plan.children[c])
}

/// A collection's migration with the inverses of the active one, at every depth.
pub open spec fn inverted(target: CollectionPlan, active: CollectionPlan) -> CollectionPlan
    decreases active,
{
    CollectionPlan {
        from: target.from,
        fields: with_inverses(target.fields, active.fields, sorted::<String>(active.fields.dom())),
        children: Map::new(
            |c: Seq<char>|
                target.children.contains_key(c) || active.children.contains_key(c) && offers_inverse(
                    active.children[c],
                ),
            |c: Seq<char>|
                if active.children.contains_key(c) {
                    inverted(plan_for(target.children, c), active.children[c])
                } else {
                    target.children[c]
                },
        ),
    }
}

/// Named migrations with the inverses of the active ones.
pub open spec fn all_inverted(
    target: Map<Seq<char>, CollectionPlan>,
    active: Map<Seq<char>, CollectionPlan>,
) -> Map<Seq<char>, CollectionPlan> {
    Map::new(
        |c: Seq<char>| target.contains_key(c) || active.contains_key(c) && offers_inverse(active[c]),
        |c: Seq<char>|
            if active.contains_key(c) {
                inverted(plan_for(target, c), active[c])
            } else {
                target[c]
            },
    )
}

/// The plan of a downgrade: the target's own mappings, and for each collection, at
/// every depth, the inverses the active definition's mappings have.
pub open spec fn downgraded(target: PlanView, active: PlanView) -> PlanView {
    PlanView {
        collections: all_inverted(target.collections, active.collections),
        singleton_fields: target.singleton_fields,
    }
}

/// Add the inverses of a migration's mappings to other mappings.
fn add_inverses(base: &mut Table<String, FieldMigration>, fields: &Table<String, FieldMigration>) -> (any: bool)
    ensures
        final(base)@ == with_inverses(old(base)@, fields@, sorted::<String>(fields@.dom())),
        any == has_inverse(fields@),
{
    let ghost start = base@;
    let n: usize = fields.len();
    let ghost names = fields.keys();
    let mut any = false;
    let mut i: usize = 0;
    proof {
        assert(names.take(0) =~= Seq::<Seq<char>>::empty());
    }
    while i < n
        invariant
            names == fields.keys(),
            n == names.len(),
            i <= n,
            forall|k: Seq<char>| fields@.contains_key(k) <==> #[trigger] names.contains(k),
            base@ == with_inverses(start, fields@, names.take(i as int)),
            any ==> has_inverse(fields@),
            !any ==> forall|j: int| 0 <= j < i ==> fields@[#[trigger] names[j]].back is None,
        decreases n - i,
    {
        proof {
            assert(names.take(i + 1).drop_last() =~= names.take(i as int));
            assert(names.take(i + 1).last() == names[i as int]);
        }
        let name = fields.key_at(i);
        let field = fields.value_at(i);
        if let Some(back) = &field.back {
            proof {
                assert(fields@.contains_key(names[i as int]));
                assert(fields@[names[i as int]].back is Some);
            }
            any = true;
            if !base.contains(&field.from) {
                base.insert(
                    field.from.clone(),
                    FieldMigration { from: name.clone(), transform: Some(back.clone()), back: None },
                );
            }
        }
        i = i + 1;
    }
    proof {
        assert(names.take(i as int) =~= names);
        if !any {
            assert forall|k: Seq<char>| #[trigger] fields@.contains_key(k) implies fields@[k].back is None by {
                assert(names.contains(k));
                let j = choose|j: int| 0 <= j < names.len() && names[j] == k;
            }
        }
    }
    any
}

/// A collection's migration with the inverses of the active one, and whether there is
/// an inverse.
fn invert(target: Option<&CollectionMigration>, active: &CollectionMigration) -> (r: (CollectionMigration, bool))
    ensures
        r.0@ == inverted(
            match target {
                Some(t) => t@,
                None => no_plan(),
            },
            active@,
        ),
        r.1 == offers_inverse(active@),
    decreases *active, 1int,
{
    let base = match target {
        Some(t) => copy_plan(t),
        None => CollectionMigration::none(),
    };
    let ghost plan = base@;
    let mut fields = base.fields;
    let own = add_inverses(&mut fields, &active.fields);
    let (children, nested) = invert_all(&base.children, &active.children);
    let r = CollectionMigration { from: base.from, fields, children };
    proof {
        assert(r@.children =~= inverted(plan, active@).children);
        assert(r@ == inverted(plan, active@));
    }
    (r, own || nested)
}

/// Named migrations with the inverses of the active ones, and whether there is an
/// inverse.
fn invert_all(
    target: &Vec<(String, CollectionMigration)>,
    items: &Vec<(String, CollectionMigration)>,
) -> (r: (Vec<(String, CollectionMigration)>, bool))
    ensures
        plans_view(r.0@) == all_inverted(plans_view(target@), plans_view(items@)),
        r.1 == exists|c: Seq<char>| #[trigger]
            plans_view(items@).contains_key(c) && offers_inverse(plans_view(items@)[c]),
    decreases *items, 0int,
{
    let ghost t = plans_view(target@);
    let ghost a = plans_view(items@);
    let ghost goal = all_inverted(t, a);
    let mut collections = copy_plans(target);
    let mut found = false;
    let ghost mut seen: Set<Seq<char>> = Set::empty();
    let mut i: usize = 0;
    proof {
        assert(items@.take(0) =~= Seq::<(String, CollectionMigration)>::empty());
    }
    while i < items.len()
        invariant
            t == plans_view(target@),
            a == plans_view(items@),
            goal == all_inverted(t, a),
            i <= items@.len(),
            forall|c: Seq<char>| #[trigger] seen.contains(c) <==> plans_view(items@.take(i as int)).contains_key(c),
            forall|c: Seq<char>| #[trigger] seen.contains(c) ==> a.contains_key(c),
            found == exists|c: Seq<char>| #[trigger] seen.contains(c) && offers_inverse(a[c]),
            forall|c: Seq<char>|
                seen.contains(c) ==> (#[trigger] plans_view(collections@).contains_key(c) <==> goal.contains_key(c)),
            forall|c: Seq<char>|
                seen.contains(c) && #[trigger] plans_view(collections@).contains_key(c) ==> plans_view(
                    collections@,
                )[c] == goal[c],
            forall|c: Seq<char>|
                !seen.contains(c) ==> (#[trigger] plans_view(collections@).contains_key(c) <==> t.contains_key(c)),
            forall|c: Seq<char>|
                !seen.contains(c) && #[trigger] plans_view(collections@).contains_key(c) ==> plans_view(
                    collections@,
                )[c] == t[c],
        decreases items@.len() - i,
    {
        let name = &items[i].0;
        let ghost c = name@;
        let ghost before_found = found;
        let ghost before_seen = seen;
        proof {
            assert(items@.take(i + 1).drop_last() =~= items@.take(i as int));
            assert(items@.take(i + 1).last() == items@[i as int]);
            lemma_plans_prefix(items@, i + 1, c);
        }
        let ghost prior = plans_view(collections@);
        let fresh = !earlier_name(items, i, name.as_str());
        if fresh {
            if let Some(active_migration) = find_plan(items, name.as_str()) {
                let own = find_plan(target, name.as_str());
                proof {
                    let k = choose|k: int| 0 <= k < items@.len() && (#[trigger] items@[k]).1 == *active_migration;
                    assert(decreases_to!(items@ => items@[k]));
                    assert(decreases_to!(*items => items@));
                }
                let (merged, any) = invert(own, active_migration);
                if any {
                    found = true;
                }
                if any || own.is_some() {
                    let ghost before = collections@;
                    collections.push((name.clone(), merged));
                    proof {
                        assert(collections@.drop_last() =~= before);
                        assert(plan_view(merged) == inverted(plan_for(t, c), a[c]));
                    }
                }
                proof {
                    assert(any == offers_inverse(a[c]));
                }
            }
        }
        proof {
            assert(plans_view(collections@).contains_key(c) <==> goal.contains_key(c));
            assert(goal.contains_key(c) ==> plans_view(collections@)[c] == goal[c]);
            assert forall|o: Seq<char>| o != c implies (#[trigger] plans_view(collections@).contains_key(o)
                <==> prior.contains_key(o)) && (prior.contains_key(o) ==> plans_view(collections@)[o] == prior[o]) by {
            }
            seen = seen.insert(c);
            if found {
                if before_found {
                    let o = choose|o: Seq<char>| #[trigger] before_seen.contains(o) && offers_inverse(a[o]);
                    assert(seen.contains(o));
                } else {
                    assert(seen.contains(c));
                }
            }
            if exists|o: Seq<char>| #[trigger] seen.contains(o) && offers_inverse(a[o]) {
                let o = choose|o: Seq<char>| #[trigger] seen.contains(o) && offers_inverse(a[o]);
                if o != c {
                    assert(before_seen.contains(o));
                } else if !fresh {
                    assert(before_seen.contains(c));
                }
            }
        }
        i = i + 1;
    }
    proof {
        assert(items@.take(i as int) =~= items@);
        assert forall|c: Seq<char>| plans_view(collections@).contains_key(c) <==> goal.contains_key(c) by {
            assert(seen.contains(c) <==> a.contains_key(c));
        }
        assert forall|c: Seq<char>| plans_view(collections@).contains_key(c) implies plans_view(collections@)[c]
            == goal[c] by {
            assert(seen.contains(c) <==> a.contains_key(c));
        }
        assert(plans_view(collections@) =~= goal);
        if found {
            let o = choose|o: Seq<char>| #[trigger] seen.contains(o) && offers_inverse(a[o]);
            assert(a.contains_key(o));
        }
        if exists|o: Seq<char>| #[trigger] a.contains_key(o) && offers_inverse(a[o]) {
            let o = choose|o: Seq<char>| #[trigger] a.contains_key(o) && offers_inverse(a[o]);
            assert(seen.contains(o));
        }
    }
    (collections, found)
}

/// The plan of a downgrade from the active definition to the target.
pub fn downgrade_plan(active: &Doc, target: &Doc) -> (r: MigrationPlan)
    ensures
        r@ == downgraded(definition_plan(*target), definition_plan(*active)),
{
    let target_plan = MigrationPlan::read(target);
    let active_plan = MigrationPlan::read(active);
    let (collections, _) = invert_all(&target_plan.collections, &active_plan.collections);
    MigrationPlan { collections, singleton_fields: target_plan.singleton_fields }
}

/// A name of a prefix of named migrations is a name of them all.
proof fn lemma_plans_prefix(items: Seq<(String, CollectionMigration)>, n: int, name: Seq<char>)
    requires
        0 <= n <= items.len(),
        plans_view(items.take(n)).contains_key(name),
    ensures
        plans_view(items).contains_key(name),
    decreases items.len() - n,
{
    if n == items.len() {
        assert(items.take(n) =~= items);
    } else {
        assert(items.take(n + 1).drop_last() =~= items.take(n));
        lemma_plans_prefix(items, n + 1, name);
    }
}

/// Whether one of the first `n` named migrations has this name.
fn earlier_name(items: &Vec<(String, CollectionMigration)>, n: usize, name: &str) -> (r: bool)
    requires
        n <= items@.len(),
    ensures
        r == plans_view(items@.take(n as int)).contains_key(name@),
{
    let mut i: usize = 0;
    proof {
        assert(items@.take(0) =~= Seq::<(String, CollectionMigration)>::empty());
    }
    while i < n
        invariant
            i <= n <= items@.len(),
            !plans_view(items@.take(i as int)).contains_key(name@),
        decreases n - i,
    {
        proof {
            assert(items@.take(i + 1).drop_last() =~= items@.take(i as int));
            assert(items@.take(i + 1).last() == items@[i as int]);
        }
        if same_text(items[i].0.as_str(), name) {
            proof {
                lemma_plans_prefix(items@.take(n as int), i + 1, name@);
                assert(items@.take(n as int).take(i + 1) =~= items@.take(i + 1));
            }
            return true;
        }
        i = i + 1;
    }
    false
}

/// A downgrade keeps every mapping the target itself declares.
pub proof fn law_downgrade_keeps_target(target: PlanView, active: PlanView, collection: Seq<char>, field: Seq<char>)
    requires
        target.collections.contains_key(collection),
        target.collections[collection].fields.contains_key(field),
    ensures
        downgraded(target, active).collections.contains_key(collection),
        downgraded(target, active).collections[collection].fields.contains_key(field),
        downgraded(target, active).collections[collection].fields[field] == target.collections[collection].fields[field],
{
    if active.collections.contains_key(collection) {
        let fields = active.collections[collection].fields;
        lemma_inverses_keep(target.collections[collection].fields, fields, sorted::<String>(fields.dom()), field);
    }
}

proof fn lemma_inverses_keep(
    base: Map<Seq<char>, FieldPlan>,
    fields: Map<Seq<char>, FieldPlan>,
    names: Seq<Seq<char>>,
    field: Seq<char>,
)
    requires
        base.contains_key(field),
    ensures
        with_inverses(base, fields, names).contains_key(field),
        with_inverses(base, fields, names)[field] == base[field],
    decreases names.len(),
{
    if names.len() > 0 {
        lemma_inverses_keep(base, fields, names.drop_last(), field);
    }
}

} // verus!
