//! What a downgrade has to keep: no populated value may be lost.

use crate::captured::{rows_under, CapturedRow, StateSection};
use crate::mapping::plan_given;
use crate::model::{field_named, named, struct_named, Compiled, CompiledCollection, CompiledField, CompiledStruct};
use crate::plan::{
    find_plan, plan_for, CollectionMigration, CollectionPlan, FieldMigration, FieldPlan, MigrationPlan, PlanView,
};
use crate::rejection::{refused, verdict, Rejection, RejectionReason, RejectionView};
use crate::state::{Fields, FieldsView};
use crate::table::Table;
use crate::text::{concat3, concat5, holds_text, same_text, texts};
use crate::value::is_absent;
use vstd::prelude::*;

verus! {

/// Whether some row holds a value under a name.
pub open spec fn populated(rows: Seq<CapturedRow>, name: Seq<char>) -> bool {
    exists|i: int| 0 <= i < rows.len() && holds_value(#[trigger] rows[i].fields@, name)
}

/// Whether a row holds a value under a name.
pub open spec fn holds_value(row: FieldsView, name: Seq<char>) -> bool {
    row.contains_key(name) && !(row[name] is Absent)
}

/// Whether some mapping reads this source name.
pub open spec fn reconstructed(fields: Map<Seq<char>, FieldPlan>, name: Seq<char>) -> bool {
    exists|target: Seq<char>| #[trigger] fields.contains_key(target) && fields[target].from == name
}

/// Whether a shape keeps a field of this name.
pub open spec fn keeps_field(target: Option<CompiledCollection>, name: Seq<char>) -> bool {
    target is Some && field_named(target->0.fields@, name) is Some
}

/// Whether a shape keeps a static struct of this name, as a struct or as a field.
pub open spec fn keeps_struct(target: Option<CompiledCollection>, name: Seq<char>) -> bool {
    target is Some && (struct_named(target->0.structs@, name) || field_named(target->0.fields@, name) is Some)
}

/// The refusal of a downgrade that would lose a member of a collection.
pub open spec fn loss(kind: Seq<char>, member: Seq<char>, collection: Seq<char>) -> RejectionView {
    refused(
        RejectionReason::Compatibility,
        "downgrade drops populated "@ + kind + " `"@ + member + "` of `"@ + collection
            + "`: the older shape cannot represent it and no declared downgrade transform preserves it"@,
    )
}

/// The refusal of a downgrade that would lose a root member.
pub open spec fn root_loss(member: Seq<char>) -> RejectionView {
    refused(
        RejectionReason::Compatibility,
        "downgrade drops populated root member `"@ + member
            + "`: the older shape cannot represent it and no declared downgrade transform preserves it"@,
    )
}

/// The first of these fields that would be lost.
pub open spec fn first_lost_field(
    fields: Seq<CompiledField>,
    target: Option<CompiledCollection>,
    plan: CollectionPlan,
    rows: Seq<CapturedRow>,
) -> Option<Seq<char>>
    decreases fields.len(),
{
    if fields.len() == 0 {
        None
    } else {
        let name = fields[0].name@;
        if populated(rows, name) && !keeps_field(target, name) && !reconstructed(plan.fields, name) {
            Some(name)
        } else {
            first_lost_field(fields.drop_first(), target, plan, rows)
        }
    }
}

/// The first of these static structs that would be lost.
pub open spec fn first_lost_struct(
    structs: Seq<CompiledStruct>,
    target: Option<CompiledCollection>,
    plan: CollectionPlan,
    rows: Seq<CapturedRow>,
) -> Option<Seq<char>>
    decreases structs.len(),
{
    if structs.len() == 0 {
        None
    } else {
        let name = structs[0].name@;
        if populated(rows, name) && !keeps_struct(target, name) && !reconstructed(plan.fields, name) {
            Some(name)
        } else {
            first_lost_struct(structs.drop_first(), target, plan, rows)
        }
    }
}

/// The rows of a nested collection under each of these rows, in order.
pub open spec fn rows_beneath(rows: Seq<CapturedRow>, name: Seq<char>) -> Seq<CapturedRow>
    decreases rows.len(),
{
    if rows.len() == 0 {
        Seq::empty()
    } else {
        rows_beneath(rows.drop_last(), name) + rows_under(rows.last().children@, name)
    }
}

/// The nested collection of this name, where there is a shape and it has one.
pub open spec fn child_of(target: Option<CompiledCollection>, name: Seq<char>) -> Option<CompiledCollection> {
    match target {
        Some(c) => named(c.children@, name),
        None => None,
    }
}

/// Whether an older shape can represent the rows of a collection, and of every
/// collection nested in it: the first loss refuses.
pub open spec fn representable(
    active: CompiledCollection,
    target: Option<CompiledCollection>,
    plan: CollectionPlan,
    rows: Seq<CapturedRow>,
) -> Result<(), RejectionView>
    decreases active, 1int, 0int,
{
    match first_lost_field(active.fields@, target, plan, rows) {
        Some(name) => Err(loss("field"@, name, active.name@)),
        None => match first_lost_struct(active.structs@, target, plan, rows) {
            Some(name) => Err(loss("struct"@, name, active.name@)),
            None => children_representable(active, target, plan, rows, active.children@.len() as int),
        },
    }
}

/// Whether an older shape can represent the rows of the first `n` nested collections.
pub open spec fn children_representable(
    active: CompiledCollection,
    target: Option<CompiledCollection>,
    plan: CollectionPlan,
    rows: Seq<CapturedRow>,
    n: int,
) -> Result<(), RejectionView>
    decreases active, 0int, n,
{
    if n <= 0 || n > active.children@.len() {
        Ok(())
    } else {
        match children_representable(active, target, plan, rows, n - 1) {
            Err(e) => Err(e),
            Ok(_) => {
                let child = active.children@[n - 1];
                representable(
                    child,
                    child_of(target, child.name@),
                    plan_for(plan.children, child.name@),
                    rows_beneath(rows, child.name@),
                )
            },
        }
    }
}

/// What a row of references to captured rows stands for.
spec fn held(rows: Seq<&CapturedRow>) -> Seq<CapturedRow> {
    Seq::new(rows.len(), |i: int| *rows[i])
}

fn row_holds(row: &Fields, name: &String) -> (r: bool)
    ensures
        r == holds_value(row@, name@),
{
    match row.get(name) {
        Some(v) => !is_absent(v),
        None => false,
    }
}

fn some_row_holds(rows: &Vec<&CapturedRow>, name: &String) -> (r: bool)
    ensures
        r == populated(held(rows@), name@),
{
    let ghost all = held(rows@);
    let mut i: usize = 0;
    while i < rows.len()
        invariant
            all == held(rows@),
            i <= rows@.len(),
            forall|j: int| 0 <= j < i ==> !holds_value(#[trigger] all[j].fields@, name@),
        decreases rows@.len() - i,
    {
        if row_holds(&rows[i].fields, name) {
            proof {
                assert(holds_value(all[i as int].fields@, name@));
            }
            return true;
        }
        i = i + 1;
    }
    false
}

fn some_mapping_reads(fields: &Table<String, FieldMigration>, name: &str) -> (r: bool)
    ensures
        r == reconstructed(fields@, name@),
{
    let n: usize = fields.len();
    let mut i: usize = 0;
    while i < n
        invariant
            n == fields.keys().len(),
            i <= n,
            forall|k: Seq<char>| fields@.contains_key(k) <==> #[trigger] fields.keys().contains(k),
            forall|j: int| 0 <= j < i ==> fields@[#[trigger] fields.keys()[j]].from != name@,
        decreases n - i,
    {
        if same_text(fields.value_at(i).from.as_str(), name) {
            proof {
                assert(fields@.contains_key(fields.keys()[i as int]));
            }
            return true;
        }
        i = i + 1;
    }
    proof {
        assert forall|k: Seq<char>| #[trigger] fields@.contains_key(k) implies fields@[k].from != name@ by {
            assert(fields.keys().contains(k));
            let j = choose|j: int| 0 <= j < fields.keys().len() && fields.keys()[j] == k;
        }
    }
    false
}

fn mapping_reads(migration: Option<&CollectionMigration>, name: &str) -> (r: bool)
    ensures
        r == reconstructed(plan_given(migration).fields, name@),
{
    match migration {
        Some(m) => some_mapping_reads(&m.fields, name),
        None => false,
    }
}

fn lost(kind: &str, member: &str, collection: &str) -> (r: Rejection)
    ensures
        r@ == loss(kind@, member@, collection@),
{
    let head = concat5("downgrade drops populated ", kind, " `", member, "` of `");
    Rejection::new(
        RejectionReason::Compatibility,
        concat3(
            head.as_str(),
            collection,
            "`: the older shape cannot represent it and no declared downgrade transform preserves it",
        ).as_str(),
    )
}

/// What a borrowed collection stands for.
spec fn shape_of(target: Option<&CompiledCollection>) -> Option<CompiledCollection> {
    match target {
        Some(c) => Some(*c),
        None => None,
    }
}

fn lost_field(
    active: &CompiledCollection,
    target: Option<&CompiledCollection>,
    migration: Option<&CollectionMigration>,
    rows: &Vec<&CapturedRow>,
) -> (r: Result<(), Rejection>)
    ensures
        match (r, first_lost_field(active.fields@, shape_of(target), plan_given(migration), held(rows@))) {
            (Ok(_), None) => true,
            (Err(e), Some(name)) => e@ == loss("field"@, name, active.name@),
            _ => false,
        },
{
    let ghost fields = active.fields@;
    let ghost plan = plan_given(migration);
    let mut i: usize = 0;
    proof {
        assert(fields.skip(0) =~= fields);
    }
    while i < active.fields.len()
        invariant
            fields == active.fields@,
            plan == plan_given(migration),
            i <= fields.len(),
            first_lost_field(fields, shape_of(target), plan, held(rows@)) == first_lost_field(
                fields.skip(i as int),
                shape_of(target),
                plan,
                held(rows@),
            ),
        decreases fields.len() - i,
    {
        let name = &active.fields[i].name;
        let kept = match target {
            Some(c) => c.field(name.as_str()).is_some(),
            None => false,
        };
        if some_row_holds(rows, name) && !kept && !mapping_reads(migration, name.as_str()) {
            return Err(lost("field", name.as_str(), active.name.as_str()));
        }
        proof {
            assert(fields.skip(i as int).drop_first() =~= fields.skip(i + 1));
        }
        i = i + 1;
    }
    Ok(())
}

fn lost_struct(
    active: &CompiledCollection,
    target: Option<&CompiledCollection>,
    migration: Option<&CollectionMigration>,
    rows: &Vec<&CapturedRow>,
) -> (r: Result<(), Rejection>)
    ensures
        match (r, first_lost_struct(active.structs@, shape_of(target), plan_given(migration), held(rows@))) {
            (Ok(_), None) => true,
            (Err(e), Some(name)) => e@ == loss("struct"@, name, active.name@),
            _ => false,
        },
{
    let ghost structs = active.structs@;
    let ghost plan = plan_given(migration);
    let mut i: usize = 0;
    proof {
        assert(structs.skip(0) =~= structs);
    }
    while i < active.structs.len()
        invariant
            structs == active.structs@,
            plan == plan_given(migration),
            i <= structs.len(),
            first_lost_struct(structs, shape_of(target), plan, held(rows@)) == first_lost_struct(
                structs.skip(i as int),
                shape_of(target),
                plan,
                held(rows@),
            ),
        decreases structs.len() - i,
    {
        let name = &active.structs[i].name;
        let kept = match target {
            Some(c) => c.has_struct(name.as_str()) || c.field(name.as_str()).is_some(),
            None => false,
        };
        if some_row_holds(rows, name) && !kept && !mapping_reads(migration, name.as_str()) {
            return Err(lost("struct", name.as_str(), active.name.as_str()));
        }
        proof {
            assert(structs.skip(i as int).drop_first() =~= structs.skip(i + 1));
        }
        i = i + 1;
    }
    Ok(())
}

/// The rows of a nested collection under each of these rows.
fn nested_rows<'a>(rows: &Vec<&'a CapturedRow>, name: &str) -> (r: Vec<&'a CapturedRow>)
    ensures
        held(r@) == rows_beneath(held(rows@), name@),
{
    let ghost all = held(rows@);
    let mut r: Vec<&'a CapturedRow> = Vec::new();
    let mut i: usize = 0;
    proof {
        assert(all.take(0) =~= Seq::<CapturedRow>::empty());
        assert(held(r@) =~= Seq::<CapturedRow>::empty());
    }
    while i < rows.len()
        invariant
            all == held(rows@),
            i <= rows@.len(),
            held(r@) == rows_beneath(all.take(i as int), name@),
        decreases rows@.len() - i,
    {
        let ghost before = held(r@);
        proof {
            assert(all.take(i + 1).drop_last() =~= all.take(i as int));
            assert(all.take(i + 1).last() == *rows@[i as int]);
        }
        let row: &'a CapturedRow = rows[i];
        if let Some(nested) = row.child(name) {
            let mut j: usize = 0;
            proof {
                assert(before + nested@.take(0) =~= before);
            }
            while j < nested.len()
                invariant
                    j <= nested@.len(),
                    held(r@) == before + nested@.take(j as int),
                decreases nested@.len() - j,
            {
                let ghost sofar = held(r@);
                r.push(&nested[j]);
                proof {
                    assert(held(r@) =~= sofar.push(nested@[j as int]));
                    assert(before + nested@.take(j + 1) =~= (before + nested@.take(j as int)).push(nested@[j as int]));
                }
                j = j + 1;
            }
            proof {
                assert(nested@.take(j as int) =~= nested@);
            }
        } else {
            proof {
                assert(before + Seq::<CapturedRow>::empty() =~= before);
            }
        }
        i = i + 1;
    }
    proof {
        assert(all.take(i as int) =~= all);
    }
    r
}

proof fn lemma_children_refusal(
    active: CompiledCollection,
    target: Option<CompiledCollection>,
    plan: CollectionPlan,
    rows: Seq<CapturedRow>,
    n: int,
    m: int,
)
    requires
        0 <= n <= m <= active.children@.len(),
        children_representable(active, target, plan, rows, n) is Err,
    ensures
        children_representable(active, target, plan, rows, m) == children_representable(active, target, plan, rows, n),
    decreases m - n,
{
    if n < m {
        lemma_children_refusal(active, target, plan, rows, n, m - 1);
    }
}

/// Whether an older shape can represent the rows of a collection, and of every
/// collection nested in it.
fn representable_rows(
    active: &CompiledCollection,
    target: Option<&CompiledCollection>,
    migration: Option<&CollectionMigration>,
    rows: &Vec<&CapturedRow>,
) -> (r: Result<(), Rejection>)
    ensures
        verdict(r) == representable(*active, shape_of(target), plan_given(migration), held(rows@)),
    decreases *active,
{
    lost_field(active, target, migration, rows)?;
    lost_struct(active, target, migration, rows)?;
    let ghost plan = plan_given(migration);
    let mut i: usize = 0;
    while i < active.children.len()
        invariant
            plan == plan_given(migration),
            first_lost_field(active.fields@, shape_of(target), plan, held(rows@)) is None,
            first_lost_struct(active.structs@, shape_of(target), plan, held(rows@)) is None,
            i <= active.children@.len(),
            children_representable(*active, shape_of(target), plan, held(rows@), i as int) is Ok,
        decreases active.children@.len() - i,
    {
        let child = &active.children[i];
        let name = child.name.as_str();
        let nested = nested_rows(rows, name);
        let shape = match target {
            Some(c) => c.child(name),
            None => None,
        };
        let mapped = match migration {
            Some(m) => find_plan(&m.children, name),
            None => None,
        };
        proof {
            assert(plan_given(mapped) == plan_for(plan.children, child.name@));
            assert(shape_of(shape) == child_of(shape_of(target), child.name@));
        }
        match representable_rows(child, shape, mapped, &nested) {
            Ok(_) => {},
            Err(e) => {
                proof {
                    lemma_children_refusal(
                        *active,
                        shape_of(target),
                        plan,
                        held(rows@),
                        i + 1,
                        active.children@.len() as int,
                    );
                }
                return Err(e);
            },
        }
        i = i + 1;
    }
    proof {
        let whole = representable(*active, shape_of(target), plan, held(rows@));
        assert(whole == children_representable(
            *active,
            shape_of(target),
            plan,
            held(rows@),
            active.children@.len() as int,
        ));
        assert(whole->Ok_0 == ());
    }
    Ok(())
}

/// Whether an older package can represent the first `n` captured collections.
pub open spec fn collections_representable(
    active: Compiled,
    target: Compiled,
    plan: PlanView,
    entries: Seq<(String, Vec<CapturedRow>)>,
    n: int,
) -> Result<(), RejectionView>
    decreases n,
{
    if n <= 0 {
        Ok(())
    } else {
        match collections_representable(active, target, plan, entries, n - 1) {
            Err(e) => Err(e),
            Ok(_) => {
                let name = entries[n - 1].0@;
                match active.top(name) {
                    None => Ok(()),
                    Some(c) => representable(
                        c,
                        target.top(name),
                        plan_for(plan.collections, name),
                        entries[n - 1].1@,
                    ),
                }
            },
        }
    }
}

/// The first root member that would be lost.
pub open spec fn first_lost_member(
    members: Seq<Seq<char>>,
    kept: Seq<Seq<char>>,
    plan: PlanView,
    row: FieldsView,
) -> Option<Seq<char>>
    decreases members.len(),
{
    if members.len() == 0 {
        None
    } else if holds_value(row, members[0]) && !kept.contains(members[0]) && !reconstructed(
        plan.singleton_fields,
        members[0],
    ) {
        Some(members[0])
    } else {
        first_lost_member(members.drop_first(), kept, plan, row)
    }
}

/// Whether an older package can represent an instance's state: every collection, and
/// every root member.
pub open spec fn state_representable(
    active: Compiled,
    active_members: Seq<Seq<char>>,
    state: StateSection,
    target: Compiled,
    target_members: Seq<Seq<char>>,
    plan: PlanView,
) -> Result<(), RejectionView> {
    match collections_representable(active, target, plan, state.collections@, state.collections@.len() as int) {
        Err(e) => Err(e),
        Ok(_) => match state.singleton {
            None => Ok(()),
            Some(row) => match first_lost_member(active_members, target_members, plan, row@) {
                Some(name) => Err(root_loss(name)),
                None => Ok(()),
            },
        },
    }
}

proof fn lemma_collections_refusal(
    active: Compiled,
    target: Compiled,
    plan: PlanView,
    entries: Seq<(String, Vec<CapturedRow>)>,
    n: int,
    m: int,
)
    requires
        0 <= n <= m,
        collections_representable(active, target, plan, entries, n) is Err,
    ensures
        collections_representable(active, target, plan, entries, m) == collections_representable(
            active,
            target,
            plan,
            entries,
            n,
        ),
    decreases m - n,
{
    if n < m {
        lemma_collections_refusal(active, target, plan, entries, n, m - 1);
    }
}

fn borrowed<'a>(rows: &'a Vec<CapturedRow>) -> (r: Vec<&'a CapturedRow>)
    ensures
        held(r@) == rows@,
{
    let mut r: Vec<&'a CapturedRow> = Vec::new();
    let mut i: usize = 0;
    while i < rows.len()
        invariant
            i <= rows@.len(),
            r@.len() == i,
            forall|j: int| 0 <= j < i ==> *(#[trigger] r@[j]) == rows@[j],
        decreases rows@.len() - i,
    {
        r.push(&rows[i]);
        i = i + 1;
    }
    proof {
        assert(held(r@) =~= rows@);
    }
    r
}

/// Require that an older package can represent an instance's state. The names are
/// those of the root members that hold state, in the active and in the older package.
pub fn downgrade_representable(
    active: &Compiled,
    active_members: &Vec<String>,
    state: &StateSection,
    target: &Compiled,
    target_members: &Vec<String>,
    plan: &MigrationPlan,
) -> (r: Result<(), Rejection>)
    ensures
        verdict(r) == state_representable(
            *active,
            texts(active_members@),
            *state,
            *target,
            texts(target_members@),
            plan@,
        ),
{
    let ghost entries = state.collections@;
    let mut i: usize = 0;
    while i < state.collections.len()
        invariant
            entries == state.collections@,
            i <= entries.len(),
            collections_representable(*active, *target, plan@, entries, i as int) is Ok,
        decreases entries.len() - i,
    {
        let name = state.collections[i].0.as_str();
        if let Some(c) = active.collection(name) {
            let rows = borrowed(&state.collections[i].1);
            let shape = target.collection(name);
            let mapped = find_plan(&plan.collections, name);
            proof {
                assert(plan_given(mapped) == plan_for(plan@.collections, name@));
                assert(shape_of(shape) == target.top(name@));
            }
            match representable_rows(c, shape, mapped, &rows) {
                Ok(_) => {},
                Err(e) => {
                    proof {
                        lemma_collections_refusal(*active, *target, plan@, entries, i + 1, entries.len() as int);
                    }
                    return Err(e);
                },
            }
        }
        i = i + 1;
    }
    let row = match &state.singleton {
        Some(row) => row,
        None => {
            return Ok(());
        },
    };
    let ghost members = texts(active_members@);
    let mut j: usize = 0;
    proof {
        assert(members.skip(0) =~= members);
    }
    while j < active_members.len()
        invariant
            members == texts(active_members@),
            j <= members.len(),
            state.singleton == Some(*row),
            collections_representable(*active, *target, plan@, state.collections@, state.collections@.len() as int) is Ok,
            first_lost_member(members, texts(target_members@), plan@, row@) == first_lost_member(
                members.skip(j as int),
                texts(target_members@),
                plan@,
                row@,
            ),
        decreases members.len() - j,
    {
        let name = &active_members[j];
        if row_holds(row, name) && !holds_text(target_members, name.as_str()) && !some_mapping_reads(
            &plan.singleton_fields,
            name.as_str(),
        ) {
            return Err(
                Rejection::new(
                    RejectionReason::Compatibility,
                    concat3(
                        "downgrade drops populated root member `",
                        name.as_str(),
                        "`: the older shape cannot represent it and no declared downgrade transform preserves it",
                    ).as_str(),
                ),
            );
        }
        proof {
            assert(members.skip(j as int).drop_first() =~= members.skip(j + 1));
        }
        j = j + 1;
    }
    Ok(())
}

proof fn lemma_no_lost_field(
    fields: Seq<CompiledField>,
    target: Option<CompiledCollection>,
    plan: CollectionPlan,
    rows: Seq<CapturedRow>,
    i: int,
)
    requires
        first_lost_field(fields, target, plan, rows) is None,
        0 <= i < fields.len(),
        populated(rows, fields[i].name@),
    ensures
        keeps_field(target, fields[i].name@) || reconstructed(plan.fields, fields[i].name@),
    decreases i,
{
    if i > 0 {
        lemma_no_lost_field(fields.drop_first(), target, plan, rows, i - 1);
    }
}

proof fn lemma_no_lost_struct(
    structs: Seq<CompiledStruct>,
    target: Option<CompiledCollection>,
    plan: CollectionPlan,
    rows: Seq<CapturedRow>,
    i: int,
)
    requires
        first_lost_struct(structs, target, plan, rows) is None,
        0 <= i < structs.len(),
        populated(rows, structs[i].name@),
    ensures
        keeps_struct(target, structs[i].name@) || reconstructed(plan.fields, structs[i].name@),
    decreases i,
{
    if i > 0 {
        lemma_no_lost_struct(structs.drop_first(), target, plan, rows, i - 1);
    }
}

proof fn lemma_child_representable(
    active: CompiledCollection,
    target: Option<CompiledCollection>,
    plan: CollectionPlan,
    rows: Seq<CapturedRow>,
    n: int,
    i: int,
)
    requires
        0 <= i < n <= active.children@.len(),
        children_representable(active, target, plan, rows, n) is Ok,
    ensures
        representable(
            active.children@[i],
            child_of(target, active.children@[i].name@),
            plan_for(plan.children, active.children@[i].name@),
            rows_beneath(rows, active.children@[i].name@),
        ) is Ok,
    decreases n,
{
    if i < n - 1 {
        lemma_child_representable(active, target, plan, rows, n - 1, i);
    }
}

/// An accepted downgrade loses nothing: every populated field and static struct of a
/// collection is kept under its name or read by a declared mapping, and the same
/// holds of every collection nested in it.
pub proof fn law_nothing_lost(
    active: CompiledCollection,
    target: Option<CompiledCollection>,
    plan: CollectionPlan,
    rows: Seq<CapturedRow>,
)
    requires
        representable(active, target, plan, rows) is Ok,
    ensures
        forall|i: int|
            0 <= i < active.fields@.len() && populated(rows, (#[trigger] active.fields@[i]).name@) ==> keeps_field(
                target,
                active.fields@[i].name@,
            ) || reconstructed(plan.fields, active.fields@[i].name@),
        forall|i: int|
            0 <= i < active.structs@.len() && populated(rows, (#[trigger] active.structs@[i]).name@) ==> keeps_struct(
                target,
                active.structs@[i].name@,
            ) || reconstructed(plan.fields, active.structs@[i].name@),
        forall|i: int|
            0 <= i < active.children@.len() ==> representable(
                #[trigger] active.children@[i],
                child_of(target, active.children@[i].name@),
                plan_for(plan.children, active.children@[i].name@),
                rows_beneath(rows, active.children@[i].name@),
            ) is Ok,
{
    assert forall|i: int|
        0 <= i < active.fields@.len() && populated(rows, (#[trigger] active.fields@[i]).name@) implies keeps_field(
        target,
        active.fields@[i].name@,
    ) || reconstructed(plan.fields, active.fields@[i].name@) by {
        lemma_no_lost_field(active.fields@, target, plan, rows, i);
    }
    assert forall|i: int|
        0 <= i < active.structs@.len() && populated(rows, (#[trigger] active.structs@[i]).name@) implies keeps_struct(
        target,
        active.structs@[i].name@,
    ) || reconstructed(plan.fields, active.structs@[i].name@) by {
        lemma_no_lost_struct(active.structs@, target, plan, rows, i);
    }
    assert forall|i: int| 0 <= i < active.children@.len() implies representable(
        #[trigger] active.children@[i],
        child_of(target, active.children@[i].name@),
        plan_for(plan.children, active.children@[i].name@),
        rows_beneath(rows, active.children@[i].name@),
    ) is Ok by {
        lemma_child_representable(active, target, plan, rows, active.children@.len() as int, i);
    }
}

} // verus!
