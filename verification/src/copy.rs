//! Carrying the rows of the source package into the target package: every collection
//! at every depth, and the root members.

use crate::address::{CollectionPath, RowAddress, StepView};
use crate::captured::{rows_named, rows_under, CapturedRow, StateSection};
use crate::downgrade::child_of;
use crate::mapping::{apply_mapping, map_row, mapped_row, mapped_value, plan_given, Transformed};
use crate::model::{Compiled, CompiledCollection};
use crate::order::Duplicate;
use crate::plan::{
    find_plan, plan_for, CollectionMigration, CollectionPlan, FieldMigration, FieldPlan, MigrationPlan, PlanView,
};
use crate::program::{key_in, key_of};
use crate::rejection::{outcome, refused, refused_at, Rejection, RejectionReason, RejectionView};
use crate::state::{address_views, Fields, FieldsView, Prospective, StateView};
use crate::table::Table;
use crate::text::{concat5, holds_text, texts};
use crate::value::{copy_value, Value, ValueView};
use vstd::prelude::*;

verus! {

/// What evaluation came to for one row that is carried over: the transforms of each
/// field's mapping, the defaults and normalized values it writes, in order, and the
/// same for the rows of each nested collection of the target.
pub struct RowWork {
    pub transforms: Vec<Transformed>,
    pub writes: Vec<(String, Result<Value, Rejection>)>,
    pub children: Vec<Vec<RowWork>>,
}

/// What evaluation came to for a whole state that is carried over: the rows of each
/// top-level collection of the target, the transforms of each root member's mapping,
/// and the defaults and normalized values written to the root members.
pub struct CarryWork {
    pub collections: Vec<Vec<RowWork>>,
    pub singleton: Vec<Transformed>,
    pub singleton_writes: Vec<(String, Result<Value, Rejection>)>,
}

/// The state a copy builds, the rows a declared mapping gave, and how many generations
/// rows have drawn.
#[verifier::ext_equal]
pub struct CopyView {
    pub state: StateView,
    pub migrated: Seq<Seq<StepView>>,
    pub drawn: nat,
}

/// A row after the first `n` written values.
pub open spec fn written(row: FieldsView, writes: Seq<(String, Result<Value, Rejection>)>, n: int) -> Result<
    FieldsView,
    RejectionView,
>
    decreases n,
{
    if n <= 0 {
        Ok(row)
    } else {
        match written(row, writes, n - 1) {
            Err(e) => Err(e),
            Ok(r) => match outcome(writes[n - 1].1) {
                Err(e) => Err(e),
                Ok(v) => Ok(r.insert(writes[n - 1].0@, v)),
            },
        }
    }
}

/// The source collection of a target collection: the one its migration names, or the
/// one of its own name.
pub open spec fn source_name(plan: CollectionPlan, name: Seq<char>) -> Seq<char> {
    match plan.from {
        Some(from) => from,
        None => name,
    }
}

/// Whether there is evaluation work for each row of a collection and of the
/// collections nested in it.
pub open spec fn ready(
    c: CompiledCollection,
    plan: CollectionPlan,
    rows: Seq<CapturedRow>,
    work: Seq<RowWork>,
) -> bool
    decreases c,
{
    &&& work.len() == rows.len()
    &&& forall|j: int|
        0 <= j < rows.len() ==> (#[trigger] work[j]).transforms@.len() == c.fields@.len() && work[j].children@.len()
            == c.children@.len()
    &&& forall|j: int, i: int|
        0 <= j < rows.len() && 0 <= i < c.children@.len() ==> ready(
            c.children@[i],
            plan_for(plan.children, c.children@[i].name@),
            rows_under(
                rows[j].children@,
                source_name(plan_for(plan.children, c.children@[i].name@), c.children@[i].name@),
            ),
            (#[trigger] work[j].children@[i])@,
        )
}

/// The address a carried row belongs at: under its parent, by the key its fields give
/// it.
pub open spec fn carried_address(c: CompiledCollection, row: FieldsView, parent: Seq<StepView>) -> Result<
    Seq<StepView>,
    RejectionView,
> {
    match key_in(texts(c.key@), row) {
        None => Err(refused(RejectionReason::Malformed, "migrated row is missing a key field"@)),
        Some(key) => Ok(parent.push(StepView { name: c.name@, key })),
    }
}

/// A copy after the first `n` rows of a collection, each with what is nested in it.
pub open spec fn rows_copied(
    c: CompiledCollection,
    plan: CollectionPlan,
    from: Option<CompiledCollection>,
    rows: Seq<CapturedRow>,
    work: Seq<RowWork>,
    parent: Seq<StepView>,
    start: CopyView,
    n: int,
) -> Result<CopyView, RejectionView>
    decreases c, 2int, n,
{
    if n <= 0 {
        Ok(start)
    } else {
        match rows_copied(c, plan, from, rows, work, parent, start, n - 1) {
            Err(e) => Err(e),
            Ok(s) => row_copied(c, plan, from, rows[n - 1], work[n - 1], parent, s),
        }
    }
}

/// A copy after one row, with what is nested in it: the row is mapped, draws a
/// generation, is written and put at the address its key gives it, which no row may
/// hold already.
pub open spec fn row_copied(
    c: CompiledCollection,
    plan: CollectionPlan,
    from: Option<CompiledCollection>,
    row: CapturedRow,
    work: RowWork,
    parent: Seq<StepView>,
    start: CopyView,
) -> Result<CopyView, RejectionView>
    decreases c, 1int, 0int,
{
    match mapped_row(c, plan, row.fields@, from, work.transforms@) {
        Err(e) => Err(e),
        Ok(mapped) => match written(mapped, work.writes@, work.writes@.len() as int) {
            Err(e) => Err(e),
            Ok(fields) => match carried_address(c, fields, parent) {
                Err(e) => Err(e),
                Ok(at) => if start.state.contains_key(at) {
                    Err(refused_at(RejectionReason::DuplicateKey, "migration produced a duplicate key"@, at))
                } else {
                    let placed = CopyView {
                        state: start.state.insert(at, fields),
                        migrated: if plan.fields == Map::<Seq<char>, FieldPlan>::empty() {
                            start.migrated
                        } else {
                            start.migrated.push(at)
                        },
                        drawn: start.drawn + 1,
                    };
                    children_copied(c, plan, from, row, work, at, placed, c.children@.len() as int)
                },
            },
        },
    }
}

/// A copy after the rows of the first `n` collections nested in a row.
pub open spec fn children_copied(
    c: CompiledCollection,
    plan: CollectionPlan,
    from: Option<CompiledCollection>,
    row: CapturedRow,
    work: RowWork,
    at: Seq<StepView>,
    start: CopyView,
    n: int,
) -> Result<CopyView, RejectionView>
    decreases c, 0int, n,
{
    if n <= 0 || n > c.children@.len() {
        Ok(start)
    } else {
        match children_copied(c, plan, from, row, work, at, start, n - 1) {
            Err(e) => Err(e),
            Ok(s) => {
                let child = c.children@[n - 1];
                let nested = plan_for(plan.children, child.name@);
                let source = source_name(nested, child.name@);
                let rows = rows_under(row.children@, source);
                rows_copied(
                    child,
                    nested,
                    child_of(from, source),
                    rows,
                    work.children@[n - 1]@,
                    at,
                    s,
                    rows.len() as int,
                )
            },
        }
    }
}

/// What a borrowed collection stands for.
spec fn shape_of(from: Option<&CompiledCollection>) -> Option<CompiledCollection> {
    match from {
        Some(c) => Some(*c),
        None => None,
    }
}

/// The address a borrowed parent stands for; without one, the root.
spec fn parent_of(parent: Option<&RowAddress>) -> Seq<StepView> {
    match parent {
        Some(p) => p@,
        None => Seq::empty(),
    }
}

spec fn copy_view(prospective: Prospective, migrated: Seq<RowAddress>) -> CopyView {
    CopyView { state: prospective@, migrated: address_views(migrated), drawn: prospective.drawn() }
}

proof fn lemma_written_refusal(
    row: FieldsView,
    writes: Seq<(String, Result<Value, Rejection>)>,
    n: int,
    m: int,
)
    requires
        0 <= n <= m,
        written(row, writes, n) is Err,
    ensures
        written(row, writes, m) == written(row, writes, n),
    decreases m - n,
{
    if n < m {
        lemma_written_refusal(row, writes, n, m - 1);
    }
}

fn write_values(row: Fields, writes: &Vec<(String, Result<Value, Rejection>)>) -> (r: Result<Fields, Rejection>)
    ensures
        outcome(r) == written(row@, writes@, writes@.len() as int),
{
    let ghost start = row@;
    let mut complete = row;
    let mut i: usize = 0;
    while i < writes.len()
        invariant
            start == row@,
            i <= writes@.len(),
            written(start, writes@, i as int) == Ok::<FieldsView, RejectionView>(complete@),
        decreases writes@.len() - i,
    {
        match &writes[i].1 {
            Ok(v) => complete.insert(writes[i].0.clone(), copy_value(v)),
            Err(e) => {
                let refusal = e.duplicate();
                proof {
                    assert(outcome(writes@[i as int].1) == Err::<ValueView, RejectionView>(refusal@));
                    assert(written(start, writes@, i + 1) == Err::<FieldsView, RejectionView>(refusal@));
                    lemma_written_refusal(start, writes@, i + 1, writes@.len() as int);
                }
                return Err(refusal);
            },
        }
        i = i + 1;
    }
    Ok(complete)
}

fn address_for(c: &CompiledCollection, row: &Fields, parent: Option<&RowAddress>) -> (r: Result<RowAddress, Rejection>)
    ensures
        outcome(r) == carried_address(*c, row@, parent_of(parent)),
{
    let key = match key_of(&c.key, row) {
        Some(key) => key,
        None => {
            return Err(Rejection::new(RejectionReason::Malformed, "migrated row is missing a key field"));
        },
    };
    let path = match parent {
        Some(p) => CollectionPath::nested(p, c.name.clone()),
        None => CollectionPath::top(c.name.clone()),
    };
    Ok(path.row(key))
}

proof fn lemma_rows_refusal(
    c: CompiledCollection,
    plan: CollectionPlan,
    from: Option<CompiledCollection>,
    rows: Seq<CapturedRow>,
    work: Seq<RowWork>,
    parent: Seq<StepView>,
    start: CopyView,
    n: int,
    m: int,
)
    requires
        0 <= n <= m,
        rows_copied(c, plan, from, rows, work, parent, start, n) is Err,
    ensures
        rows_copied(c, plan, from, rows, work, parent, start, m) == rows_copied(
            c,
            plan,
            from,
            rows,
            work,
            parent,
            start,
            n,
        ),
    decreases m - n,
{
    if n < m {
        lemma_rows_refusal(c, plan, from, rows, work, parent, start, n, m - 1);
    }
}

proof fn lemma_children_refusal(
    c: CompiledCollection,
    plan: CollectionPlan,
    from: Option<CompiledCollection>,
    row: CapturedRow,
    work: RowWork,
    at: Seq<StepView>,
    start: CopyView,
    n: int,
    m: int,
)
    requires
        0 <= n <= m <= c.children@.len(),
        children_copied(c, plan, from, row, work, at, start, n) is Err,
    ensures
        children_copied(c, plan, from, row, work, at, start, m) == children_copied(
            c,
            plan,
            from,
            row,
            work,
            at,
            start,
            n,
        ),
    decreases m - n,
{
    if n < m {
        lemma_children_refusal(c, plan, from, row, work, at, start, n, m - 1);
    }
}

/// Copy the rows of a collection, each with what is nested in it.
fn copy_rows(
    c: &CompiledCollection,
    migration: Option<&CollectionMigration>,
    from: Option<&CompiledCollection>,
    rows: &Vec<CapturedRow>,
    work: &Vec<RowWork>,
    parent: Option<&RowAddress>,
    prospective: &mut Prospective,
    migrated: &mut Vec<RowAddress>,
) -> (r: Result<(), Rejection>)
    requires
        ready(*c, plan_given(migration), rows@, work@),
    ensures
        match (
            r,
            rows_copied(
                *c,
                plan_given(migration),
                shape_of(from),
                rows@,
                work@,
                parent_of(parent),
                copy_view(*old(prospective), old(migrated)@),
                rows@.len() as int,
            ),
        ) {
            (Ok(_), Ok(s)) => copy_view(*final(prospective), final(migrated)@) == s,
            (Err(e), Err(x)) => e@ == x,
            _ => false,
        },
    decreases *c, 2int,
{
    let ghost start = copy_view(*prospective, migrated@);
    let ghost plan = plan_given(migration);
    let mut i: usize = 0;
    while i < rows.len()
        invariant
            plan == plan_given(migration),
            start == copy_view(*old(prospective), old(migrated)@),
            ready(*c, plan, rows@, work@),
            i <= rows@.len(),
            rows_copied(*c, plan, shape_of(from), rows@, work@, parent_of(parent), start, i as int) == Ok::<
                CopyView,
                RejectionView,
            >(copy_view(*prospective, migrated@)),
        decreases rows@.len() - i,
    {
        match copy_row(c, migration, from, &rows[i], &work[i], parent, prospective, migrated) {
            Ok(_) => {},
            Err(e) => {
                proof {
                    lemma_rows_refusal(
                        *c,
                        plan,
                        shape_of(from),
                        rows@,
                        work@,
                        parent_of(parent),
                        start,
                        i + 1,
                        rows@.len() as int,
                    );
                }
                return Err(e);
            },
        }
        i = i + 1;
    }
    Ok(())
}

/// Whether there is evaluation work for one row of a collection and for what is
/// nested in it.
spec fn row_ready(c: CompiledCollection, plan: CollectionPlan, row: CapturedRow, work: RowWork) -> bool {
    &&& work.transforms@.len() == c.fields@.len()
    &&& work.children@.len() == c.children@.len()
    &&& forall|i: int|
        0 <= i < c.children@.len() ==> ready(
            c.children@[i],
            plan_for(plan.children, c.children@[i].name@),
            rows_under(
                row.children@,
                source_name(plan_for(plan.children, c.children@[i].name@), c.children@[i].name@),
            ),
            (#[trigger] work.children@[i])@,
        )
}

/// Copy one row, with what is nested in it.
fn copy_row(
    c: &CompiledCollection,
    migration: Option<&CollectionMigration>,
    from: Option<&CompiledCollection>,
    row: &CapturedRow,
    work: &RowWork,
    parent: Option<&RowAddress>,
    prospective: &mut Prospective,
    migrated: &mut Vec<RowAddress>,
) -> (r: Result<(), Rejection>)
    requires
        row_ready(*c, plan_given(migration), *row, *work),
    ensures
        match (
            r,
            row_copied(
                *c,
                plan_given(migration),
                shape_of(from),
                *row,
                *work,
                parent_of(parent),
                copy_view(*old(prospective), old(migrated)@),
            ),
        ) {
            (Ok(_), Ok(s)) => copy_view(*final(prospective), final(migrated)@) == s,
            (Err(e), Err(x)) => e@ == x,
            _ => false,
        },
    decreases *c, 1int,
{
    let ghost start = copy_view(*prospective, migrated@);
    let mapped = map_row(c, migration, &row.fields, from, &work.transforms)?;
    let _generation = prospective.next_generation();
    let fields = write_values(mapped, &work.writes)?;
    let at = address_for(c, &fields, parent)?;
    if prospective.contains(&at) {
        return Err(Rejection::at(RejectionReason::DuplicateKey, "migration produced a duplicate key", &at));
    }
    let transformed = match migration {
        Some(m) => !m.fields.is_empty(),
        None => false,
    };
    if transformed {
        migrated.push(at.duplicate());
        proof {
            assert(address_views(migrated@) =~= start.migrated.push(at@));
        }
    }
    prospective.replace(&at, fields);
    copy_children(c, migration, from, row, work, &at, prospective, migrated)
}

/// Copy the rows of every collection nested in a row.
fn copy_children(
    c: &CompiledCollection,
    migration: Option<&CollectionMigration>,
    from: Option<&CompiledCollection>,
    row: &CapturedRow,
    work: &RowWork,
    at: &RowAddress,
    prospective: &mut Prospective,
    migrated: &mut Vec<RowAddress>,
) -> (r: Result<(), Rejection>)
    requires
        row_ready(*c, plan_given(migration), *row, *work),
    ensures
        match (
            r,
            children_copied(
                *c,
                plan_given(migration),
                shape_of(from),
                *row,
                *work,
                at@,
                copy_view(*old(prospective), old(migrated)@),
                c.children@.len() as int,
            ),
        ) {
            (Ok(_), Ok(s)) => copy_view(*final(prospective), final(migrated)@) == s,
            (Err(e), Err(x)) => e@ == x,
            _ => false,
        },
    decreases *c, 0int,
{
    let ghost start = copy_view(*prospective, migrated@);
    let ghost plan = plan_given(migration);
    let none: Vec<CapturedRow> = Vec::new();
    let mut i: usize = 0;
    while i < c.children.len()
        invariant
            plan == plan_given(migration),
            start == copy_view(*old(prospective), old(migrated)@),
            row_ready(*c, plan, *row, *work),
            none@.len() == 0,
            i <= c.children@.len(),
            children_copied(*c, plan, shape_of(from), *row, *work, at@, start, i as int) == Ok::<
                CopyView,
                RejectionView,
            >(copy_view(*prospective, migrated@)),
        decreases c.children@.len() - i,
    {
        let child = &c.children[i];
        let name = child.name.as_str();
        let nested = match migration {
            Some(m) => find_plan(&m.children, name),
            None => None,
        };
        proof {
            assert(plan_given(nested) == plan_for(plan.children, child.name@));
        }
        let source = match nested {
            Some(m) => match &m.from {
                Some(from) => from.as_str(),
                None => name,
            },
            None => name,
        };
        let shape = match from {
            Some(c) => c.child(source),
            None => None,
        };
        let rows = match row.child(source) {
            Some(rows) => rows,
            None => &none,
        };
        proof {
            assert(source@ == source_name(plan_given(nested), child.name@));
            assert(shape_of(shape) == child_of(shape_of(from), source@));
            assert(rows@ =~= rows_under(row.children@, source@));
        }
        match copy_rows(child, nested, shape, rows, &work.children[i], Some(at), prospective, migrated) {
            Ok(_) => {},
            Err(e) => {
                proof {
                    lemma_children_refusal(
                        *c,
                        plan,
                        shape_of(from),
                        *row,
                        *work,
                        at@,
                        start,
                        i + 1,
                        c.children@.len() as int,
                    );
                }
                return Err(e);
            },
        }
        i = i + 1;
    }
    Ok(())
}

/// The refusal of a root member's mapping whose source the source package does not
/// hold.
pub open spec fn no_source_member(from: Seq<char>, name: Seq<char>) -> RejectionView {
    refused(
        RejectionReason::Malformed,
        "migration `$from: \""@ + from + "\"` for singleton member `"@ + name
            + "` names no durable singleton member of the source package"@,
    )
}

/// The root members after the first `n` have been given their values: by a mapping,
/// or by the value of the same name.
pub open spec fn members_mapped(
    members: Seq<Seq<char>>,
    plan: Map<Seq<char>, FieldPlan>,
    source: FieldsView,
    held: Seq<Seq<char>>,
    work: Seq<Transformed>,
    n: int,
) -> Result<FieldsView, RejectionView>
    decreases n,
{
    if n <= 0 {
        Ok(Map::empty())
    } else {
        match members_mapped(members, plan, source, held, work, n - 1) {
            Err(e) => Err(e),
            Ok(row) => member_mapped(members[n - 1], plan, source, held, work[n - 1], row),
        }
    }
}

/// The root members after one of them has been given its value.
pub open spec fn member_mapped(
    name: Seq<char>,
    plan: Map<Seq<char>, FieldPlan>,
    source: FieldsView,
    held: Seq<Seq<char>>,
    work: Transformed,
    row: FieldsView,
) -> Result<FieldsView, RejectionView> {
    if plan.contains_key(name) {
        let mapping = plan[name];
        if !held.contains(mapping.from) {
            Err(no_source_member(mapping.from, name))
        } else if !source.contains_key(mapping.from) {
            Ok(row)
        } else {
            match mapped_value(mapping, source[mapping.from], work) {
                Ok(v) => Ok(row.insert(name, v)),
                Err(e) => Err(e),
            }
        }
    } else if source.contains_key(name) {
        Ok(row.insert(name, source[name]))
    } else {
        Ok(row)
    }
}

proof fn lemma_members_refusal(
    members: Seq<Seq<char>>,
    plan: Map<Seq<char>, FieldPlan>,
    source: FieldsView,
    held: Seq<Seq<char>>,
    work: Seq<Transformed>,
    n: int,
    m: int,
)
    requires
        0 <= n <= m,
        members_mapped(members, plan, source, held, work, n) is Err,
    ensures
        members_mapped(members, plan, source, held, work, m) == members_mapped(members, plan, source, held, work, n),
    decreases m - n,
{
    if n < m {
        lemma_members_refusal(members, plan, source, held, work, n, m - 1);
    }
}

fn map_member(
    name: &String,
    plan: &Table<String, FieldMigration>,
    source: &Fields,
    held: &Vec<String>,
    work: &Transformed,
    row: &mut Fields,
) -> (r: Result<(), Rejection>)
    ensures
        match (r, member_mapped(name@, plan@, source@, texts(held@), *work, old(row)@)) {
            (Ok(_), Ok(mapped)) => final(row)@ == mapped,
            (Err(e), Err(x)) => e@ == x,
            _ => false,
        },
{
    match plan.get(name) {
        Some(mapping) => {
            if !holds_text(held, mapping.from.as_str()) {
                return Err(
                    Rejection::new(
                        RejectionReason::Malformed,
                        concat5(
                            "migration `$from: \"",
                            mapping.from.as_str(),
                            "\"` for singleton member `",
                            name.as_str(),
                            "` names no durable singleton member of the source package",
                        ).as_str(),
                    ),
                );
            }
            if let Some(value) = source.get(&mapping.from) {
                let mapped = apply_mapping(mapping, value, work)?;
                row.insert(name.clone(), mapped);
            }
        },
        None => {
            if let Some(value) = source.get(name) {
                row.insert(name.clone(), copy_value(value));
            }
        },
    }
    Ok(())
}

/// Map the root members of the source package to those of the target. The names are
/// those of the root members that hold state, in the target and in the source.
pub fn map_members(
    members: &Vec<String>,
    plan: &Table<String, FieldMigration>,
    source: &Fields,
    held: &Vec<String>,
    work: &Vec<Transformed>,
) -> (r: Result<Fields, Rejection>)
    requires
        work@.len() == members@.len(),
    ensures
        outcome(r) == members_mapped(
            texts(members@),
            plan@,
            source@,
            texts(held@),
            work@,
            members@.len() as int,
        ),
{
    let ghost names = texts(members@);
    let mut row: Fields = Table::new();
    let mut i: usize = 0;
    while i < members.len()
        invariant
            names == texts(members@),
            work@.len() == members@.len(),
            i <= members@.len(),
            members_mapped(names, plan@, source@, texts(held@), work@, i as int) == Ok::<FieldsView, RejectionView>(
                row@,
            ),
        decreases members@.len() - i,
    {
        match map_member(&members[i], plan, source, held, &work[i], &mut row) {
            Ok(_) => {},
            Err(e) => {
                proof {
                    lemma_members_refusal(
                        names,
                        plan@,
                        source@,
                        texts(held@),
                        work@,
                        i + 1,
                        members@.len() as int,
                    );
                }
                return Err(e);
            },
        }
        i = i + 1;
    }
    Ok(row)
}

/// The shape of a package: its collections, and the names of the root members that
/// hold state.
pub struct Shape {
    pub compiled: Compiled,
    pub members: Vec<String>,
}

/// Whether there is evaluation work for a whole state.
pub open spec fn all_ready(target: Shape, state: StateSection, plan: PlanView, work: CarryWork) -> bool {
    let collections = target.compiled.collections@;
    &&& work.collections@.len() == collections.len()
    &&& work.singleton@.len() == target.members@.len()
    &&& forall|i: int|
        0 <= i < collections.len() ==> {
            let nested = plan_for(plan.collections, (#[trigger] collections[i]).name@);
            match rows_named(state.collections@, source_name(nested, collections[i].name@)) {
                Some(rows) => ready(collections[i], nested, rows, work.collections@[i]@),
                None => true,
            }
        }
}

/// A copy after the first `n` top-level collections of the target. One whose source
/// was not captured has no rows.
pub open spec fn collections_copied(
    source: Shape,
    state: StateSection,
    target: Shape,
    plan: PlanView,
    work: CarryWork,
    n: int,
) -> Result<CopyView, RejectionView>
    decreases n,
{
    if n <= 0 {
        Ok(CopyView { state: Map::empty(), migrated: Seq::empty(), drawn: 0 })
    } else {
        match collections_copied(source, state, target, plan, work, n - 1) {
            Err(e) => Err(e),
            Ok(s) => {
                let c = target.compiled.collections@[n - 1];
                let nested = plan_for(plan.collections, c.name@);
                let name = source_name(nested, c.name@);
                match rows_named(state.collections@, name) {
                    None => Ok(s),
                    Some(rows) => rows_copied(
                        c,
                        nested,
                        source.compiled.top(name),
                        rows,
                        work.collections@[n - 1]@,
                        Seq::empty(),
                        s,
                        rows.len() as int,
                    ),
                }
            },
        }
    }
}

/// A state with the root members carried over, in the row at `reserved`.
pub open spec fn members_carried(
    state: StateView,
    source: Shape,
    captured: StateSection,
    target: Shape,
    plan: PlanView,
    work: CarryWork,
    reserved: Seq<StepView>,
) -> Result<StateView, RejectionView> {
    match captured.singleton {
        None => Ok(state),
        Some(row) => match members_mapped(
            texts(target.members@),
            plan.singleton_fields,
            row@,
            texts(source.members@),
            work.singleton@,
            target.members@.len() as int,
        ) {
            Err(e) => Err(e),
            Ok(mapped) => if mapped == Map::<Seq<char>, ValueView>::empty() {
                Ok(state)
            } else {
                Ok(state.insert(reserved, mapped))
            },
        },
    }
}

/// A state with the defaults and normalized values of the root members written.
pub open spec fn members_written(
    state: StateView,
    writes: Seq<(String, Result<Value, Rejection>)>,
    reserved: Seq<StepView>,
) -> Result<StateView, RejectionView> {
    if writes.len() == 0 {
        Ok(state)
    } else {
        let row = if state.contains_key(reserved) {
            state[reserved]
        } else {
            Map::empty()
        };
        match written(row, writes, writes.len() as int) {
            Err(e) => Err(e),
            Ok(r) => Ok(state.insert(reserved, r)),
        }
    }
}

/// The state carried over from the source package: the collections, then the root
/// members, then what defaults and normalization write to those.
pub open spec fn carried_state(
    source: Shape,
    state: StateSection,
    target: Shape,
    plan: PlanView,
    work: CarryWork,
    reserved: Seq<StepView>,
) -> Result<CopyView, RejectionView> {
    match collections_copied(source, state, target, plan, work, target.compiled.collections@.len() as int) {
        Err(e) => Err(e),
        Ok(s) => match members_carried(s.state, source, state, target, plan, work, reserved) {
            Err(e) => Err(e),
            Ok(with) => match members_written(with, work.singleton_writes@, reserved) {
                Err(e) => Err(e),
                Ok(all) => Ok(CopyView { state: all, migrated: s.migrated, drawn: s.drawn }),
            },
        },
    }
}

proof fn lemma_collections_refusal(
    source: Shape,
    state: StateSection,
    target: Shape,
    plan: PlanView,
    work: CarryWork,
    n: int,
    m: int,
)
    requires
        0 <= n <= m,
        collections_copied(source, state, target, plan, work, n) is Err,
    ensures
        collections_copied(source, state, target, plan, work, m) == collections_copied(
            source,
            state,
            target,
            plan,
            work,
            n,
        ),
    decreases m - n,
{
    if n < m {
        lemma_collections_refusal(source, state, target, plan, work, n, m - 1);
    }
}

/// What was carried over: the state, and the rows a declared mapping gave.
pub struct Carried {
    pub prospective: Prospective,
    pub migrated: Vec<RowAddress>,
}

impl View for Carried {
    type V = CopyView;

    open spec fn view(&self) -> CopyView {
        CopyView {
            state: self.prospective@,
            migrated: address_views(self.migrated@),
            drawn: self.prospective.drawn(),
        }
    }
}

fn copy_collections(
    source: &Shape,
    state: &StateSection,
    target: &Shape,
    plan: &MigrationPlan,
    work: &CarryWork,
) -> (r: Result<Carried, Rejection>)
    requires
        all_ready(*target, *state, plan@, *work),
    ensures
        outcome(r) == collections_copied(
            *source,
            *state,
            *target,
            plan@,
            *work,
            target.compiled.collections@.len() as int,
        ),
{
    let mut prospective = Prospective::empty();
    let mut migrated: Vec<RowAddress> = Vec::new();
    let mut i: usize = 0;
    proof {
        assert(address_views(migrated@) =~= Seq::<Seq<StepView>>::empty());
    }
    while i < target.compiled.collections.len()
        invariant
            all_ready(*target, *state, plan@, *work),
            i <= target.compiled.collections@.len(),
            collections_copied(*source, *state, *target, plan@, *work, i as int) == Ok::<CopyView, RejectionView>(
                copy_view(prospective, migrated@),
            ),
        decreases target.compiled.collections@.len() - i,
    {
        let c = &target.compiled.collections[i];
        let name = c.name.as_str();
        let nested = find_plan(&plan.collections, name);
        proof {
            assert(plan_given(nested) == plan_for(plan@.collections, c.name@));
            assert(target.compiled.collections@[i as int] == *c);
        }
        let from = match nested {
            Some(m) => match &m.from {
                Some(from) => from.as_str(),
                None => name,
            },
            None => name,
        };
        if let Some(rows) = state.collection(from) {
            let shape = source.compiled.collection(from);
            match copy_rows(c, nested, shape, rows, &work.collections[i], None, &mut prospective, &mut migrated) {
                Ok(_) => {},
                Err(e) => {
                    proof {
                        lemma_collections_refusal(
                            *source,
                            *state,
                            *target,
                            plan@,
                            *work,
                            i + 1,
                            target.compiled.collections@.len() as int,
                        );
                    }
                    return Err(e);
                },
            }
        }
        i = i + 1;
    }
    Ok(Carried { prospective, migrated })
}

/// Carry the state of the source package over into the target. `work` holds what
/// evaluation came to; the root members stand in the row at `reserved`.
pub fn carry_state(
    source: &Shape,
    state: &StateSection,
    target: &Shape,
    plan: &MigrationPlan,
    work: &CarryWork,
    reserved: &RowAddress,
) -> (r: Result<Carried, Rejection>)
    requires
        all_ready(*target, *state, plan@, *work),
    ensures
        outcome(r) == carried_state(*source, *state, *target, plan@, *work, reserved@),
{
    let mut carried = copy_collections(source, state, target, plan, work)?;
    if let Some(row) = &state.singleton {
        let mapped = map_members(&target.members, &plan.singleton_fields, row, &source.members, &work.singleton)?;
        if !mapped.is_empty() {
            carried.prospective.replace(reserved, mapped);
        }
    }
    if work.singleton_writes.len() > 0 {
        let row = match carried.prospective.get(reserved) {
            Some(row) => row.duplicate(),
            None => Table::new(),
        };
        let complete = write_values(row, &work.singleton_writes)?;
        carried.prospective.replace(reserved, complete);
    }
    Ok(carried)
}

proof fn lemma_rows_keep(
    c: CompiledCollection,
    plan: CollectionPlan,
    from: Option<CompiledCollection>,
    rows: Seq<CapturedRow>,
    work: Seq<RowWork>,
    parent: Seq<StepView>,
    start: CopyView,
    n: int,
    at: Seq<StepView>,
)
    requires
        rows_copied(c, plan, from, rows, work, parent, start, n) is Ok,
        start.state.contains_key(at),
    ensures
        rows_copied(c, plan, from, rows, work, parent, start, n)->Ok_0.state.contains_key(at),
        rows_copied(c, plan, from, rows, work, parent, start, n)->Ok_0.state[at] == start.state[at],
    decreases c, 2int, n,
{
    if n > 0 {
        lemma_rows_keep(c, plan, from, rows, work, parent, start, n - 1, at);
        let s = rows_copied(c, plan, from, rows, work, parent, start, n - 1)->Ok_0;
        lemma_row_keeps(c, plan, from, rows[n - 1], work[n - 1], parent, s, at);
    }
}

proof fn lemma_row_keeps(
    c: CompiledCollection,
    plan: CollectionPlan,
    from: Option<CompiledCollection>,
    row: CapturedRow,
    work: RowWork,
    parent: Seq<StepView>,
    start: CopyView,
    at: Seq<StepView>,
)
    requires
        row_copied(c, plan, from, row, work, parent, start) is Ok,
        start.state.contains_key(at),
    ensures
        row_copied(c, plan, from, row, work, parent, start)->Ok_0.state.contains_key(at),
        row_copied(c, plan, from, row, work, parent, start)->Ok_0.state[at] == start.state[at],
    decreases c, 1int, 0int,
{
    let mapped = mapped_row(c, plan, row.fields@, from, work.transforms@)->Ok_0;
    let fields = written(mapped, work.writes@, work.writes@.len() as int)->Ok_0;
    let own = carried_address(c, fields, parent)->Ok_0;
    let placed = CopyView {
        state: start.state.insert(own, fields),
        migrated: if plan.fields == Map::<Seq<char>, FieldPlan>::empty() {
            start.migrated
        } else {
            start.migrated.push(own)
        },
        drawn: start.drawn + 1,
    };
    lemma_children_keep(c, plan, from, row, work, own, placed, c.children@.len() as int, at);
}

proof fn lemma_children_keep(
    c: CompiledCollection,
    plan: CollectionPlan,
    from: Option<CompiledCollection>,
    row: CapturedRow,
    work: RowWork,
    own: Seq<StepView>,
    start: CopyView,
    n: int,
    at: Seq<StepView>,
)
    requires
        children_copied(c, plan, from, row, work, own, start, n) is Ok,
        start.state.contains_key(at),
    ensures
        children_copied(c, plan, from, row, work, own, start, n)->Ok_0.state.contains_key(at),
        children_copied(c, plan, from, row, work, own, start, n)->Ok_0.state[at] == start.state[at],
    decreases c, 0int, n,
{
    if 0 < n <= c.children@.len() {
        lemma_children_keep(c, plan, from, row, work, own, start, n - 1, at);
        let s = children_copied(c, plan, from, row, work, own, start, n - 1)->Ok_0;
        let child = c.children@[n - 1];
        let nested = plan_for(plan.children, child.name@);
        let source = source_name(nested, child.name@);
        let rows = rows_under(row.children@, source);
        lemma_rows_keep(
            child,
            nested,
            child_of(from, source),
            rows,
            work.children@[n - 1]@,
            own,
            s,
            rows.len() as int,
            at,
        );
    }
}

/// An accepted copy drops no row: every row of a collection stands at the address its
/// own key gives it, with the values its mapping and the written values gave it, and
/// no row overwrites another.
pub proof fn law_copy_drops_nothing(
    c: CompiledCollection,
    plan: CollectionPlan,
    from: Option<CompiledCollection>,
    rows: Seq<CapturedRow>,
    work: Seq<RowWork>,
    parent: Seq<StepView>,
    start: CopyView,
    n: int,
    i: int,
)
    requires
        0 <= i < n <= rows.len(),
        rows_copied(c, plan, from, rows, work, parent, start, n) is Ok,
    ensures
        ({
            let s = rows_copied(c, plan, from, rows, work, parent, start, n)->Ok_0;
            let mapped = mapped_row(c, plan, rows[i].fields@, from, work[i].transforms@);
            let fields = written(mapped->Ok_0, work[i].writes@, work[i].writes@.len() as int);
            let at = carried_address(c, fields->Ok_0, parent);
            &&& mapped is Ok
            &&& fields is Ok
            &&& at is Ok
            &&& s.state.contains_key(at->Ok_0)
            &&& s.state[at->Ok_0] == fields->Ok_0
            &&& !rows_copied(c, plan, from, rows, work, parent, start, i)->Ok_0.state.contains_key(at->Ok_0)
        }),
    decreases n,
{
    let before = rows_copied(c, plan, from, rows, work, parent, start, n - 1)->Ok_0;
    let mapped = mapped_row(c, plan, rows[i].fields@, from, work[i].transforms@)->Ok_0;
    let fields = written(mapped, work[i].writes@, work[i].writes@.len() as int)->Ok_0;
    let own = carried_address(c, fields, parent)->Ok_0;
    if i == n - 1 {
        let placed = CopyView {
            state: before.state.insert(own, fields),
            migrated: if plan.fields == Map::<Seq<char>, FieldPlan>::empty() {
                before.migrated
            } else {
                before.migrated.push(own)
            },
            drawn: before.drawn + 1,
        };
        lemma_children_keep(c, plan, from, rows[i], work[i], own, placed, c.children@.len() as int, own);
    } else {
        law_copy_drops_nothing(c, plan, from, rows, work, parent, start, n - 1, i);
        lemma_row_keeps(c, plan, from, rows[n - 1], work[n - 1], parent, before, own);
    }
}

} // verus!
