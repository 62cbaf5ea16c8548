//! Mapping one row of the source package to a row of the target package.

use crate::model::{field_named, CompiledCollection, CompiledField, CompiledStruct};
use crate::order::Duplicate;
use crate::plan::{no_plan, CollectionMigration, CollectionPlan, FieldMigration, FieldPlan};
use crate::rejection::{outcome, refused, Rejection, RejectionReason, RejectionView};
use crate::state::{Fields, FieldsView};
use crate::table::Table;
use crate::text::{concat3, concat5};
use crate::value::{copy_value, same_value, Value, ValueView};
use vstd::prelude::*;

verus! {

/// What evaluating the transforms of one mapping came to: the transform of the
/// source value, and the inverse of what the transform gave.
pub struct Transformed {
    pub transformed: Result<Value, Rejection>,
    pub restored: Result<Value, Rejection>,
}

/// What a collection's migration denotes; without one, nothing is mapped.
pub open spec fn plan_given(migration: Option<&CollectionMigration>) -> CollectionPlan {
    match migration {
        Some(m) => m@,
        None => no_plan(),
    }
}

/// The value a mapping gives a field: the source value, or its transform. Where the
/// mapping declares an inverse, the inverse must give the source value back.
pub open spec fn mapped_value(plan: FieldPlan, source: ValueView, work: Transformed) -> Result<
    ValueView,
    RejectionView,
> {
    match plan.transform {
        None => Ok(source),
        Some(_) => match outcome(work.transformed) {
            Err(e) => Err(e),
            Ok(value) => match plan.back {
                None => Ok(value),
                Some(_) => match outcome(work.restored) {
                    Err(e) => Err(e),
                    Ok(back) => if back == source {
                        Ok(value)
                    } else {
                        Err(
                            refused(
                                RejectionReason::Check,
                                "reversible transform round trip `$back($as(x)) == x` failed"@,
                            ),
                        )
                    },
                },
            },
        },
    }
}

/// The refusal of a mapping whose source field the source collection does not
/// declare.
pub open spec fn no_source(from: Seq<char>, field: Seq<char>, collection: Seq<char>) -> RejectionView {
    refused(
        RejectionReason::Malformed,
        "migration `$from: \""@ + from + "\"` for `"@ + field + "` names no field of source collection `"@ + collection
            + "`"@,
    )
}

/// A target row after one of its fields has been given its value: by its mapping, or
/// by the value of the same name.
pub open spec fn field_mapped(
    field: CompiledField,
    plan: CollectionPlan,
    source: FieldsView,
    from: Option<CompiledCollection>,
    work: Transformed,
    row: FieldsView,
) -> Result<FieldsView, RejectionView> {
    let name = field.name@;
    if plan.fields.contains_key(name) {
        let mapping = plan.fields[name];
        if from is Some && field_named(from->0.fields@, mapping.from) is None {
            Err(no_source(mapping.from, name, from->0.name@))
        } else if !source.contains_key(mapping.from) {
            Ok(row)
        } else {
            match mapped_value(mapping, source[mapping.from], work) {
                Ok(v) => Ok(row.insert(name, v)),
                Err(e) => Err(e),
            }
        }
    } else if source.contains_key(name) {
        Ok(row.insert(name, source[name]))
    } else {
        Ok(row)
    }
}

/// A target row after the first `n` fields have been given their values.
pub open spec fn fields_mapped(
    fields: Seq<CompiledField>,
    plan: CollectionPlan,
    source: FieldsView,
    from: Option<CompiledCollection>,
    work: Seq<Transformed>,
    n: int,
) -> Result<FieldsView, RejectionView>
    decreases n,
{
    if n <= 0 {
        Ok(Map::empty())
    } else {
        match fields_mapped(fields, plan, source, from, work, n - 1) {
            Err(e) => Err(e),
            Ok(row) => field_mapped(fields[n - 1], plan, source, from, work[n - 1], row),
        }
    }
}

/// A target row after the first `n` static structs have been carried over.
pub open spec fn structs_carried(structs: Seq<CompiledStruct>, source: FieldsView, row: FieldsView, n: int) -> FieldsView
    decreases n,
{
    if n <= 0 {
        row
    } else {
        let before = structs_carried(structs, source, row, n - 1);
        let name = structs[n - 1].name@;
        if source.contains_key(name) {
            before.insert(name, source[name])
        } else {
            before
        }
    }
}

/// The target row of a source row: each field by its mapping or by its name, and each
/// static struct by its name.
pub open spec fn mapped_row(
    c: CompiledCollection,
    plan: CollectionPlan,
    source: FieldsView,
    from: Option<CompiledCollection>,
    work: Seq<Transformed>,
) -> Result<FieldsView, RejectionView> {
    match fields_mapped(c.fields@, plan, source, from, work, c.fields@.len() as int) {
        Err(e) => Err(e),
        Ok(row) => Ok(structs_carried(c.structs@, source, row, c.structs@.len() as int)),
    }
}

/// The value a mapping gives a field.
pub fn apply_mapping(mapping: &FieldMigration, source: &Value, work: &Transformed) -> (r: Result<Value, Rejection>)
    ensures
        outcome(r) == mapped_value(mapping@, source@, *work),
{
    if mapping.transform.is_none() {
        return Ok(copy_value(source));
    }
    let value = match &work.transformed {
        Ok(v) => v,
        Err(e) => {
            return Err(e.duplicate());
        },
    };
    if mapping.back.is_some() {
        verify_reversible(source, &work.restored)?;
    }
    Ok(copy_value(value))
}

/// Require that an inverse gave the source value back.
fn verify_reversible(source: &Value, restored: &Result<Value, Rejection>) -> (r: Result<(), Rejection>)
    ensures
        match (r, outcome(*restored)) {
            (Err(e), Err(x)) => e@ == x,
            (Ok(_), Ok(back)) => back == source@,
            (Err(e), Ok(back)) => back != source@ && e@ == refused(
                RejectionReason::Check,
                "reversible transform round trip `$back($as(x)) == x` failed"@,
            ),
            _ => false,
        },
{
    match restored {
        Ok(back) => if same_value(back, source) {
            Ok(())
        } else {
            Err(
                Rejection::new(
                    RejectionReason::Check,
                    "reversible transform round trip `$back($as(x)) == x` failed",
                ),
            )
        },
        Err(e) => Err(e.duplicate()),
    }
}

fn map_field(
    field: &CompiledField,
    migration: Option<&CollectionMigration>,
    source: &Fields,
    from: Option<&CompiledCollection>,
    work: &Transformed,
    row: &mut Fields,
) -> (r: Result<(), Rejection>)
    ensures
        match (
            r,
            field_mapped(
                *field,
                plan_given(migration),
                source@,
                match from {
                    Some(c) => Some(*c),
                    None => None,
                },
                *work,
                old(row)@,
            ),
        ) {
            (Ok(_), Ok(mapped)) => final(row)@ == mapped,
            (Err(e), Err(x)) => e@ == x,
            _ => false,
        },
{
    let mapping = match migration {
        Some(m) => m.fields.get(&field.name),
        None => None,
    };
    match mapping {
        Some(mapping) => {
            if let Some(c) = from {
                if c.field(mapping.from.as_str()).is_none() {
                    let head = concat5(
                        "migration `$from: \"",
                        mapping.from.as_str(),
                        "\"` for `",
                        field.name.as_str(),
                        "` names no field of source collection `",
                    );
                    return Err(
                        Rejection::new(
                            RejectionReason::Malformed,
                            concat3(head.as_str(), c.name.as_str(), "`").as_str(),
                        ),
                    );
                }
            }
            if let Some(value) = source.get(&mapping.from) {
                let mapped = apply_mapping(mapping, value, work)?;
                row.insert(field.name.clone(), mapped);
            }
        },
        None => {
            if let Some(value) = source.get(&field.name) {
                row.insert(field.name.clone(), copy_value(value));
            }
        },
    }
    Ok(())
}

proof fn lemma_mapped_refusal(
    fields: Seq<CompiledField>,
    plan: CollectionPlan,
    source: FieldsView,
    from: Option<CompiledCollection>,
    work: Seq<Transformed>,
    n: int,
    m: int,
)
    requires
        0 <= n <= m,
        fields_mapped(fields, plan, source, from, work, n) is Err,
    ensures
        fields_mapped(fields, plan, source, from, work, m) == fields_mapped(fields, plan, source, from, work, n),
    decreases m - n,
{
    if n < m {
        lemma_mapped_refusal(fields, plan, source, from, work, n, m - 1);
    }
}

/// Map a source row to its target row. `work` holds what evaluating the transforms of
/// each field's mapping came to.
pub fn map_row(
    collection: &CompiledCollection,
    migration: Option<&CollectionMigration>,
    source: &Fields,
    from: Option<&CompiledCollection>,
    work: &Vec<Transformed>,
) -> (r: Result<Fields, Rejection>)
    requires
        work@.len() == collection.fields@.len(),
    ensures
        outcome(r) == mapped_row(
            *collection,
            plan_given(migration),
            source@,
            match from {
                Some(c) => Some(*c),
                None => None,
            },
            work@,
        ),
{
    let ghost plan = plan_given(migration);
    let ghost old_collection = match from {
        Some(c) => Some(*c),
        None => None,
    };
    let mut row: Fields = Table::new();
    let mut i: usize = 0;
    while i < collection.fields.len()
        invariant
            plan == plan_given(migration),
            old_collection == (match from {
                Some(c) => Some(*c),
                None => None,
            }),
            work@.len() == collection.fields@.len(),
            i <= collection.fields@.len(),
            fields_mapped(collection.fields@, plan, source@, old_collection, work@, i as int) == Ok::<
                FieldsView,
                RejectionView,
            >(row@),
        decreases collection.fields@.len() - i,
    {
        match map_field(&collection.fields[i], migration, source, from, &work[i], &mut row) {
            Ok(_) => {},
            Err(e) => {
                proof {
                    lemma_mapped_refusal(
                        collection.fields@,
                        plan,
                        source@,
                        old_collection,
                        work@,
                        i + 1,
                        collection.fields@.len() as int,
                    );
                }
                return Err(e);
            },
        }
        i = i + 1;
    }
    let ghost mapped = row@;
    let mut j: usize = 0;
    while j < collection.structs.len()
        invariant
            j <= collection.structs@.len(),
            row@ == structs_carried(collection.structs@, source@, mapped, j as int),
        decreases collection.structs@.len() - j,
    {
        if let Some(value) = source.get(&collection.structs[j].name) {
            row.insert(collection.structs[j].name.clone(), copy_value(value));
        }
        j = j + 1;
    }
    Ok(row)
}

/// Whether a collection declares a field or a static struct of this name.
pub open spec fn declared(c: CompiledCollection, name: Seq<char>) -> bool {
    ||| exists|i: int| 0 <= i < c.fields@.len() && #[trigger] c.fields@[i].name@ == name
    ||| exists|i: int| 0 <= i < c.structs@.len() && #[trigger] c.structs@[i].name@ == name
}

proof fn lemma_fields_copied(
    fields: Seq<CompiledField>,
    source: FieldsView,
    from: Option<CompiledCollection>,
    work: Seq<Transformed>,
    n: int,
)
    requires
        0 <= n <= fields.len(),
    ensures
        fields_mapped(fields, no_plan(), source, from, work, n) is Ok,
        forall|name: Seq<char>| #[trigger]
            fields_mapped(fields, no_plan(), source, from, work, n)->Ok_0.contains_key(name) <==> source.contains_key(name)
                && exists|i: int| 0 <= i < n && #[trigger] fields[i].name@ == name,
        forall|name: Seq<char>| #[trigger]
            fields_mapped(fields, no_plan(), source, from, work, n)->Ok_0.contains_key(name) ==> fields_mapped(
                fields,
                no_plan(),
                source,
                from,
                work,
                n,
            )->Ok_0[name] == source[name],
    decreases n,
{
    if n > 0 {
        lemma_fields_copied(fields, source, from, work, n - 1);
        let before = fields_mapped(fields, no_plan(), source, from, work, n - 1)->Ok_0;
        let after = fields_mapped(fields, no_plan(), source, from, work, n)->Ok_0;
        assert forall|name: Seq<char>| #[trigger] after.contains_key(name) <==> source.contains_key(name) && exists|i: int|
            0 <= i < n && #[trigger] fields[i].name@ == name by {
            if source.contains_key(name) && exists|i: int| 0 <= i < n && #[trigger] fields[i].name@ == name {
                let i = choose|i: int| 0 <= i < n && #[trigger] fields[i].name@ == name;
                if i < n - 1 {
                    assert(before.contains_key(name));
                }
            }
            if after.contains_key(name) {
                if fields[n - 1].name@ != name {
                    assert(before.contains_key(name));
                    let i = choose|i: int| 0 <= i < n - 1 && #[trigger] fields[i].name@ == name;
                    assert(fields[i].name@ == name);
                } else {
                    assert(fields[n - 1].name@ == name);
                    if before.contains_key(name) {
                    }
                }
            }
        }
    }
}

proof fn lemma_structs_copied(structs: Seq<CompiledStruct>, source: FieldsView, row: FieldsView, n: int)
    requires
        0 <= n <= structs.len(),
        forall|name: Seq<char>| #[trigger] row.contains_key(name) ==> source.contains_key(name) && row[name] == source[name],
    ensures
        forall|name: Seq<char>| #[trigger]
            structs_carried(structs, source, row, n).contains_key(name) <==> row.contains_key(name) || (
            source.contains_key(name) && exists|i: int| 0 <= i < n && #[trigger] structs[i].name@ == name),
        forall|name: Seq<char>| #[trigger]
            structs_carried(structs, source, row, n).contains_key(name) ==> source.contains_key(name) && structs_carried(
                structs,
                source,
                row,
                n,
            )[name] == source[name],
    decreases n,
{
    if n > 0 {
        lemma_structs_copied(structs, source, row, n - 1);
        let before = structs_carried(structs, source, row, n - 1);
        let after = structs_carried(structs, source, row, n);
        assert forall|name: Seq<char>| #[trigger] after.contains_key(name) <==> row.contains_key(name) || (
        source.contains_key(name) && exists|i: int| 0 <= i < n && #[trigger] structs[i].name@ == name) by {
            if source.contains_key(name) && exists|i: int| 0 <= i < n && #[trigger] structs[i].name@ == name {
                let i = choose|i: int| 0 <= i < n && #[trigger] structs[i].name@ == name;
                if i < n - 1 {
                    assert(before.contains_key(name));
                }
            }
            if row.contains_key(name) {
                assert(before.contains_key(name));
            }
            if after.contains_key(name) && structs[n - 1].name@ != name {
                assert(before.contains_key(name));
            }
            if after.contains_key(name) && structs[n - 1].name@ == name {
                if !source.contains_key(name) {
                    assert(before.contains_key(name));
                }
            }
        }
    }
}

/// Without a mapping, a target row holds exactly the source values whose names the
/// target collection declares, unchanged.
pub proof fn law_compatible_copy(
    c: CompiledCollection,
    source: FieldsView,
    from: Option<CompiledCollection>,
    work: Seq<Transformed>,
)
    ensures
        mapped_row(c, no_plan(), source, from, work) is Ok,
        forall|name: Seq<char>| #[trigger]
            mapped_row(c, no_plan(), source, from, work)->Ok_0.contains_key(name) <==> source.contains_key(name)
                && declared(c, name),
        forall|name: Seq<char>| #[trigger]
            mapped_row(c, no_plan(), source, from, work)->Ok_0.contains_key(name) ==> mapped_row(
                c,
                no_plan(),
                source,
                from,
                work,
            )->Ok_0[name] == source[name],
{
    lemma_fields_copied(c.fields@, source, from, work, c.fields@.len() as int);
    let row = fields_mapped(c.fields@, no_plan(), source, from, work, c.fields@.len() as int)->Ok_0;
    lemma_structs_copied(c.structs@, source, row, c.structs@.len() as int);
}

/// A reversible mapping that is accepted gives the source value back.
pub proof fn law_reversible(plan: FieldPlan, source: ValueView, work: Transformed)
    requires
        plan.transform is Some,
        plan.back is Some,
    ensures
        mapped_value(plan, source, work) is Ok ==> outcome(work.restored) == Ok::<ValueView, RejectionView>(source),
{
}

/// Without a transform the source value is what a mapping gives. With one and no
/// inverse, it gives exactly what the transform came to, a failure as much as a value.
/// With an inverse it gives the transform's value where the inverse came to the source
/// value, and nothing otherwise; the first of the two that fails is the failure.
pub proof fn law_transform_decides(plan: FieldPlan, source: ValueView, work: Transformed)
    ensures
        plan.transform is None ==> mapped_value(plan, source, work) == Ok::<ValueView, RejectionView>(source),
        plan.transform is Some && plan.back is None ==> match work.transformed {
            Ok(v) => mapped_value(plan, source, work) == Ok::<ValueView, RejectionView>(v@),
            Err(e) => mapped_value(plan, source, work) == Err::<ValueView, RejectionView>(e@),
        },
        plan.transform is Some && plan.back is Some ==> match (work.transformed, work.restored) {
            (Err(e), _) => mapped_value(plan, source, work) == Err::<ValueView, RejectionView>(e@),
            (Ok(_), Err(e)) => mapped_value(plan, source, work) == Err::<ValueView, RejectionView>(e@),
            (Ok(v), Ok(back)) => if back@ == source {
                mapped_value(plan, source, work) == Ok::<ValueView, RejectionView>(v@)
            } else {
                mapped_value(plan, source, work) matches Err(x) && x.reason == RejectionReason::Check
            },
        },
{
}

/// An accepted mapping with a transform gives the transform's value, whether or not an
/// inverse is declared.
pub proof fn law_transform_kept(plan: FieldPlan, source: ValueView, work: Transformed)
    requires
        plan.transform is Some,
        mapped_value(plan, source, work) is Ok,
    ensures
        work.transformed matches Ok(v) && mapped_value(plan, source, work)->Ok_0 == v@,
{
}

/// Whether the members of a collection have names of their own.
pub open spec fn names_apart(c: CompiledCollection) -> bool {
    &&& forall|i: int, j: int|
        0 <= i < j < c.fields@.len() ==> (#[trigger] c.fields@[i]).name@ != (#[trigger] c.fields@[j]).name@
    &&& forall|i: int, j: int|
        0 <= i < j < c.structs@.len() ==> (#[trigger] c.structs@[i]).name@ != (#[trigger] c.structs@[j]).name@
    &&& forall|i: int, j: int|
        0 <= i < c.fields@.len() && 0 <= j < c.structs@.len() ==> (#[trigger] c.fields@[i]).name@ != (
        #[trigger] c.structs@[j]).name@
}

/// What a source row has for a target field: what the mapping names, or what has the
/// field's own name.
pub open spec fn source_name(plan: CollectionPlan, name: Seq<char>) -> Seq<char> {
    if plan.fields.contains_key(name) {
        plan.fields[name].from
    } else {
        name
    }
}

proof fn lemma_fields_placed(
    c: CompiledCollection,
    plan: CollectionPlan,
    source: FieldsView,
    from: Option<CompiledCollection>,
    work: Seq<Transformed>,
    n: int,
)
    requires
        names_apart(c),
        0 <= n <= c.fields@.len(),
        fields_mapped(c.fields@, plan, source, from, work, n) is Ok,
    ensures
        ({
            let row = fields_mapped(c.fields@, plan, source, from, work, n)->Ok_0;
            &&& forall|i: int|
                0 <= i < n ==> {
                    let name = (#[trigger] c.fields@[i]).name@;
                    &&& row.contains_key(name) <==> source.contains_key(source_name(plan, name))
                    &&& row.contains_key(name) && plan.fields.contains_key(name) ==> mapped_value(
                        plan.fields[name],
                        source[plan.fields[name].from],
                        work[i],
                    ) == Ok::<ValueView, RejectionView>(row[name])
                    &&& row.contains_key(name) && !plan.fields.contains_key(name) ==> row[name] == source[name]
                }
            &&& forall|name: Seq<char>| #[trigger]
                row.contains_key(name) ==> exists|i: int| 0 <= i < n && (#[trigger] c.fields@[i]).name@ == name
        }),
    decreases n,
{
    if n > 0 {
        lemma_fields_placed(c, plan, source, from, work, n - 1);
        let before = fields_mapped(c.fields@, plan, source, from, work, n - 1)->Ok_0;
        let row = fields_mapped(c.fields@, plan, source, from, work, n)->Ok_0;
        let last = c.fields@[n - 1].name@;
        assert(!before.contains_key(last)) by {
            if before.contains_key(last) {
                let i = choose|i: int| 0 <= i < n - 1 && (#[trigger] c.fields@[i]).name@ == last;
                assert(c.fields@[i].name@ != c.fields@[n - 1].name@);
            }
        }
        assert forall|i: int| 0 <= i < n implies {
            let name = (#[trigger] c.fields@[i]).name@;
            &&& row.contains_key(name) <==> source.contains_key(source_name(plan, name))
            &&& row.contains_key(name) && plan.fields.contains_key(name) ==> mapped_value(
                plan.fields[name],
                source[plan.fields[name].from],
                work[i],
            ) == Ok::<ValueView, RejectionView>(row[name])
            &&& row.contains_key(name) && !plan.fields.contains_key(name) ==> row[name] == source[name]
        } by {
            if i < n - 1 {
                assert(c.fields@[i].name@ != c.fields@[n - 1].name@);
            }
        }
        assert forall|name: Seq<char>| #[trigger] row.contains_key(name) implies exists|i: int|
            0 <= i < n && (#[trigger] c.fields@[i]).name@ == name by {
            if name != last {
                assert(before.contains_key(name));
                let i = choose|i: int| 0 <= i < n - 1 && (#[trigger] c.fields@[i]).name@ == name;
                assert(c.fields@[i].name@ == name);
            } else {
                assert(c.fields@[n - 1].name@ == name);
            }
        }
    }
}

proof fn lemma_structs_placed(structs: Seq<CompiledStruct>, source: FieldsView, row: FieldsView, n: int)
    requires
        0 <= n <= structs.len(),
    ensures
        ({
            let after = structs_carried(structs, source, row, n);
            &&& forall|name: Seq<char>|
                (forall|i: int| 0 <= i < n ==> (#[trigger] structs[i]).name@ != name) ==> {
                    &&& (#[trigger] after.contains_key(name) <==> row.contains_key(name))
                    &&& after[name] == row[name] || !row.contains_key(name)
                }
            &&& forall|i: int|
                0 <= i < n && source.contains_key((#[trigger] structs[i]).name@) ==> after.contains_key(
                    structs[i].name@,
                ) && after[structs[i].name@] == source[structs[i].name@]
            &&& forall|i: int|
                0 <= i < n && !source.contains_key((#[trigger] structs[i]).name@) ==> (after.contains_key(
                    structs[i].name@,
                ) <==> row.contains_key(structs[i].name@))
        }),
    decreases n,
{
    if n > 0 {
        lemma_structs_placed(structs, source, row, n - 1);
        let before = structs_carried(structs, source, row, n - 1);
        let after = structs_carried(structs, source, row, n);
        let last = structs[n - 1].name@;
        assert forall|name: Seq<char>| (forall|i: int| 0 <= i < n ==> (#[trigger] structs[i]).name@ != name) implies {
            &&& (#[trigger] after.contains_key(name) <==> row.contains_key(name))
            &&& after[name] == row[name] || !row.contains_key(name)
        } by {
            assert(structs[n - 1].name@ != name);
            assert(before.contains_key(name) <==> row.contains_key(name));
        }
        assert forall|i: int| 0 <= i < n && !source.contains_key((#[trigger] structs[i]).name@) implies (
        after.contains_key(structs[i].name@) <==> row.contains_key(structs[i].name@)) by {
            if i == n - 1 {
                if exists|j: int| 0 <= j < n - 1 && (#[trigger] structs[j]).name@ == last {
                    let j = choose|j: int| 0 <= j < n - 1 && (#[trigger] structs[j]).name@ == last;
                    assert(!source.contains_key(structs[j].name@));
                } else {
                    assert(before.contains_key(last) <==> row.contains_key(last));
                }
            }
        }
    }
}

/// A target row that was mapped has a value for a field where the source row has one
/// for it, and it is what the field's mapping gives, or the source's own value without
/// a mapping. Static structs come over by name, and nothing undeclared comes over.
pub proof fn law_row_mapped(
    c: CompiledCollection,
    plan: CollectionPlan,
    source: FieldsView,
    from: Option<CompiledCollection>,
    work: Seq<Transformed>,
)
    requires
        names_apart(c),
        mapped_row(c, plan, source, from, work) is Ok,
    ensures
        ({
            let row = mapped_row(c, plan, source, from, work)->Ok_0;
            &&& forall|i: int|
                0 <= i < c.fields@.len() ==> {
                    let name = (#[trigger] c.fields@[i]).name@;
                    &&& row.contains_key(name) <==> source.contains_key(source_name(plan, name))
                    &&& row.contains_key(name) && plan.fields.contains_key(name) ==> mapped_value(
                        plan.fields[name],
                        source[plan.fields[name].from],
                        work[i],
                    ) == Ok::<ValueView, RejectionView>(row[name])
                    &&& row.contains_key(name) && !plan.fields.contains_key(name) ==> row[name] == source[name]
                }
            &&& forall|i: int|
                0 <= i < c.structs@.len() ==> {
                    let name = (#[trigger] c.structs@[i]).name@;
                    &&& row.contains_key(name) <==> source.contains_key(name)
                    &&& row.contains_key(name) ==> row[name] == source[name]
                }
            &&& forall|name: Seq<char>| #[trigger] row.contains_key(name) ==> declared(c, name)
        }),
{
    let n = c.fields@.len() as int;
    let mid = fields_mapped(c.fields@, plan, source, from, work, n)->Ok_0;
    lemma_fields_placed(c, plan, source, from, work, n);
    lemma_structs_placed(c.structs@, source, mid, c.structs@.len() as int);
    let row = mapped_row(c, plan, source, from, work)->Ok_0;
    assert forall|i: int| 0 <= i < c.fields@.len() implies {
        let name = (#[trigger] c.fields@[i]).name@;
        &&& row.contains_key(name) <==> source.contains_key(source_name(plan, name))
        &&& row.contains_key(name) && plan.fields.contains_key(name) ==> mapped_value(
            plan.fields[name],
            source[plan.fields[name].from],
            work[i],
        ) == Ok::<ValueView, RejectionView>(row[name])
        &&& row.contains_key(name) && !plan.fields.contains_key(name) ==> row[name] == source[name]
    } by {
        let name = c.fields@[i].name@;
        assert forall|j: int| 0 <= j < c.structs@.len() implies (#[trigger] c.structs@[j]).name@ != name by {}
        assert(row.contains_key(name) <==> mid.contains_key(name));
    }
    assert forall|i: int| 0 <= i < c.structs@.len() implies {
        let name = (#[trigger] c.structs@[i]).name@;
        &&& row.contains_key(name) <==> source.contains_key(name)
        &&& row.contains_key(name) ==> row[name] == source[name]
    } by {
        let name = c.structs@[i].name@;
        if mid.contains_key(name) {
            let j = choose|j: int| 0 <= j < n && (#[trigger] c.fields@[j]).name@ == name;
            assert(c.fields@[j].name@ != c.structs@[i].name@);
        }
    }
    assert forall|name: Seq<char>| #[trigger] row.contains_key(name) implies declared(c, name) by {
        if exists|i: int| 0 <= i < c.structs@.len() && (#[trigger] c.structs@[i]).name@ == name {
        } else {
            assert(row.contains_key(name) <==> mid.contains_key(name));
            let i = choose|i: int| 0 <= i < n && (#[trigger] c.fields@[i]).name@ == name;
            assert(c.fields@[i].name@ == name);
        }
    }
}

/// Whether the mapping of a field can be followed: it names a field of the source
/// collection, and what it gives is a value.
pub open spec fn mappable(
    field: CompiledField,
    plan: CollectionPlan,
    source: FieldsView,
    from: Option<CompiledCollection>,
    work: Transformed,
) -> bool {
    plan.fields.contains_key(field.name@) ==> {
        let mapping = plan.fields[field.name@];
        &&& from matches Some(c) ==> exists|i: int| 0 <= i < c.fields@.len() && (#[trigger] c.fields@[i]).name@ == mapping.from
        &&& source.contains_key(mapping.from) ==> mapped_value(mapping, source[mapping.from], work) is Ok
    }
}

proof fn lemma_field_named(fields: Seq<CompiledField>, name: Seq<char>)
    ensures
        field_named(fields, name) is Some <==> exists|i: int| 0 <= i < fields.len() && (#[trigger] fields[i]).name@ == name,
    decreases fields.len(),
{
    if fields.len() > 0 {
        let rest = fields.drop_first();
        lemma_field_named(rest, name);
        if exists|i: int| 0 <= i < fields.len() && (#[trigger] fields[i]).name@ == name {
            let i = choose|i: int| 0 <= i < fields.len() && (#[trigger] fields[i]).name@ == name;
            if i > 0 {
                assert(rest[i - 1].name@ == name);
            }
        }
        if exists|i: int| 0 <= i < rest.len() && (#[trigger] rest[i]).name@ == name {
            let i = choose|i: int| 0 <= i < rest.len() && (#[trigger] rest[i]).name@ == name;
            assert(fields[i + 1].name@ == name);
        }
        if fields[0].name@ == name {
        }
    }
}

proof fn lemma_fields_accepted(
    fields: Seq<CompiledField>,
    plan: CollectionPlan,
    source: FieldsView,
    from: Option<CompiledCollection>,
    work: Seq<Transformed>,
    n: int,
)
    requires
        0 <= n <= fields.len(),
    ensures
        fields_mapped(fields, plan, source, from, work, n) is Ok <==> forall|i: int|
            0 <= i < n ==> mappable(#[trigger] fields[i], plan, source, from, work[i]),
    decreases n,
{
    if n > 0 {
        lemma_fields_accepted(fields, plan, source, from, work, n - 1);
        let name = fields[n - 1].name@;
        if from is Some && plan.fields.contains_key(name) {
            lemma_field_named(from->0.fields@, plan.fields[name].from);
        }
        if fields_mapped(fields, plan, source, from, work, n) is Ok {
            assert forall|i: int| 0 <= i < n implies mappable(#[trigger] fields[i], plan, source, from, work[i]) by {}
        } else if forall|i: int| 0 <= i < n ==> mappable(#[trigger] fields[i], plan, source, from, work[i]) {
            assert(mappable(fields[n - 1], plan, source, from, work[n - 1]));
        }
    }
}

/// A row is mapped if and only if every mapping of it can be followed.
pub proof fn law_row_accepted(
    c: CompiledCollection,
    plan: CollectionPlan,
    source: FieldsView,
    from: Option<CompiledCollection>,
    work: Seq<Transformed>,
)
    ensures
        mapped_row(c, plan, source, from, work) is Ok <==> forall|i: int|
            0 <= i < c.fields@.len() ==> mappable(#[trigger] c.fields@[i], plan, source, from, work[i]),
{
    lemma_fields_accepted(c.fields@, plan, source, from, work, c.fields@.len() as int);
}

} // verus!
