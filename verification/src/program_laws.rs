//! What the statements of a mutation program keep to: which row an insertion adds and
//! where, what a batch comes to, what a changed key moves, and what a deletion takes.

use crate::address::{below, law_reroot, names_of, rerooted, StepView};
use crate::cell::CellView;
use crate::deletion::{
    address_of, all_normalized, first_occurrences, held_rows, nested_removed, patched, thinned, thinned_field,
};
use crate::execution::{
    assigned_value, keys_selected, patch_executed, rows_keyed, rows_patched, scalar_of, singleton_set, Fit,
    PatchPlanView,
};
use crate::inbound::{
    affected_at, field_rewritten, followed, lemma_unaffected, move_of, referrers, refs_moved, row_rewritten, Move,
};
use crate::interp::{
    batch_inserted, first_repeated, held_by, lemma_row_stays, none_held, replaced, rows_supplied, scalars, staged,
    staged_addresses, with_rows, without_subtree, SourceUse,
};
use crate::members::canonical;
use crate::model::{at_path, field_named, name_view, named, Compiled, CompiledCollection, CompiledField};
use crate::program::{
    first_held, keyed_address, marked, marked_all, moved, placed, subtree_moved, ProgramView, TargetView,
};
use crate::refs::{carried, components_of, member_named, normalized};
use crate::rejection::{Rejection, RejectionReason, RejectionView};
use crate::state::{descendants, FieldsView, StateView};
use crate::statements::{field_set, row_inserted};
use crate::table::{lemma_sorted_exists, sorted};
use crate::target::{key_selected, located, selected, LocView, Place};
use crate::text::texts;
use crate::value::{views, Value, ValueView};
use crate::address::RowAddress;
use vstd::prelude::*;

verus! {

/// The collection of a name is the first of it, and there is none only if no
/// collection has the name.
pub proof fn law_named(collections: Seq<CompiledCollection>, name: Seq<char>)
    ensures
        named(collections, name) is None <==> forall|i: int|
            0 <= i < collections.len() ==> (#[trigger] collections[i]).name@ != name,
        forall|i: int|
            0 <= i < collections.len() && (#[trigger] collections[i]).name@ == name && (forall|j: int|
                0 <= j < i ==> (#[trigger] collections[j]).name@ != name) ==> named(collections, name) == Some(
                collections[i],
            ),
    decreases collections.len(),
{
    if collections.len() > 0 {
        let rest = collections.drop_first();
        law_named(rest, name);
        if collections[0].name@ == name {
            assert(named(collections, name) == Some(collections[0]));
        } else {
            if forall|i: int| 0 <= i < collections.len() ==> (#[trigger] collections[i]).name@ != name {
                assert forall|i: int| 0 <= i < rest.len() implies (#[trigger] rest[i]).name@ != name by {
                    assert(rest[i] == collections[i + 1]);
                }
            }
            if named(collections, name) is None {
                assert forall|i: int| 0 <= i < collections.len() implies (#[trigger] collections[i]).name@ != name by {
                    if i > 0 {
                        assert(rest[i - 1] == collections[i]);
                    }
                }
            }
            assert forall|i: int|
                0 <= i < collections.len() && (#[trigger] collections[i]).name@ == name && (forall|j: int|
                    0 <= j < i ==> (#[trigger] collections[j]).name@ != name) implies named(collections, name) == Some(
                collections[i],
            ) by {
                assert(rest[i - 1] == collections[i]);
                assert forall|j: int| 0 <= j < i - 1 implies (#[trigger] rest[j]).name@ != name by {
                    assert(rest[j] == collections[j + 1]);
                }
            }
        }
    }
}

/// The field of a name is the first of it, and there is none only if no field has the
/// name.
pub proof fn law_field_named(fields: Seq<CompiledField>, name: Seq<char>)
    ensures
        field_named(fields, name) is None <==> forall|i: int|
            0 <= i < fields.len() ==> (#[trigger] fields[i]).name@ != name,
        forall|i: int|
            0 <= i < fields.len() && (#[trigger] fields[i]).name@ == name && (forall|j: int|
                0 <= j < i ==> (#[trigger] fields[j]).name@ != name) ==> field_named(fields, name) == Some(fields[i]),
    decreases fields.len(),
{
    if fields.len() > 0 {
        let rest = fields.drop_first();
        law_field_named(rest, name);
        if fields[0].name@ == name {
            assert(field_named(fields, name) == Some(fields[0]));
        } else {
            if forall|i: int| 0 <= i < fields.len() ==> (#[trigger] fields[i]).name@ != name {
                assert forall|i: int| 0 <= i < rest.len() implies (#[trigger] rest[i]).name@ != name by {
                    assert(rest[i] == fields[i + 1]);
                }
            }
            if field_named(fields, name) is None {
                assert forall|i: int| 0 <= i < fields.len() implies (#[trigger] fields[i]).name@ != name by {
                    if i > 0 {
                        assert(rest[i - 1] == fields[i]);
                    }
                }
            }
            assert forall|i: int|
                0 <= i < fields.len() && (#[trigger] fields[i]).name@ == name && (forall|j: int|
                    0 <= j < i ==> (#[trigger] fields[j]).name@ != name) implies field_named(fields, name) == Some(
                fields[i],
            ) by {
                assert(rest[i - 1] == fields[i]);
                assert forall|j: int| 0 <= j < i - 1 implies (#[trigger] rest[j]).name@ != name by {
                    assert(rest[j] == fields[j + 1]);
                }
            }
        }
    }
}

/// The member of a name is the first of it, and there is none only if no member has
/// the name.
pub proof fn law_member_named(members: Seq<(Seq<char>, ValueView)>, name: Seq<char>)
    ensures
        member_named(members, name) is None <==> forall|i: int|
            0 <= i < members.len() ==> (#[trigger] members[i]).0 != name,
        forall|i: int|
            0 <= i < members.len() && (#[trigger] members[i]).0 == name && (forall|j: int|
                0 <= j < i ==> (#[trigger] members[j]).0 != name) ==> member_named(members, name) == Some(members[i].1),
    decreases members.len(),
{
    if members.len() > 0 {
        let rest = members.drop_first();
        law_member_named(rest, name);
        if members[0].0 == name {
            assert(member_named(members, name) == Some(members[0].1));
        } else {
            if forall|i: int| 0 <= i < members.len() ==> (#[trigger] members[i]).0 != name {
                assert forall|i: int| 0 <= i < rest.len() implies (#[trigger] rest[i]).0 != name by {
                    assert(rest[i] == members[i + 1]);
                }
            }
            if member_named(members, name) is None {
                assert forall|i: int| 0 <= i < members.len() implies (#[trigger] members[i]).0 != name by {
                    if i > 0 {
                        assert(rest[i - 1] == members[i]);
                    }
                }
            }
            assert forall|i: int|
                0 <= i < members.len() && (#[trigger] members[i]).0 == name && (forall|j: int|
                    0 <= j < i ==> (#[trigger] members[j]).0 != name) implies member_named(members, name) == Some(
                members[i].1,
            ) by {
                assert(rest[i - 1] == members[i]);
                assert forall|j: int| 0 <= j < i - 1 implies (#[trigger] rest[j]).0 != name by {
                    assert(rest[j] == members[j + 1]);
                }
            }
        }
    }
}

/// A path leads to a top-level collection by its one name, and to a nested one by the
/// path of the collection it is nested in and its own name.
pub proof fn law_path(collections: Seq<CompiledCollection>, path: Seq<Seq<char>>, name: Seq<char>)
    ensures
        at_path(collections, Seq::empty()) is None,
        at_path(collections, seq![name]) == named(collections, name),
        path.len() > 0 ==> at_path(collections, path.push(name)) == (match at_path(collections, path) {
            Some(c) => named(c.children@, name),
            None => None,
        }),
    decreases path.len(),
{
    reveal_with_fuel(at_path, 2);
    assert(seq![name].drop_first() =~= Seq::<Seq<char>>::empty());
    if path.len() > 0 {
        let longer = path.push(name);
        assert(longer.drop_first() =~= path.drop_first().push(name));
        assert(longer[0] == path[0]);
        if let Some(c) = named(collections, path[0]) {
            if path.len() == 1 {
                assert(longer.drop_first() =~= seq![name]);
                assert(at_path(c.children@, seq![name]) == named(c.children@, name)) by {
                    assert(seq![name].drop_first() =~= Seq::<Seq<char>>::empty());
                }
            } else {
                law_path(c.children@, path.drop_first(), name);
            }
        }
    }
}

/// A row is addressed in its collection by the values of the key fields, in their
/// order; it has to have all of them, and the collection has to be declared.
pub proof fn law_keyed_address(
    compiled: Compiled,
    at: (Seq<StepView>, Seq<char>),
    path: Seq<Seq<char>>,
    row: FieldsView,
)
    ensures
        keyed_address(compiled, at, path, row) is Ok <==> (compiled.at(path) matches Some(c) && c.key@.len() > 0
            && forall|i: int| 0 <= i < c.key@.len() ==> row.contains_key((#[trigger] c.key@[i])@)),
        keyed_address(compiled, at, path, row) matches Ok(a) ==> {
            let names = compiled.at(path)->0.key@;
            &&& a.len() == at.0.len() + 1
            &&& a.drop_last() == at.0
            &&& a.last().name == at.1
            &&& a.last().key.len() == names.len()
            &&& forall|i: int| 0 <= i < names.len() ==> #[trigger] a.last().key[i] == row[names[i]@]
        },
{
    if let Some(c) = compiled.at(path) {
        let names = texts(c.key@);
        if forall|i: int| 0 <= i < names.len() ==> row.contains_key(#[trigger] names[i]) {
            assert forall|i: int| 0 <= i < c.key@.len() implies row.contains_key((#[trigger] c.key@[i])@) by {
                assert(row.contains_key(names[i]));
            }
        }
        if forall|i: int| 0 <= i < c.key@.len() ==> row.contains_key((#[trigger] c.key@[i])@) {
            assert forall|i: int| 0 <= i < names.len() implies row.contains_key(#[trigger] names[i]) by {
                assert(row.contains_key(c.key@[i]@));
            }
        }
        if let Ok(a) = keyed_address(compiled, at, path, row) {
            assert(a.drop_last() =~= at.0);
        }
    }
}

/// An accepted insertion adds its row at the address its key gives it, where there was
/// none, and changes no other row. It lists the row as touched.
pub proof fn law_row_inserted(
    compiled: Compiled,
    p: ProgramView,
    at: (Seq<StepView>, Seq<char>),
    path: Seq<Seq<char>>,
    resolved: Result<FieldsView, RejectionView>,
    other: Seq<StepView>,
)
    requires
        row_inserted(compiled, p, at, path, resolved) is Ok,
    ensures
        ({
            let (after, address) = row_inserted(compiled, p, at, path, resolved)->Ok_0;
            &&& resolved is Ok
            &&& keyed_address(compiled, at, path, resolved->Ok_0) == Ok::<Seq<StepView>, RejectionView>(address)
            &&& !p.state.contains_key(address)
            &&& after.state.contains_key(address)
            &&& after.state[address] == resolved->Ok_0
            &&& other != address ==> (after.state.contains_key(other) <==> p.state.contains_key(other))
            &&& other != address && p.state.contains_key(other) ==> after.state[other] == p.state[other]
            &&& after.touched.contains(address)
            &&& p.touched.contains(other) ==> after.touched.contains(other)
            &&& after.receiver == p.receiver
            &&& after.drawn == p.drawn + 1
        }),
{
    let (after, address) = row_inserted(compiled, p, at, path, resolved)->Ok_0;
    law_marked(p.touched, address, other);
    law_marked(p.touched, address, address);
}

/// An insertion is refused if and only if its collection is undeclared, its row does
/// not resolve or lacks its key, or its key is taken.
pub proof fn law_insertion_refused(
    compiled: Compiled,
    p: ProgramView,
    at: (Seq<StepView>, Seq<char>),
    path: Seq<Seq<char>>,
    resolved: Result<FieldsView, RejectionView>,
)
    ensures
        row_inserted(compiled, p, at, path, resolved) is Err <==> compiled.at(path) is None || resolved is Err
            || keyed_address(compiled, at, path, resolved->Ok_0) is Err || p.state.contains_key(
            keyed_address(compiled, at, path, resolved->Ok_0)->Ok_0,
        ),
        row_inserted(compiled, p, at, path, resolved) matches Err(e) ==> (compiled.at(path) is Some && resolved is Ok
            && keyed_address(compiled, at, path, resolved->Ok_0) is Ok ==> e.reason == RejectionReason::DuplicateKey
            && e.at == Some(keyed_address(compiled, at, path, resolved->Ok_0)->Ok_0)),
{
}

/// A row that was listed as touched is listed, once, and those listed before still are.
pub proof fn law_marked(touched: Seq<Seq<StepView>>, address: Seq<StepView>, other: Seq<StepView>)
    ensures
        marked(touched, address).contains(other) <==> touched.contains(other) || other == address,
        touched.no_duplicates() ==> marked(touched, address).no_duplicates(),
{
    let after = marked(touched, address);
    if !touched.contains(address) {
        assert(after[touched.len() as int] == address);
        if touched.contains(other) {
            let i = choose|i: int| 0 <= i < touched.len() && touched[i] == other;
            assert(after[i] == other);
        }
        if after.contains(other) && other != address {
            let i = choose|i: int| 0 <= i < after.len() && after[i] == other;
            assert(touched[i] == other);
        }
        if touched.no_duplicates() {
            assert forall|i: int, j: int| 0 <= i < after.len() && 0 <= j < after.len() && i != j implies after[i]
                != after[j] by {
                if i < touched.len() && j < touched.len() {
                } else if i < touched.len() {
                    assert(touched.contains(touched[i]));
                } else {
                    assert(touched.contains(touched[j]));
                }
            }
        }
    }
}

/// Rows that were listed as touched are listed, and no others than they and those
/// listed before.
pub proof fn law_marked_all(touched: Seq<Seq<StepView>>, addresses: Seq<Seq<StepView>>, other: Seq<StepView>)
    ensures
        marked_all(touched, addresses).contains(other) <==> touched.contains(other) || addresses.contains(other),
        touched.no_duplicates() ==> marked_all(touched, addresses).no_duplicates(),
    decreases addresses.len(),
{
    if addresses.len() > 0 {
        let rest = addresses.drop_last();
        law_marked_all(touched, rest, other);
        law_marked(marked_all(touched, rest), addresses.last(), other);
        assert(addresses[addresses.len() - 1] == addresses.last());
        if rest.contains(other) {
            let i = choose|i: int| 0 <= i < rest.len() && rest[i] == other;
            assert(addresses[i] == other);
        }
        if addresses.contains(other) && other != addresses.last() {
            let i = choose|i: int| 0 <= i < addresses.len() && addresses[i] == other;
            assert(rest[i] == other);
        }
    }
}

/// A batch is staged row by row: each with its own fields, at the address its key
/// gives it, and in order. It is refused if and only if the collection is undeclared
/// or some row does not resolve or lacks its key.
pub proof fn law_staged(
    compiled: Compiled,
    at: (Seq<StepView>, Seq<char>),
    path: Seq<Seq<char>>,
    resolved: Seq<Result<FieldsView, RejectionView>>,
)
    ensures
        staged(compiled, at, path, resolved) is Ok <==> compiled.at(path) is Some && forall|i: int|
            0 <= i < resolved.len() ==> (#[trigger] resolved[i]) is Ok && keyed_address(
                compiled,
                at,
                path,
                resolved[i]->Ok_0,
            ) is Ok,
        staged(compiled, at, path, resolved) matches Ok(rows) ==> {
            &&& rows.len() == resolved.len()
            &&& forall|i: int|
                0 <= i < rows.len() ==> resolved[i] == Ok::<FieldsView, RejectionView>((#[trigger] rows[i]).1)
                    && keyed_address(compiled, at, path, rows[i].1) == Ok::<Seq<StepView>, RejectionView>(rows[i].0)
        },
    decreases resolved.len(),
{
    if resolved.len() > 0 {
        let rest = resolved.drop_last();
        law_staged(compiled, at, path, rest);
        assert(resolved[resolved.len() - 1] == resolved.last());
        if staged(compiled, at, path, resolved) is Ok {
            assert forall|i: int| 0 <= i < resolved.len() implies (#[trigger] resolved[i]) is Ok && keyed_address(
                compiled,
                at,
                path,
                resolved[i]->Ok_0,
            ) is Ok by {
                if i < rest.len() {
                    assert(rest[i] == resolved[i]);
                }
            }
            let rows = staged(compiled, at, path, resolved)->Ok_0;
            let before = staged(compiled, at, path, rest)->Ok_0;
            assert forall|i: int| 0 <= i < rows.len() implies resolved[i] == Ok::<FieldsView, RejectionView>(
                (#[trigger] rows[i]).1,
            ) && keyed_address(compiled, at, path, rows[i].1) == Ok::<Seq<StepView>, RejectionView>(rows[i].0) by {
                if i < rest.len() {
                    assert(rest[i] == resolved[i]);
                    assert(rows[i] == before[i]);
                }
            }
        } else if compiled.at(path) is Some && forall|i: int|
            0 <= i < resolved.len() ==> (#[trigger] resolved[i]) is Ok && keyed_address(
                compiled,
                at,
                path,
                resolved[i]->Ok_0,
            ) is Ok {
            assert forall|i: int| 0 <= i < rest.len() implies (#[trigger] rest[i]) is Ok && keyed_address(
                compiled,
                at,
                path,
                rest[i]->Ok_0,
            ) is Ok by {
                assert(rest[i] == resolved[i]);
            }
        }
    }
}

proof fn lemma_repeated(addresses: Seq<Seq<StepView>>, taken: spec_fn(Seq<StepView>) -> bool, n: int)
    requires
        0 <= n <= addresses.len(),
    ensures
        first_repeated(addresses, taken, n) is None <==> forall|j: int|
            n <= j < addresses.len() ==> !taken(#[trigger] addresses[j]) && !addresses.take(j).contains(addresses[j]),
        first_repeated(addresses, taken, n) matches Some(a) ==> addresses.contains(a),
    decreases addresses.len() - n,
{
    if n < addresses.len() {
        lemma_repeated(addresses, taken, n + 1);
        if first_repeated(addresses, taken, n) is None {
            assert forall|j: int| n <= j < addresses.len() implies !taken(#[trigger] addresses[j]) && !addresses.take(
                j,
            ).contains(addresses[j]) by {}
        } else if taken(addresses[n]) || addresses.take(n).contains(addresses[n]) {
            assert(addresses.contains(addresses[n]));
        }
    }
}

proof fn lemma_apart(addresses: Seq<Seq<StepView>>)
    ensures
        addresses.no_duplicates() <==> forall|j: int|
            0 <= j < addresses.len() ==> !addresses.take(j).contains(#[trigger] addresses[j]),
{
    if addresses.no_duplicates() {
        assert forall|j: int| 0 <= j < addresses.len() implies !addresses.take(j).contains(#[trigger] addresses[j]) by {
            if addresses.take(j).contains(addresses[j]) {
                let i = choose|i: int| 0 <= i < j && addresses.take(j)[i] == addresses[j];
                assert(addresses[i] == addresses[j]);
            }
        }
    }
    if forall|j: int| 0 <= j < addresses.len() ==> !addresses.take(j).contains(#[trigger] addresses[j]) {
        assert forall|i: int, j: int| 0 <= i < addresses.len() && 0 <= j < addresses.len() && i != j implies addresses[i]
            != addresses[j] by {
            if i < j {
                assert(addresses.take(j)[i] == addresses[i]);
                assert(!addresses.take(j).contains(addresses[j]));
            } else {
                assert(addresses.take(i)[j] == addresses[j]);
                assert(!addresses.take(i).contains(addresses[i]));
            }
        }
    }
}

/// A batch is inserted if and only if it is staged, no two of its rows have one
/// address, and the state has none of them.
pub proof fn law_batch_accepted(
    compiled: Compiled,
    p: ProgramView,
    at: (Seq<StepView>, Seq<char>),
    path: Seq<Seq<char>>,
    resolved: Seq<Result<FieldsView, RejectionView>>,
)
    ensures
        batch_inserted(compiled, p, at, path, resolved) is Ok <==> (staged(compiled, at, path, resolved) matches Ok(rows)
            && staged_addresses(rows).no_duplicates() && forall|i: int|
            0 <= i < rows.len() ==> !p.state.contains_key((#[trigger] rows[i]).0)),
{
    if let Ok(rows) = staged(compiled, at, path, resolved) {
        let addresses = staged_addresses(rows);
        let taken = held_by(p.state);
        lemma_repeated(addresses, taken, 0);
        lemma_apart(addresses);
        if batch_inserted(compiled, p, at, path, resolved) is Ok {
            assert forall|i: int| 0 <= i < rows.len() implies !p.state.contains_key((#[trigger] rows[i]).0) by {
                assert(!taken(addresses[i]));
            }
            assert forall|j: int| 0 <= j < addresses.len() implies !addresses.take(j).contains(
                #[trigger] addresses[j],
            ) by {}
        } else if addresses.no_duplicates() && forall|i: int|
            0 <= i < rows.len() ==> !p.state.contains_key((#[trigger] rows[i]).0) {
            assert forall|j: int| 0 <= j < addresses.len() implies !taken(#[trigger] addresses[j]) && !addresses.take(
                j,
            ).contains(addresses[j]) by {
                assert(!p.state.contains_key(rows[j].0));
            }
        }
    }
}

proof fn lemma_put(state: StateView, rows: Seq<(Seq<StepView>, FieldsView)>, i: int)
    requires
        0 <= i < rows.len(),
        staged_addresses(rows).no_duplicates(),
    ensures
        with_rows(state, rows).contains_key(rows[i].0),
        with_rows(state, rows)[rows[i].0] == rows[i].1,
    decreases rows.len(),
{
    let all = staged_addresses(rows);
    if i < rows.len() - 1 {
        let rest = rows.drop_last();
        let before = staged_addresses(rest);
        assert forall|j: int, k: int| 0 <= j < before.len() && 0 <= k < before.len() && j != k implies before[j]
            != before[k] by {
            assert(all[j] == before[j] && all[k] == before[k]);
        }
        lemma_put(state, rest, i);
        assert(all[i] != all[rows.len() - 1]);
    }
}

/// Every row of an inserted batch is in the state with its own fields, and is listed as
/// touched. Each of them drew a generation.
pub proof fn law_batch_values(
    compiled: Compiled,
    p: ProgramView,
    at: (Seq<StepView>, Seq<char>),
    path: Seq<Seq<char>>,
    resolved: Seq<Result<FieldsView, RejectionView>>,
    i: int,
)
    requires
        batch_inserted(compiled, p, at, path, resolved) is Ok,
        0 <= i < resolved.len(),
    ensures
        ({
            let after = batch_inserted(compiled, p, at, path, resolved)->Ok_0;
            &&& resolved[i] is Ok
            &&& keyed_address(compiled, at, path, resolved[i]->Ok_0) matches Ok(address) && after.state.contains_key(
                address,
            ) && after.state[address] == resolved[i]->Ok_0 && after.touched.contains(address)
            &&& after.drawn == p.drawn + resolved.len()
            &&& after.receiver == p.receiver
        }),
{
    law_staged(compiled, at, path, resolved);
    law_batch_accepted(compiled, p, at, path, resolved);
    let rows = staged(compiled, at, path, resolved)->Ok_0;
    lemma_put(p.state, rows, i);
    assert(resolved[i] == Ok::<FieldsView, RejectionView>(rows[i].1));
    let all = staged_addresses(rows);
    assert(all[i] == rows[i].0);
    law_marked_all(p.touched, all, rows[i].0);
}

/// Every row of a replacement is in the state with its own fields, whether its key was
/// there before or is new; a replacement of two rows with one key is refused.
pub proof fn law_replacement_rows(
    compiled: Compiled,
    p: ProgramView,
    at: (Seq<StepView>, Seq<char>),
    path: Seq<Seq<char>>,
    resolved: Seq<Result<FieldsView, RejectionView>>,
    i: int,
    other: Seq<StepView>,
)
    requires
        replaced(compiled, p, at, path, resolved) is Ok,
        0 <= i < resolved.len(),
    ensures
        ({
            let (after, _) = replaced(compiled, p, at, path, resolved)->Ok_0;
            let rows = staged(compiled, at, path, resolved)->Ok_0;
            &&& resolved[i] is Ok
            &&& staged_addresses(rows).no_duplicates()
            &&& rows[i].1 == resolved[i]->Ok_0
            &&& path.len() <= 1 ==> after.state.contains_key(rows[i].0) && after.state[rows[i].0] == resolved[i]->Ok_0
            &&& after.touched.contains(rows[i].0)
            &&& path.len() <= 1 && p.state.contains_key(other) && !staged_addresses(rows).contains(other)
                ==> after.state.contains_key(other) && after.state[other] == p.state[other]
            &&& after.drawn == p.drawn + resolved.len()
        }),
{
    law_staged(compiled, at, path, resolved);
    let rows = staged(compiled, at, path, resolved)->Ok_0;
    let addresses = staged_addresses(rows);
    lemma_repeated(addresses, none_held(), 0);
    assert forall|j: int| 0 <= j < addresses.len() implies !addresses.take(j).contains(#[trigger] addresses[j]) by {}
    lemma_apart(addresses);
    lemma_put(p.state, rows, i);
    assert(resolved[i] == Ok::<FieldsView, RejectionView>(rows[i].1));
    assert(addresses[i] == rows[i].0);
    law_marked_all(p.touched, addresses, rows[i].0);
    if p.state.contains_key(other) && !addresses.contains(other) {
        crate::interp::lemma_with_rows(p.state, rows, other);
        lemma_row_stays(p.state, rows, other);
    }
}

/// A row that is removed goes with every row below it, and no other row goes.
pub proof fn law_subtree_removed(state: StateView, address: Seq<StepView>, other: Seq<StepView>)
    requires
        state.contains_key(address),
    ensures
        without_subtree(state, address).contains_key(other) <==> state.contains_key(other) && other != address && !below(
            address,
            other,
        ),
        without_subtree(state, address).contains_key(other) ==> without_subtree(state, address)[other] == state[other],
{
}

/// Whether a row with one of these keys is in a nested collection and has this row in
/// its subtree, or is it.
pub open spec fn under_removed(
    state: StateView,
    at: (Seq<StepView>, Seq<char>),
    keys: Seq<ValueView>,
    other: Seq<StepView>,
) -> bool {
    exists|i: int|
        0 <= i < keys.len() && {
            let a = at.0.push(StepView { name: at.1, key: components_of(#[trigger] keys[i]) });
            state.contains_key(a) && (other == a || below(a, other))
        }
}

/// Deleting keys from a nested collection takes the rows that have them, each with its
/// subtree, and leaves every other row as it was.
pub proof fn law_nested_removed(
    state: StateView,
    at: (Seq<StepView>, Seq<char>),
    keys: Seq<ValueView>,
    other: Seq<StepView>,
)
    ensures
        nested_removed(state, at, keys).contains_key(other) <==> state.contains_key(other) && !under_removed(
            state,
            at,
            keys,
            other,
        ),
        nested_removed(state, at, keys).contains_key(other) ==> nested_removed(state, at, keys)[other] == state[other],
    decreases keys.len(),
{
    if keys.len() > 0 {
        let rest = keys.drop_last();
        law_nested_removed(state, at, rest, other);
        let last = at.0.push(StepView { name: at.1, key: components_of(keys.last()) });
        law_nested_removed(state, at, rest, last);
        assert(keys[keys.len() - 1] == keys.last());
        let before = nested_removed(state, at, rest);
        if under_removed(state, at, rest, other) {
            let i = choose|i: int|
                0 <= i < rest.len() && {
                    let a = at.0.push(StepView { name: at.1, key: components_of(#[trigger] rest[i]) });
                    state.contains_key(a) && (other == a || below(a, other))
                };
            assert(rest[i] == keys[i]);
        }
        if under_removed(state, at, keys, other) {
            let i = choose|i: int|
                0 <= i < keys.len() && {
                    let a = at.0.push(StepView { name: at.1, key: components_of(#[trigger] keys[i]) });
                    state.contains_key(a) && (other == a || below(a, other))
                };
            if i < rest.len() {
                assert(rest[i] == keys[i]);
            }
        }
        if under_removed(state, at, rest, last) {
            let i = choose|i: int|
                0 <= i < rest.len() && {
                    let a = at.0.push(StepView { name: at.1, key: components_of(#[trigger] rest[i]) });
                    state.contains_key(a) && (last == a || below(a, last))
                };
            let a = at.0.push(StepView { name: at.1, key: components_of(rest[i]) });
            assert(a.len() == last.len());
            assert(a == last);
        }
    }
}

/// A row whose key stays is put in place: it has the new fields, every other row is as
/// it was, and it is listed as touched.
pub proof fn law_placed_in_place(
    compiled: Compiled,
    p: ProgramView,
    address: Seq<StepView>,
    path: Seq<Seq<char>>,
    row: FieldsView,
    other: Seq<StepView>,
)
    requires
        keyed_address(compiled, (address.drop_last(), address.last().name), path, row) == Ok::<
            Seq<StepView>,
            RejectionView,
        >(address),
    ensures
        placed(compiled, p, address, path, row) matches Ok(after) && {
            &&& after.state.contains_key(address)
            &&& after.state[address] == row
            &&& other != address ==> (after.state.contains_key(other) <==> p.state.contains_key(other))
            &&& other != address && p.state.contains_key(other) ==> after.state[other] == p.state[other]
            &&& after.touched.contains(other) <==> p.touched.contains(other) || other == address
            &&& after.receiver == p.receiver
            &&& after.drawn == p.drawn
            &&& after.extracts == p.extracts
        },
{
    law_marked(p.touched, address, other);
}

proof fn lemma_first_held(addresses: Seq<Seq<StepView>>, state: StateView)
    ensures
        first_held(addresses, state) is None <==> forall|i: int|
            0 <= i < addresses.len() ==> !state.contains_key(#[trigger] addresses[i]),
    decreases addresses.len(),
{
    if addresses.len() > 0 {
        let rest = addresses.drop_first();
        lemma_first_held(rest, state);
        if first_held(addresses, state) is None {
            assert forall|i: int| 0 <= i < addresses.len() implies !state.contains_key(#[trigger] addresses[i]) by {
                if i > 0 {
                    assert(rest[i - 1] == addresses[i]);
                }
            }
        } else if forall|i: int| 0 <= i < addresses.len() ==> !state.contains_key(#[trigger] addresses[i]) {
            assert(!state.contains_key(addresses[0]));
            assert forall|i: int| 0 <= i < rest.len() implies !state.contains_key(#[trigger] rest[i]) by {
                assert(rest[i] == addresses[i + 1]);
            }
        }
    }
}

/// A row whose key changes is refused if and only if its new address is taken, or that
/// of a row below it.
pub proof fn law_rekey_refused(
    compiled: Compiled,
    p: ProgramView,
    address: Seq<StepView>,
    path: Seq<Seq<char>>,
    row: FieldsView,
    new_at: Seq<StepView>,
)
    requires
        p.state.dom().finite(),
        keyed_address(compiled, (address.drop_last(), address.last().name), path, row) == Ok::<
            Seq<StepView>,
            RejectionView,
        >(new_at),
        new_at != address,
    ensures
        placed(compiled, p, address, path, row) is Err <==> p.state.contains_key(new_at) || exists|a: Seq<StepView>|
            #![trigger p.state.contains_key(a)]
            p.state.contains_key(a) && below(address, a) && p.state.contains_key(rerooted(new_at, a, address.len())),
        placed(compiled, p, address, path, row) matches Err(e) ==> e.reason == RejectionReason::DuplicateKey,
{
    let subtree = descendants(p.state, address);
    let there = moved(subtree, new_at, address.len());
    lemma_first_held(there, p.state);
    let set = p.state.dom().filter(|a: Seq<StepView>| below(address, a));
    lemma_sorted_exists::<RowAddress>(set);
    if exists|a: Seq<StepView>|
        #![trigger p.state.contains_key(a)]
        p.state.contains_key(a) && below(address, a) && p.state.contains_key(rerooted(new_at, a, address.len())) {
        let a = choose|a: Seq<StepView>|
            #![trigger p.state.contains_key(a)]
            p.state.contains_key(a) && below(address, a) && p.state.contains_key(rerooted(new_at, a, address.len()));
        assert(set.contains(a));
        assert(subtree.to_set().contains(a));
        let i = choose|i: int| 0 <= i < subtree.len() && subtree[i] == a;
        assert(p.state.contains_key(there[i]));
    }
    if !(forall|i: int| 0 <= i < there.len() ==> !p.state.contains_key(#[trigger] there[i])) {
        let i = choose|i: int| 0 <= i < there.len() && p.state.contains_key(#[trigger] there[i]);
        assert(subtree.to_set().contains(subtree[i]));
        assert(set.contains(subtree[i]));
        assert(p.state.contains_key(subtree[i]));
    }
}

/// A nested row whose key changes has its new fields at its new address, the rows below
/// it keep theirs, and every row elsewhere is as it was. The program goes on from the
/// row where it ran on it, and the new address is listed as touched.
pub proof fn law_rekey_values(
    compiled: Compiled,
    p: ProgramView,
    address: Seq<StepView>,
    path: Seq<Seq<char>>,
    row: FieldsView,
    new_at: Seq<StepView>,
    other: Seq<StepView>,
)
    requires
        address.len() > 1,
        keyed_address(compiled, (address.drop_last(), address.last().name), path, row) == Ok::<
            Seq<StepView>,
            RejectionView,
        >(new_at),
        new_at != address,
        placed(compiled, p, address, path, row) is Ok,
        p.state.dom().finite(),
    ensures
        ({
            let after = placed(compiled, p, address, path, row)->Ok_0;
            &&& after.state.contains_key(new_at)
            &&& after.state[new_at] == row
            &&& p.state.contains_key(other) && below(address, other) ==> after.state.contains_key(
                rerooted(new_at, other, address.len()),
            ) && after.state[rerooted(new_at, other, address.len())] == p.state[other]
            &&& p.state.contains_key(other) && other != address && !below(address, other) ==> after.state.contains_key(
                other,
            ) && after.state[other] == p.state[other]
            &&& after.touched.contains(new_at)
            &&& p.touched.contains(other) ==> after.touched.contains(other)
            &&& p.receiver matches Some(t) ==> (t.address == address ==> after.receiver == Some(
                TargetView { address: new_at, path: t.path },
            ))
            &&& p.receiver matches Some(t) ==> (t.address != address ==> after.receiver == p.receiver)
            &&& p.receiver is None ==> after.receiver is None
        }),
{
    law_rekey_refused(compiled, p, address, path, row, new_at);
    let after = placed(compiled, p, address, path, row)->Ok_0;
    let subtree = descendants(p.state, address);
    let there = moved(subtree, new_at, address.len());
    assert(new_at.len() == address.len());
    law_marked_all(p.touched, there, other);
    law_marked(marked_all(p.touched, there), new_at, other);
    law_marked(marked_all(p.touched, there), new_at, new_at);
    let state = subtree_moved(p.state, address, new_at, row);
    if p.state.contains_key(other) && below(address, other) {
        law_reroot(address, new_at, other);
        let to = rerooted(new_at, other, address.len());
        assert(below(new_at, to));
        assert(rerooted(address, to, new_at.len()) =~= other);
        assert(state.dom().contains(to));
        assert(to != new_at);
    }
    if p.state.contains_key(other) && other != address && !below(address, other) {
        assert(state.dom().contains(other));
        assert(other != new_at);
        if below(new_at, other) && p.state.contains_key(rerooted(address, other, new_at.len())) {
            let from = rerooted(address, other, new_at.len());
            assert(below(address, from)) by {
                law_reroot(new_at, address, other);
            }
            assert(rerooted(new_at, from, address.len()) =~= other);
            assert(p.state.contains_key(from));
        }
    }
}

/// A value that references a moved row, by a reference or by its bare identity, comes
/// to reference it under its new identity in the same form. Any other value stays.
pub proof fn law_followed(value: ValueView, m: Move)
    ensures
        followed(ValueView::Ref(Box::new(m.before)), m) == ValueView::Ref(Box::new(m.after)) || m.before is Struct,
        !(m.before is Ref) ==> followed(m.before, m) == m.after,
        !(value is Ref) && value != m.before ==> followed(value, m) == value,
        value matches ValueView::Ref(k) ==> (carried(m.names, *k) != m.before && value != m.before ==> followed(value, m)
            == value),
{
}

/// Fields that reference another collection, and those that hold no reference, keep
/// their values when a row moves.
pub proof fn law_other_fields_stay(fields: Seq<CompiledField>, row: FieldsView, m: Move, name: Seq<char>)
    requires
        forall|i: int|
            0 <= i < fields.len() && (#[trigger] fields[i]).name@ == name ==> name_view(fields[i].reference) != Some(
                m.target,
            ) && name_view(fields[i].element_reference) != Some(m.target),
    ensures
        row_rewritten(fields, row, m).contains_key(name) <==> row.contains_key(name),
        row.contains_key(name) ==> row_rewritten(fields, row, m)[name] == row[name],
        row_rewritten(fields, row, m).dom() == row.dom(),
    decreases fields.len(),
{
    if fields.len() > 0 {
        let rest = fields.drop_first();
        assert forall|i: int| 0 <= i < rest.len() && (#[trigger] rest[i]).name@ == name implies name_view(
            rest[i].reference,
        ) != Some(m.target) && name_view(rest[i].element_reference) != Some(m.target) by {
            assert(rest[i] == fields[i + 1]);
        }
        law_other_fields_stay(rest, field_rewritten(fields[0], row, m), m, name);
        assert(field_rewritten(fields[0], row, m).dom() =~= row.dom());
    }
}

/// The rows listed as referring to a moved row are those that the move changes: a row
/// that is not listed stays as it is.
pub proof fn law_referrers(
    compiled: Compiled,
    state: StateView,
    target: Seq<char>,
    old_key: Seq<ValueView>,
    new_key: Seq<ValueView>,
    at: Seq<StepView>,
)
    requires
        state.dom().finite(),
        state.contains_key(at),
        !referrers(compiled, state, target, old_key, new_key).contains(at),
    ensures
        refs_moved(compiled, state, target, old_key, new_key)[at] == state[at],
{
    if let Some(c) = compiled.top(target) {
        let m = move_of(texts(c.key@), target, old_key, new_key);
        let set = state.dom().filter(|a: Seq<StepView>| affected_at(compiled, a, state[a], m));
        lemma_sorted_exists::<RowAddress>(set);
        if affected_at(compiled, at, state[at], m) {
            assert(set.contains(at));
            assert(sorted::<RowAddress>(set).to_set().contains(at));
        }
        if let Some(d) = compiled.at(names_of(at)) {
            lemma_unaffected(d.fields@, state[at], m);
        }
    }
}

/// A field that alone is declared to reference the moved row's collection, and does
/// reference that row, comes to reference it under its new identity.
pub proof fn law_reference_redirected(fields: Seq<CompiledField>, row: FieldsView, m: Move, k: int)
    requires
        0 <= k < fields.len(),
        forall|i: int, j: int| 0 <= i < j < fields.len() ==> (#[trigger] fields[i]).name@ != (#[trigger] fields[j]).name@,
        name_view(fields[k].reference) == Some(m.target),
        name_view(fields[k].element_reference) != Some(m.target),
        row.contains_key(fields[k].name@),
    ensures
        row_rewritten(fields, row, m)[fields[k].name@] == followed(row[fields[k].name@], m),
    decreases fields.len(),
{
    let rest = fields.drop_first();
    let one = field_rewritten(fields[0], row, m);
    assert forall|i: int, j: int| 0 <= i < j < rest.len() implies (#[trigger] rest[i]).name@ != (
    #[trigger] rest[j]).name@ by {
        assert(rest[i] == fields[i + 1] && rest[j] == fields[j + 1]);
    }
    if k == 0 {
        assert forall|i: int| 0 <= i < rest.len() && (#[trigger] rest[i]).name@ == fields[0].name@ implies name_view(
            rest[i].reference,
        ) != Some(m.target) && name_view(rest[i].element_reference) != Some(m.target) by {
            assert(rest[i] == fields[i + 1]);
        }
        law_other_fields_stay(rest, one, m, fields[0].name@);
    } else {
        assert(rest[k - 1] == fields[k]);
        assert(fields[0].name@ != fields[k].name@);
        law_reference_redirected(rest, one, m, k - 1);
    }
}

/// Patch statements write what they name: the last value given for a name counts, and
/// a field no update names keeps its value.
pub proof fn law_patched(row: FieldsView, patch: Seq<(String, Value)>, name: Seq<char>)
    ensures
        (forall|i: int| 0 <= i < patch.len() ==> (#[trigger] patch[i]).0@ != name) ==> (patched(row, patch).contains_key(
            name,
        ) <==> row.contains_key(name)) && (row.contains_key(name) ==> patched(row, patch)[name] == row[name]),
        forall|i: int|
            0 <= i < patch.len() && (#[trigger] patch[i]).0@ == name && (forall|j: int|
                i < j < patch.len() ==> (#[trigger] patch[j]).0@ != name) ==> patched(row, patch).contains_key(name)
                && patched(row, patch)[name] == patch[i].1@,
    decreases patch.len(),
{
    if patch.len() > 0 {
        let rest = patch.drop_last();
        law_patched(row, rest, name);
        assert(patch[patch.len() - 1] == patch.last());
        if forall|i: int| 0 <= i < patch.len() ==> (#[trigger] patch[i]).0@ != name {
            assert(patch[patch.len() - 1].0@ != name);
            assert forall|i: int| 0 <= i < rest.len() implies (#[trigger] rest[i]).0@ != name by {
                assert(rest[i] == patch[i]);
            }
        }
        assert forall|i: int|
            0 <= i < patch.len() && (#[trigger] patch[i]).0@ == name && (forall|j: int|
                i < j < patch.len() ==> (#[trigger] patch[j]).0@ != name) implies patched(row, patch).contains_key(name)
            && patched(row, patch)[name] == patch[i].1@ by {
            if i < rest.len() {
                assert(patch[patch.len() - 1].0@ != name);
                assert(rest[i] == patch[i]);
                assert forall|j: int| i < j < rest.len() implies (#[trigger] rest[j]).0@ != name by {
                    assert(rest[j] == patch[j]);
                }
            }
        }
    }
}

/// A set-valued field loses exactly the members taken from it, and no other field
/// changes.
pub proof fn law_thinned_field(row: FieldsView, field: Seq<char>, members: Seq<ValueView>, other: Seq<char>, v: ValueView)
    ensures
        thinned_field(row, field, members).dom() == row.dom(),
        other != field && row.contains_key(other) ==> thinned_field(row, field, members)[other] == row[other],
        row.contains_key(field) && !(row[field] is Members) ==> thinned_field(row, field, members)[field] == row[field],
        row.contains_key(field) && row[field] is Members ==> (thinned_field(
            row,
            field,
            members,
        )[field] matches ValueView::Members(left) && (left.contains(v) <==> row[field]->Members_0.contains(v)
            && !members.contains(v))),
{
    assert(thinned_field(row, field, members).dom() =~= row.dom());
    if row.contains_key(field) && row[field] is Members {
        let held = row[field]->Members_0;
        let set = held.to_set().difference(members.to_set());
        vstd::seq_lib::seq_to_set_is_finite(held);
        assert(set.finite());
        lemma_sorted_exists::<Value>(set);
        assert(canonical(set).to_set().contains(v) <==> set.contains(v));
    }
}

/// Taking members from several fields takes each of them from its own field only.
pub proof fn law_thinned(row: FieldsView, removals: Seq<(String, Vec<Value>)>, field: Seq<char>, v: ValueView)
    requires
        row.contains_key(field),
    ensures
        thinned(row, removals).dom() == row.dom(),
        row[field] matches ValueView::Members(held) ==> (thinned(row, removals)[field] matches ValueView::Members(left)
            && (left.contains(v) <==> held.contains(v) && !exists|i: int|
            0 <= i < removals.len() && (#[trigger] removals[i]).0@ == field && views(removals[i].1@).contains(v))),
        !(row[field] is Members) ==> thinned(row, removals)[field] == row[field],
    decreases removals.len(),
{
    if removals.len() > 0 {
        let rest = removals.drop_last();
        law_thinned(row, rest, field, v);
        let last = removals.last();
        assert(removals[removals.len() - 1] == last);
        law_thinned_field(thinned(row, rest), last.0@, views(last.1@), field, v);
        if exists|i: int| 0 <= i < rest.len() && (#[trigger] rest[i]).0@ == field && views(rest[i].1@).contains(v) {
            let i = choose|i: int|
                0 <= i < rest.len() && (#[trigger] rest[i]).0@ == field && views(rest[i].1@).contains(v);
            assert(removals[i] == rest[i]);
        }
        if exists|i: int|
            0 <= i < removals.len() && (#[trigger] removals[i]).0@ == field && views(removals[i].1@).contains(v) {
            let i = choose|i: int|
                0 <= i < removals.len() && (#[trigger] removals[i]).0@ == field && views(removals[i].1@).contains(v);
            if i < rest.len() {
                assert(removals[i] == rest[i]);
            }
        }
    }
}

/// A deletion lists each key once, in the order of their first occurrences, and loses
/// none.
pub proof fn law_first_occurrences(values: Seq<ValueView>, v: ValueView)
    ensures
        first_occurrences(values).contains(v) <==> values.contains(v),
        first_occurrences(values).no_duplicates(),
        first_occurrences(values).len() > 0 <==> values.len() > 0,
        values.len() > 0 ==> first_occurrences(values)[0] == values[0],
    decreases values.len(),
{
    if values.len() > 0 {
        let rest = values.drop_last();
        let before = first_occurrences(rest);
        let after = first_occurrences(values);
        law_first_occurrences(rest, v);
        assert(values[values.len() - 1] == values.last());
        if rest.contains(v) {
            let i = choose|i: int| 0 <= i < rest.len() && rest[i] == v;
            assert(values[i] == v);
        }
        if values.contains(v) && v != values.last() {
            let i = choose|i: int| 0 <= i < values.len() && values[i] == v;
            assert(rest[i] == v);
        }
        if !before.contains(values.last()) {
            assert(after == before.push(values.last()));
            assert(after[before.len() as int] == values.last());
            if before.contains(v) {
                let i = choose|i: int| 0 <= i < before.len() && before[i] == v;
                assert(after[i] == v);
            }
            if after.contains(v) && v != values.last() {
                let i = choose|i: int| 0 <= i < after.len() && after[i] == v;
                assert(before[i] == v);
            }
            assert forall|i: int, j: int| 0 <= i < after.len() && 0 <= j < after.len() && i != j implies after[i]
                != after[j] by {
                if i < before.len() && j < before.len() {
                } else if i < before.len() {
                    assert(before.contains(before[i]));
                } else {
                    assert(before.contains(before[j]));
                }
            }
        } else {
            law_first_occurrences(rest, values.last());
        }
        if rest.len() > 0 {
            assert(rest[0] == values[0]);
            assert(after[0] == before[0]);
        }
    }
}

/// The rows a deletion captures are those of its keys that the state has.
pub proof fn law_held_rows(state: StateView, collection: Seq<char>, keys: Seq<ValueView>, at: Seq<StepView>)
    ensures
        held_rows(state, collection, keys).contains(at) <==> state.contains_key(at) && exists|i: int|
            0 <= i < keys.len() && at == seq![StepView { name: collection, key: components_of(#[trigger] keys[i]) }],
    decreases keys.len(),
{
    if keys.len() > 0 {
        let rest = keys.drop_last();
        law_held_rows(state, collection, rest, at);
        let before = held_rows(state, collection, rest);
        let after = held_rows(state, collection, keys);
        let last = address_of(collection, keys.last());
        assert(keys[keys.len() - 1] == keys.last());
        if before.contains(at) {
            let i = choose|i: int| 0 <= i < before.len() && before[i] == at;
            assert(after[i] == at);
            let k = choose|k: int|
                0 <= k < rest.len() && at == seq![StepView { name: collection, key: components_of(#[trigger] rest[k]) }];
            assert(keys[k] == rest[k]);
        }
        if state.contains_key(last) {
            assert(after[before.len() as int] == last);
        }
        if after.contains(at) && !before.contains(at) {
            let i = choose|i: int| 0 <= i < after.len() && after[i] == at;
            if i < before.len() {
                assert(before[i] == at);
            }
            assert(at == last);
        }
        if exists|i: int|
            0 <= i < keys.len() && at == seq![StepView { name: collection, key: components_of(#[trigger] keys[i]) }] {
            let i = choose|i: int|
                0 <= i < keys.len() && at == seq![StepView { name: collection, key: components_of(#[trigger] keys[i]) }];
            if i < rest.len() {
                assert(rest[i] == keys[i]);
            }
        }
    }
}

/// Each operand of a deletion gives its own key, in order, and the first that gives
/// none refuses it.
pub proof fn law_all_normalized(names: Seq<Seq<char>>, operands: Seq<ValueView>)
    ensures
        all_normalized(names, operands) is Ok <==> forall|i: int|
            0 <= i < operands.len() ==> normalized(names, #[trigger] operands[i]) is Ok,
        all_normalized(names, operands) matches Ok(keys) ==> keys.len() == operands.len() && forall|i: int|
            0 <= i < keys.len() ==> normalized(names, operands[i]) == Ok::<ValueView, RejectionView>(#[trigger] keys[i]),
    decreases operands.len(),
{
    if operands.len() > 0 {
        let rest = operands.drop_last();
        law_all_normalized(names, rest);
        assert(operands[operands.len() - 1] == operands.last());
        if all_normalized(names, operands) is Ok {
            assert forall|i: int| 0 <= i < operands.len() implies normalized(names, #[trigger] operands[i]) is Ok by {
                if i < rest.len() {
                    assert(rest[i] == operands[i]);
                }
            }
            let keys = all_normalized(names, operands)->Ok_0;
            let before = all_normalized(names, rest)->Ok_0;
            assert forall|i: int| 0 <= i < keys.len() implies normalized(names, operands[i]) == Ok::<
                ValueView,
                RejectionView,
            >(#[trigger] keys[i]) by {
                if i < rest.len() {
                    assert(rest[i] == operands[i]);
                    assert(keys[i] == before[i]);
                }
            }
        } else if forall|i: int| 0 <= i < operands.len() ==> normalized(names, #[trigger] operands[i]) is Ok {
            assert forall|i: int| 0 <= i < rest.len() implies normalized(names, #[trigger] rest[i]) is Ok by {
                assert(rest[i] == operands[i]);
            }
        }
    }
}

/// A key operand of a single-field key is itself. Of a composite key, a struct gives
/// the values of the key fields in their order, and it has to have these and no others.
pub proof fn law_normalized(names: Seq<Seq<char>>, value: ValueView)
    ensures
        names.len() == 1 ==> normalized(names, value) == Ok::<ValueView, RejectionView>(value),
        !(value is Struct) ==> normalized(names, value) == Ok::<ValueView, RejectionView>(value),
        names.len() != 1 ==> (value matches ValueView::Struct(members) ==> {
            &&& normalized(names, value) is Ok <==> members.len() == names.len() && forall|i: int|
                0 <= i < names.len() ==> member_named(members, #[trigger] names[i]) is Some
            &&& normalized(names, value) matches Ok(k) ==> (k matches ValueView::Composite(c) && c.len() == names.len()
                && forall|i: int| 0 <= i < names.len() ==> member_named(members, #[trigger] names[i]) == Some(c[i]))
        }),
{
}

/// A key selector selects by the value itself, by the values of the key fields a
/// struct names, in their order, or by the components of another row's identity.
pub proof fn law_key_selected(names: Seq<Seq<char>>, value: ValueView)
    ensures
        names.len() == 1 ==> key_selected(names, value) == Ok::<Seq<ValueView>, RejectionView>(seq![value]),
        names.len() > 1 ==> (value matches ValueView::Struct(members) ==> {
            &&& key_selected(names, value) is Ok <==> forall|i: int|
                0 <= i < names.len() ==> member_named(members, #[trigger] names[i]) is Some
            &&& key_selected(names, value) matches Ok(k) ==> k.len() == names.len() && forall|i: int|
                0 <= i < names.len() ==> member_named(members, #[trigger] names[i]) == Some(k[i])
        }),
        names.len() != 1 ==> (value matches ValueView::Composite(c) ==> (c.len() > 0 ==> key_selected(names, value)
            == Ok::<Seq<ValueView>, RejectionView>(c))),
{
}

/// A place that selects a row by key selects it in the collection its base names, by
/// the key its selector came to.
pub proof fn law_selected(
    compiled: Compiled,
    p: ProgramView,
    base: Place,
    key: Option<Result<Value, Rejection>>,
    loc: LocView,
    value: Value,
)
    requires
        located(compiled, p, base) == Ok::<Option<LocView>, RejectionView>(Some(loc)),
        key == Some(Ok::<Value, Rejection>(value)),
        selected(compiled, p, Place::Keyed(Box::new(base), key)) is Ok,
    ensures
        compiled.at(loc.decl) is Some,
        selected(compiled, p, Place::Keyed(Box::new(base), key))->Ok_0 matches Some(t) && t.path == loc.decl
            && t.address.len() == loc.at.0.len() + 1 && t.address.drop_last() == loc.at.0 && t.address.last().name
            == loc.at.1 && key_selected(texts(compiled.at(loc.decl)->0.key@), value@) == Ok::<
            Seq<ValueView>,
            RejectionView,
        >(t.address.last().key),
        p.receiver matches Some(t) ==> p.state.contains_key(t.address),
{
    let t = selected(compiled, p, Place::Keyed(Box::new(base), key))->Ok_0->0;
    assert(t.address.drop_last() =~= loc.at.0);
}

/// A member of a row that is a nested collection is located in that row, and one that a
/// top-level collection has the name of is that collection.
pub proof fn law_located(compiled: Compiled, p: ProgramView, base: Place, member: String, row: TargetView)
    ensures
        compiled.top(member@) is Some ==> located(compiled, p, Place::Name(member)) == Ok::<
            Option<LocView>,
            RejectionView,
        >(Some(LocView { at: (Seq::empty(), member@), decl: seq![member@] })),
        compiled.top(member@) is None ==> located(compiled, p, Place::Name(member)) == Ok::<
            Option<LocView>,
            RejectionView,
        >(None),
        compiled.top(member@) is None && selected(compiled, p, base) == Ok::<Option<TargetView>, RejectionView>(
            Some(row),
        ) ==> located(compiled, p, Place::Member(Box::new(base), member)) == Ok::<Option<LocView>, RejectionView>(
            if compiled.at(row.path) is Some && named(compiled.at(row.path)->0.children@, member@) is Some {
                Some(LocView { at: (row.address, member@), decl: row.path.push(member@) })
            } else {
                None
            },
        ),
        selected(compiled, p, Place::Receiver) == Ok::<Option<TargetView>, RejectionView>(p.receiver),
{
}

/// A scalar cell of a source row that no later scalar cell has the name of is a field it
/// supplies, with its value.
pub proof fn law_scalars(cells: Seq<(Seq<char>, CellView)>, i: int)
    requires
        0 <= i < cells.len(),
        cells[i].1 is Scalar,
        forall|j: int| i < j < cells.len() ==> (#[trigger] cells[j]).0 != cells[i].0 || !(cells[j].1 is Scalar),
    ensures
        scalars(cells).contains_key(cells[i].0),
        scalars(cells)[cells[i].0] == cells[i].1->Scalar_0,
    decreases cells.len(),
{
    if i < cells.len() - 1 {
        let rest = cells.drop_last();
        assert(rest[i] == cells[i]);
        assert forall|j: int| i < j < rest.len() implies (#[trigger] rest[j]).0 != rest[i].0 || !(rest[j].1 is Scalar) by {
            assert(rest[j] == cells[j]);
        }
        law_scalars(rest, i);
        assert(cells[cells.len() - 1].0 != cells[i].0 || !(cells[cells.len() - 1].1 is Scalar));
    }
}

/// A source row supplies no field that none of its scalar cells has the name of.
pub proof fn law_no_scalar(cells: Seq<(Seq<char>, CellView)>, name: Seq<char>)
    requires
        forall|j: int| 0 <= j < cells.len() ==> (#[trigger] cells[j]).0 != name || !(cells[j].1 is Scalar),
    ensures
        !scalars(cells).contains_key(name),
    decreases cells.len(),
{
    if cells.len() > 0 {
        let rest = cells.drop_last();
        assert forall|j: int| 0 <= j < rest.len() implies (#[trigger] rest[j]).0 != name || !(rest[j].1 is Scalar) by {
            assert(rest[j] == cells[j]);
        }
        law_no_scalar(rest, name);
        assert(cells[cells.len() - 1].0 != name || !(cells[cells.len() - 1].1 is Scalar));
    }
}

/// A field that is set has the value, and the row's other fields stay. A row that is
/// not there has no field to set.
pub proof fn law_field_set(state: StateView, at: Seq<StepView>, field: Seq<char>, value: ValueView, other: Seq<char>)
    ensures
        field_set(state, at, field, value) is Ok <==> state.contains_key(at),
        field_set(state, at, field, value) matches Ok(row) ==> {
            &&& row.contains_key(field)
            &&& row[field] == value
            &&& other != field ==> (row.contains_key(other) <==> state[at].contains_key(other))
            &&& other != field && row.contains_key(other) ==> row[other] == state[at][other]
        },
        singleton_set(state, at, field, value).contains_key(field),
        singleton_set(state, at, field, value)[field] == value,
        other != field ==> (singleton_set(state, at, field, value).contains_key(other) <==> state.contains_key(at)
            && state[at].contains_key(other)),
        other != field && singleton_set(state, at, field, value).contains_key(other) ==> singleton_set(
            state,
            at,
            field,
            value,
        )[other] == state[at][other],
{
}

/// An assignment stores the scalar its expression came to where the declared type takes
/// it as it is, and refuses what is no scalar and what does not fit.
pub proof fn law_assigned_value(value: CellView, fit: Fit, at: Seq<StepView>, field: Seq<char>)
    ensures
        value matches CellView::Scalar(v) ==> (fit is Stored ==> assigned_value(value, fit, at, field) == Ok::<
            ValueView,
            RejectionView,
        >(v)),
        !(value is Scalar) ==> assigned_value(value, fit, at, field) is Err,
        fit is Mismatch ==> assigned_value(value, fit, at, field) is Err,
        value is Scalar ==> (fit matches Fit::Label(Ok(label)) ==> assigned_value(value, fit, at, field) == Ok::<
            ValueView,
            RejectionView,
        >(label@)),
{
}

/// The scalar of a scalar is itself, that of a row its key, and a collection has none.
pub proof fn law_scalar_of(cell: CellView)
    ensures
        cell matches CellView::Scalar(v) ==> scalar_of(cell) == Ok::<ValueView, RejectionView>(v),
        cell matches CellView::Row(row) ==> scalar_of(cell) == Ok::<ValueView, RejectionView>(row.key),
        cell is Collection ==> scalar_of(cell) is Err,
{
}

/// A patch of one row is refused where the row is not there, and otherwise puts that
/// row's normalized fields in place. Of a selection, rows that are not there are passed
/// over.
pub proof fn law_patch(
    compiled: Compiled,
    p: ProgramView,
    row: TargetView,
    rows: Seq<TargetView>,
    outcomes: Seq<Result<FieldsView, RejectionView>>,
)
    requires
        outcomes.len() > 0,
        rows.len() + 1 == outcomes.len(),
    ensures
        !p.state.contains_key(row.address) ==> patch_executed(compiled, p, PatchPlanView::Single(row), outcomes) is Err,
        p.state.contains_key(row.address) && outcomes[0] is Err ==> patch_executed(
            compiled,
            p,
            PatchPlanView::Single(row),
            outcomes,
        ) is Err,
        p.state.contains_key(row.address) && outcomes[0] is Ok ==> patch_executed(
            compiled,
            p,
            PatchPlanView::Single(row),
            outcomes,
        ) == placed(compiled, p, row.address, row.path, outcomes[0]->Ok_0),
        ({
            let before = rows_patched(compiled, p, rows, outcomes.drop_last());
            let after = rows_patched(compiled, p, rows.push(row), outcomes);
            &&& before is Err ==> after == before
            &&& before matches Ok(q) ==> (!q.state.contains_key(row.address) ==> after == before)
            &&& before matches Ok(q) ==> (q.state.contains_key(row.address) && outcomes.last() is Ok ==> after == placed(
                compiled,
                q,
                row.address,
                row.path,
                outcomes.last()->Ok_0,
            ))
            &&& before matches Ok(q) ==> (q.state.contains_key(row.address) && outcomes.last() is Err ==> after is Err)
        }),
{
    assert(rows.push(row).drop_last() =~= rows);
    assert(rows.push(row).last() == row);
}

/// The rows of a selection are patched in their collection by the keys it came to.
pub proof fn law_rows_keyed(loc: LocView, keys: Seq<ValueView>, i: int)
    requires
        0 <= i < keys.len(),
    ensures
        rows_keyed(loc, keys).len() == keys.len(),
        rows_keyed(loc, keys)[i].path == loc.decl,
        rows_keyed(loc, keys)[i].address.drop_last() == loc.at.0,
        rows_keyed(loc, keys)[i].address.last().name == loc.at.1,
        !(keys[i] is Composite) ==> rows_keyed(loc, keys)[i].address.last().key == seq![keys[i]],
        keys[i] matches ValueView::Composite(c) ==> (c.len() > 0 ==> rows_keyed(loc, keys)[i].address.last().key == c),
{
    assert(rows_keyed(loc, keys)[i].address.drop_last() =~= loc.at.0);
}

/// The keys a selection came to are those of its rows, in order.
pub proof fn law_keys_selected(cell: CellView, i: int)
    ensures
        cell matches CellView::Collection(rows) ==> keys_selected(cell).len() == rows.len() && (0 <= i < rows.len()
            ==> keys_selected(cell)[i] == rows[i].key),
        cell matches CellView::Row(row) ==> keys_selected(cell) == seq![row.key],
        cell is Scalar ==> keys_selected(cell).len() == 0,
{
}

/// The rows a source supplies are those of a collection, or the one row it is; a scalar
/// supplies none and is refused.
pub proof fn law_rows_supplied(source: CellView, used: SourceUse)
    ensures
        source matches CellView::Collection(rows) ==> rows_supplied(source, used) == Ok::<
            Seq<crate::cell::RowView>,
            RejectionView,
        >(rows),
        source matches CellView::Row(row) ==> rows_supplied(source, used) == Ok::<
            Seq<crate::cell::RowView>,
            RejectionView,
        >(seq![*row]),
        source is Scalar ==> rows_supplied(source, used) is Err,
{
}

} // verus!
