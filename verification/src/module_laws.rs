//! What module hosts keep to: instances, bindings, peers and exposed interfaces.

use crate::binding::use_of;
use crate::cell::RowView;
use crate::doc::{text_of, Doc};
use crate::exposure::{
    bound_operations, entry_names, exposed_as, first_missing, first_narrowed, interface_narrowed, interface_of, moved,
    names_shown, narrowed, shown_name, surface_of, InterfaceView, Moved, SurfaceView,
};
use crate::hosting::{
    aggregated, contracts_met, enabled_position, first_unmet, installed, is_at, mounted_from, position, provides,
    routed, ChildView, Contract, ExposedMutation, HostView, InstallWork, InterfaceRead, LoadError, RouteView,
};
use crate::imports::{imported, surface_named, Projection};
use crate::install::{admitted, with_dep, with_use, RequestView, UseBindingView};
use crate::lifecycle::{
    args_taken, argument, first_untaken, mount_of, moves_forward, operand, retained, taken, ArgsView, ArgumentView,
    AxesView, LifecycleOp, OperandView,
};
use crate::history::ImportRelation;
use crate::lineage::PointView;
use crate::module_error::ModuleErrorView;
use crate::parent::{delegated, delegation, fed, mutation_bound, row_mutation, surface_handle, CallView};
use crate::peer::{
    automatic_peer, bound_path, explicit_peer, peer_resolved, peers_resolved, satisfies, sibling_named, sibling_path,
    PeerView, SiblingInterface,
};
use crate::space::{is_space, rows_along};
use crate::state::FieldsView;
use crate::syntax::{Expr, Member};
use crate::table::{lemma_sorted_exists, sorted};
use crate::value::ValueView;
use crate::version::{version_text, Version};
use vstd::prelude::*;

verus! {

proof fn lemma_mounted<E>(children: Seq<ChildView<E>>, space: Seq<char>, name: Seq<char>, from: nat)
    ensures
        mounted_from(children, space, name, from) is None <==> forall|k: int|
            from <= k < children.len() ==> !is_at(#[trigger] children[k], space, name),
        mounted_from(children, space, name, from) matches Some(i) ==> from <= i < children.len() && is_at(
            children[i],
            space,
            name,
        ) && forall|k: int| from <= k < i ==> !is_at(#[trigger] children[k], space, name),
    decreases children.len() - from,
{
    if from < children.len() {
        lemma_mounted(children, space, name, from + 1);
        if mounted_from(children, space, name, from) is None {
            assert forall|k: int| from <= k < children.len() implies !is_at(#[trigger] children[k], space, name) by {}
        }
    }
}

/// An instance is found where it is mounted: under its space and its name, both.
/// Nothing is found where none is.
pub proof fn law_found<E>(children: Seq<ChildView<E>>, space: Seq<char>, name: Seq<char>, i: int)
    ensures
        position(children, space, name) is None <==> forall|k: int|
            0 <= k < children.len() ==> !((#[trigger] children[k]).space == space && children[k].name == name),
        0 <= i < children.len() && children[i].space == space && children[i].name == name && (forall|k: int|
            0 <= k < i ==> !((#[trigger] children[k]).space == space && children[k].name == name)) ==> position(
            children,
            space,
            name,
        ) == Some(i) && enabled_position(children, space, name) == (if children[i].enabled {
            Ok::<int, ModuleErrorView>(i)
        } else {
            Err(ModuleErrorView::Disabled(name))
        }),
        position(children, space, name) is None ==> enabled_position(children, space, name) == Err::<
            int,
            ModuleErrorView,
        >(ModuleErrorView::Unknown(name)),
{
    lemma_mounted(children, space, name, 0);
    if let Some(j) = position(children, space, name) {
        assert(children[j].space == space && children[j].name == name);
        if 0 <= i < children.len() && children[i].space == space && children[i].name == name && (forall|k: int|
            0 <= k < i ==> !((#[trigger] children[k]).space == space && children[k].name == name)) {
            if i < j {
                assert(!is_at(children[i], space, name));
            }
        }
    } else {
        assert forall|k: int| 0 <= k < children.len() implies !((#[trigger] children[k]).space == space
            && children[k].name == name) by {
            assert(!is_at(children[k], space, name));
        }
    }
}

proof fn lemma_unmet(declared: Seq<(String, String)>, provided: Seq<(String, String)>)
    ensures
        first_unmet(declared, provided) is None <==> forall|j: int|
            0 <= j < declared.len() ==> provides(provided, (#[trigger] declared[j]).0@, declared[j].1@),
    decreases declared.len(),
{
    if declared.len() > 0 {
        let rest = declared.drop_first();
        lemma_unmet(rest, provided);
        if first_unmet(declared, provided) is None {
            assert forall|j: int| 0 <= j < declared.len() implies provides(
                provided,
                (#[trigger] declared[j]).0@,
                declared[j].1@,
            ) by {
                if j > 0 {
                    assert(rest[j - 1] == declared[j]);
                }
            }
        } else if forall|j: int|
            0 <= j < declared.len() ==> provides(provided, (#[trigger] declared[j]).0@, declared[j].1@) {
            assert(provides(provided, declared[0].0@, declared[0].1@));
            assert forall|j: int| 0 <= j < rest.len() implies provides(
                provided,
                (#[trigger] rest[j]).0@,
                rest[j].1@,
            ) by {
                assert(rest[j] == declared[j + 1]);
            }
        }
    }
}

/// Whether what is exposed for one interface meets it: a field it declares is shown,
/// with its type.
pub open spec fn met(contract: Contract, exposed: Option<Vec<(String, String)>>) -> bool {
    forall|j: int|
        0 <= j < contract.view_fields@.len() ==> (exposed matches Some(provided) && provides(
            provided@,
            (#[trigger] contract.view_fields@[j]).0@,
            contract.view_fields@[j].1@,
        ))
}

/// Interfaces are met if and only if each is: whatever field it declares is shown with
/// the declared type.
pub proof fn law_contracts_met(contracts: Seq<Contract>, exposed: Seq<Option<Vec<(String, String)>>>, from: nat)
    requires
        contracts.len() == exposed.len(),
        from <= contracts.len(),
    ensures
        contracts_met(contracts, exposed, from) is Ok <==> forall|i: int|
            from <= i < contracts.len() ==> #[trigger] met(contracts[i], exposed[i]),
    decreases contracts.len() - from,
{
    if from < contracts.len() {
        law_contracts_met(contracts, exposed, from + 1);
        let c = contracts[from as int];
        let e = exposed[from as int];
        match e {
            Some(provided) => {
                lemma_unmet(c.view_fields@, provided@);
                assert(met(c, e) <==> first_unmet(c.view_fields@, provided@) is None);
            },
            None => {
                if c.view_fields@.len() > 0 {
                    let first = c.view_fields@[0];
                    assert(!met(c, e));
                } else {
                    assert(met(c, e));
                }
            },
        }
        if contracts_met(contracts, exposed, from) is Ok {
            assert forall|i: int| from <= i < contracts.len() implies #[trigger] met(contracts[i], exposed[i]) by {
                if i > from {
                }
            }
        }
    }
}

/// Whether everything an installation asks for is given: the request can be read and
/// names the instance, the row it goes into exists, its name is free, and what it
/// imports, its store, its definition, its interfaces and its data are all there.
pub open spec fn installable<E>(h: HostView<E>, space: Seq<char>, r: RequestView, work: InstallWork<E>) -> bool {
    &&& r.error is None
    &&& r.name.len() > 0
    &&& work.contracts is Some ==> rows_along(space) is Some && work.live == Ok::<bool, crate::update::EngineError>(true)
    &&& forall|k: int|
        0 <= k < h.children.len() ==> !((#[trigger] h.children[k]).space == space && h.children[k].name == r.name)
    &&& imported(r.bindings.uses, work.projections@, r.bindings.uses.len()) is Ok
    &&& work.store is Ok
    &&& work.loaded is Ok
    &&& work.contracts matches Some(contracts) ==> forall|i: int|
        0 <= i < contracts@.len() ==> #[trigger] met(contracts@[i], work.exposed@[i])
    &&& r.data is Some ==> work.overlaid matches Some(Ok(_))
}

/// An instance is installed if and only if everything it asks for is given. It is then
/// the last instance, enabled, under its space, its name and the bindings it asked for,
/// and the others are as they were; a refusal changes no instance.
pub proof fn law_installed<E>(h: HostView<E>, space: Seq<char>, r: RequestView, work: InstallWork<E>)
    requires
        work.ready(r),
    ensures
        installed(h, space, r, work).1 is Ok <==> installable(h, space, r, work),
        installed(h, space, r, work).0.root == h.root,
        installed(h, space, r, work).0.instance == h.instance,
        installed(h, space, r, work).1 is Err ==> installed(h, space, r, work).0.children == h.children,
        installed(h, space, r, work).1 is Ok ==> ({
            let after = installed(h, space, r, work).0;
            let child = after.children.last();
            &&& after.children.len() == h.children.len() + 1
            &&& forall|k: int| 0 <= k < h.children.len() ==> #[trigger] after.children[k] == h.children[k]
            &&& child.space == space
            &&& child.name == r.name
            &&& child.enabled
            &&& child.bindings == r.bindings
            &&& child.incarnation == installed(h, space, r, work).1->Ok_0
            &&& after.next_incarnation == h.next_incarnation + 1
            &&& r.data is None ==> work.loaded == Ok::<E, LoadError>(child.engine)
            &&& r.data is Some ==> work.overlaid == Some(Ok::<E, crate::update::EngineError>(child.engine))
        }),
{
    law_found(h.children, space, r.name, 0);
    if let Some(contracts) = work.contracts {
        law_contracts_met(contracts@, work.exposed@, 0);
    }
}

/// What a host refuses an installation with says what is not given: a name that is
/// taken, a row that is not there, an empty name.
pub proof fn law_installation_refused<E>(h: HostView<E>, space: Seq<char>, r: RequestView, work: InstallWork<E>, k: int)
    requires
        work.ready(r),
    ensures
        r.error matches Some(e) ==> installed(h, space, r, work) == (h, Err::<Seq<char>, ModuleErrorView>(e)),
        r.error is None && r.name.len() == 0 ==> installed(h, space, r, work) == (
            h,
            Err::<Seq<char>, ModuleErrorView>(ModuleErrorView::EmptyName),
        ),
        r.error is None && r.name.len() > 0 && work.contracts is Some && work.live == Ok::<
            bool,
            crate::update::EngineError,
        >(false) ==> installed(h, space, r, work) == (
            h,
            Err::<Seq<char>, ModuleErrorView>(ModuleErrorView::MissingContainingRow(space)),
        ),
        r.error is None && r.name.len() > 0 && work.contracts is None && 0 <= k < h.children.len() && h.children[k].space
            == space && h.children[k].name == r.name ==> installed(h, space, r, work) == (
            h,
            Err::<Seq<char>, ModuleErrorView>(ModuleErrorView::DuplicateName(r.name)),
        ),
{
    law_found(h.children, space, r.name, 0);
}

/// What an interface shows over a space is exactly the rows that the enabled instances
/// in it show, each under the name of its instance.
pub proof fn law_aggregated<E>(
    children: Seq<ChildView<E>>,
    space: Seq<char>,
    reads: Seq<InterfaceRead>,
    n: nat,
    shown: (Seq<char>, RowView),
)
    requires
        n <= children.len() == reads.len(),
    ensures
        aggregated(children, space, reads, n) is Ok <==> forall|i: int|
            0 <= i < n && (#[trigger] children[i]).space == space && children[i].enabled ==> reads[i] is Ok,
        aggregated(children, space, reads, n) is Ok ==> (aggregated(children, space, reads, n)->Ok_0.contains(shown)
            <==> exists|i: int| 0 <= i < n && #[trigger] shows(children[i], space, reads[i], shown)),
    decreases n,
{
    if n > 0 {
        let m = (n - 1) as nat;
        law_aggregated(children, space, reads, m, shown);
        let child = children[n - 1];
        if aggregated(children, space, reads, n) is Ok {
            let before = aggregated(children, space, reads, m)->Ok_0;
            let after = aggregated(children, space, reads, n)->Ok_0;
            assert forall|i: int|
                0 <= i < n && (#[trigger] children[i]).space == space && children[i].enabled implies reads[i] is Ok by {
                if i < n - 1 {
                }
            }
            if child.space == space && child.enabled && reads[n - 1]->Ok_0 is Some {
                let rows = reads[n - 1]->Ok_0->Some_0;
                let added = Seq::new(rows@.len(), |i: int| (child.name, rows@[i]@));
                assert(after == before + added);
                if before.contains(shown) {
                    let i = choose|i: int| 0 <= i < before.len() && before[i] == shown;
                    assert(after[i] == shown);
                }
                if shows(child, space, reads[n - 1], shown) {
                    let j = choose|j: int| 0 <= j < rows@.len() && shown == (child.name, #[trigger] rows@[j]@);
                    assert(added[j] == shown);
                    assert(after[before.len() + j] == shown);
                }
                if after.contains(shown) && !before.contains(shown) {
                    let i = choose|i: int| 0 <= i < after.len() && after[i] == shown;
                    if i < before.len() {
                        assert(before[i] == shown);
                    }
                    assert(shown == (child.name, rows@[i - before.len()]@));
                    assert(shows(children[n - 1], space, reads[n - 1], shown));
                }
            } else {
                assert(after == before);
                assert(!shows(children[n - 1], space, reads[n - 1], shown));
            }
            if before.contains(shown) {
                let i = choose|i: int| 0 <= i < m && #[trigger] shows(children[i], space, reads[i], shown);
                assert(0 <= i < n && shows(children[i], space, reads[i], shown));
            }
        } else {
            if aggregated(children, space, reads, m) is Err {
                let i = choose|i: int|
                    0 <= i < m && (#[trigger] children[i]).space == space && children[i].enabled && !(reads[i] is Ok);
                assert(children[i].space == space);
            } else {
                assert(children[n - 1].space == space);
            }
        }
    }
}

/// Whether an instance shows a row of an interface in a space.
pub open spec fn shows<E>(child: ChildView<E>, space: Seq<char>, read: InterfaceRead, shown: (Seq<char>, RowView)) -> bool {
    &&& child.space == space
    &&& child.enabled
    &&& read matches Ok(Some(rows)) && exists|j: int|
        0 <= j < rows@.len() && shown == (child.name, #[trigger] rows@[j]@)
}

/// A call of an exposed mutation that is bound to a private one goes to that one, with
/// the arguments and the receiver it was made with.
pub proof fn law_routed<E>(
    children: Seq<ChildView<E>>,
    space: Seq<char>,
    name: Seq<char>,
    exposed: ExposedMutation,
    request: CallView,
    projections: Seq<Projection>,
)
    ensures
        enabled_position(children, space, name) matches Err(e) ==> routed(
            children,
            space,
            name,
            exposed,
            request,
            projections,
        ) == Err::<RouteView, ModuleErrorView>(e),
        enabled_position(children, space, name) is Ok && exposed.private is Some ==> (routed(
            children,
            space,
            name,
            exposed,
            request,
            projections,
        ) matches Ok(RouteView::Child(c)) && c.mutation == exposed.private->0@ && c.args == request.args && c.receiver
            == request.receiver),
        enabled_position(children, space, name) is Ok && exposed.private is None && exposed.binding is None ==> routed(
            children,
            space,
            name,
            exposed,
            request,
            projections,
        ) is Err,
{
}

/// A parameter of a delegated call takes the argument that its last given source names;
/// one without a given source is not passed.
pub proof fn law_fed(sources: Seq<(Seq<char>, Seq<char>)>, given: FieldsView, i: int, parameter: Seq<char>)
    ensures
        fed(sources, given).contains_key(parameter) <==> exists|k: int|
            0 <= k < sources.len() && (#[trigger] sources[k]).0 == parameter && given.contains_key(sources[k].1),
        0 <= i < sources.len() && sources[i].0 == parameter && given.contains_key(sources[i].1) && (forall|k: int|
            i < k < sources.len() && (#[trigger] sources[k]).0 == parameter ==> !given.contains_key(sources[k].1)) ==> fed(
            sources,
            given,
        )[parameter] == given[sources[i].1],
    decreases sources.len(),
{
    if sources.len() > 0 {
        let rest = sources.drop_last();
        law_fed(rest, given, i, parameter);
        let last = sources.last();
        assert(sources[sources.len() - 1] == last);
        if fed(rest, given).contains_key(parameter) {
            let k = choose|k: int|
                0 <= k < rest.len() && (#[trigger] rest[k]).0 == parameter && given.contains_key(rest[k].1);
            assert(sources[k] == rest[k]);
        }
        if exists|k: int|
            0 <= k < sources.len() && (#[trigger] sources[k]).0 == parameter && given.contains_key(sources[k].1) {
            let k = choose|k: int|
                0 <= k < sources.len() && (#[trigger] sources[k]).0 == parameter && given.contains_key(sources[k].1);
            if k < rest.len() {
                assert(rest[k] == sources[k]);
            }
        }
        if 0 <= i < rest.len() && sources[i].0 == parameter && given.contains_key(sources[i].1) && (forall|k: int|
            i < k < sources.len() && (#[trigger] sources[k]).0 == parameter ==> !given.contains_key(sources[k].1)) {
            assert(rest[i] == sources[i]);
            assert forall|k: int| i < k < rest.len() && (#[trigger] rest[k]).0 == parameter implies !given.contains_key(
                rest[k].1,
            ) by {
                assert(rest[k] == sources[k]);
            }
        }
    }
}

/// The first mutation of a name is the one a surface binds under it.
pub proof fn law_mutation_bound(muts: Seq<(String, String)>, name: Seq<char>, i: int)
    ensures
        mutation_bound(muts, name) is None <==> forall|k: int| 0 <= k < muts.len() ==> (#[trigger] muts[k]).0@ != name,
        0 <= i < muts.len() && muts[i].0@ == name && (forall|k: int| 0 <= k < i ==> (#[trigger] muts[k]).0@ != name)
            ==> mutation_bound(muts, name) == Some(muts[i].1@),
    decreases muts.len(),
{
    if muts.len() > 0 {
        let rest = muts.drop_first();
        law_mutation_bound(rest, name, i - 1);
        if mutation_bound(muts, name) is None {
            assert forall|k: int| 0 <= k < muts.len() implies (#[trigger] muts[k]).0@ != name by {
                if k > 0 {
                    assert(rest[k - 1] == muts[k]);
                }
            }
        } else if forall|k: int| 0 <= k < muts.len() ==> (#[trigger] muts[k]).0@ != name {
            assert forall|k: int| 0 <= k < rest.len() implies (#[trigger] rest[k]).0@ != name by {
                assert(rest[k] == muts[k + 1]);
            }
        }
        if 0 < i < muts.len() && muts[i].0@ == name && (forall|k: int| 0 <= k < i ==> (#[trigger] muts[k]).0@ != name) {
            assert(rest[i - 1] == muts[i]);
            assert forall|k: int| 0 <= k < i - 1 implies (#[trigger] rest[k]).0@ != name by {
                assert(rest[k] == muts[k + 1]);
            }
        }
    }
}

/// A surface's mutation written `.name` or `.name()` is the row's mutation `name`; one
/// that does not begin with the dot is none of the row's.
pub proof fn law_row_mutation(muts: Seq<(String, String)>, name: Seq<char>, target: Seq<char>)
    ensures
        mutation_bound(muts, name) == Some("."@ + target + "()"@) ==> row_mutation(muts, name) == Some(target),
        mutation_bound(muts, name) == Some("."@ + target) && crate::text::before_suffix(target, "()"@) is None
            ==> row_mutation(muts, name) == Some(target),
        mutation_bound(muts, name) == Some(target) && (target.len() == 0 || target[0] != '.') ==> row_mutation(muts, name)
            is None,
        mutation_bound(muts, name) is None ==> row_mutation(muts, name) is None,
{
    reveal_strlit(".");
    reveal_strlit("()");
    let plain = "."@ + target;
    let called = plain + "()"@;
    assert(plain.take(1) =~= "."@);
    assert(plain.skip(1) =~= target);
    assert(called.take(1) =~= "."@);
    let rest = called.skip(1);
    assert(rest =~= target + "()"@);
    assert(rest.skip(rest.len() - 2) =~= "()"@);
    assert(rest.take(rest.len() - 2) =~= target);
    if target.len() > 0 && target.take(1) == "."@ {
        assert(target[0] == target.take(1)[0]);
    }
}

/// A delegated call runs on the row that contains the module, by the keys along its
/// space, and only what the binding maps is passed on.
pub proof fn law_delegated(
    space: Seq<char>,
    uses: Seq<UseBindingView>,
    binding: Option<Expr>,
    given: FieldsView,
    projections: Seq<Projection>,
)
    requires
        delegated(space, uses, binding, given, projections) matches Ok(Some(_)),
    ensures
        ({
            let call = delegated(space, uses, binding, given, projections)->Ok_0->Some_0;
            let d = delegation(binding->0)->0;
            &&& binding is Some && delegation(binding->0) is Some
            &&& call.args == fed(d.args, given)
            &&& rows_along(space) matches Some(rows) ==> call.receiver.len() == rows.len() && forall|k: int|
                0 <= k < rows.len() ==> #[trigger] call.receiver[k] == ValueView::Text(rows[k].1)
            &&& surface_handle(uses, d.handle, 0) matches Some(i) && projections[i] matches Ok(Some(surface))
                && row_mutation(surface.muts@, d.mutation) == Some(call.mutation)
        }),
{
}

/// The handle a delegation goes through is the first of its name that reads a parent
/// surface.
pub proof fn law_surface_handle(uses: Seq<UseBindingView>, handle: Seq<char>, from: nat)
    ensures
        match surface_handle(uses, handle, from) {
            Some(i) => from <= i < uses.len() && uses[i].handle == handle && surface_named(uses[i]) is Some && forall|k: int|
                from <= k < i ==> (#[trigger] uses[k]).handle != handle || surface_named(uses[k]) is None,
            None => forall|k: int|
                from <= k < uses.len() ==> (#[trigger] uses[k]).handle != handle || surface_named(uses[k]) is None,
        },
    decreases uses.len() - from,
{
    if from < uses.len() {
        law_surface_handle(uses, handle, from + 1);
    }
}

/// A handle imports the projection of its parent surface, the last one of the name; a
/// handle that reads none, and one whose surface does not resolve, imports nothing. An
/// import fails only where projecting a surface that is read does.
pub proof fn law_imported(uses: Seq<UseBindingView>, projections: Seq<Projection>, n: nat, i: int)
    requires
        n <= uses.len() == projections.len(),
    ensures
        imported(uses, projections, n) is Ok <==> forall|k: int|
            0 <= k < n && surface_named(#[trigger] uses[k]) is Some ==> projections[k] is Ok,
        imported(uses, projections, n) is Ok && 0 <= i < n && surface_named(uses[i]) is Some && projections[i]->Ok_0 is Some
            && (forall|k: int| i < k < n ==> (#[trigger] uses[k]).handle != uses[i].handle) ==> {
            let out = imported(uses, projections, n)->Ok_0;
            &&& out.contains_key(uses[i].handle)
            &&& out[uses[i].handle] == projections[i]->Ok_0->Some_0.value@
        },
    decreases n,
{
    if n > 0 {
        let m = (n - 1) as nat;
        law_imported(uses, projections, m, i);
        let last = uses[n - 1];
        if imported(uses, projections, n) is Ok {
            assert forall|k: int| 0 <= k < n && surface_named(#[trigger] uses[k]) is Some implies projections[k] is Ok by {
                if k < n - 1 {
                }
            }
            if 0 <= i < m && (forall|k: int| i < k < n ==> (#[trigger] uses[k]).handle != uses[i].handle) {
                assert(uses[n - 1].handle != uses[i].handle);
            }
        } else if imported(uses, projections, m) is Err {
            let k = choose|k: int| 0 <= k < m && surface_named(#[trigger] uses[k]) is Some && !(projections[k] is Ok);
            assert(surface_named(uses[k]) is Some);
        } else {
            assert(surface_named(uses[n - 1]) is Some);
        }
    }
}

/// Nothing is imported under a name but by a handle of that name.
pub proof fn law_only_handles_import(uses: Seq<UseBindingView>, projections: Seq<Projection>, n: nat, handle: Seq<char>)
    requires
        n <= uses.len() == projections.len(),
        imported(uses, projections, n) is Ok,
        imported(uses, projections, n)->Ok_0.contains_key(handle),
    ensures
        exists|k: int|
            0 <= k < n && (#[trigger] uses[k]).handle == handle && surface_named(uses[k]) is Some && projections[k]
                matches Ok(Some(_)),
    decreases n,
{
    if n > 0 {
        let m = (n - 1) as nat;
        if imported(uses, projections, m)->Ok_0.contains_key(handle) {
            law_only_handles_import(uses, projections, m, handle);
            let k = choose|k: int|
                0 <= k < m && (#[trigger] uses[k]).handle == handle && surface_named(uses[k]) is Some && projections[k]
                    matches Ok(Some(_));
            assert(uses[k].handle == handle);
        } else {
            assert(uses[n - 1].handle == handle);
        }
    }
}

/// A request keeps every binding it could read, in the order they were made, and the
/// first it could not; it is admitted if and only if it could read all and has a name,
/// and then with what was asked for.
pub proof fn law_request(r: RequestView, handle: Seq<char>, text: Seq<char>, optional: bool)
    ensures
        use_of(text) matches Ok(u) ==> {
            let after = with_use(r, handle, text, optional);
            &&& after.error == r.error
            &&& after.bindings.uses == r.bindings.uses.push(UseBindingView { handle, spec: u, optional })
            &&& after.bindings.config == r.bindings.config
            &&& after.bindings.deps == r.bindings.deps
            &&& after.name == r.name
            &&& after.definition == r.definition
            &&& after.data == r.data
        },
        use_of(text) matches Err(e) ==> {
            let after = with_use(r, handle, text, optional);
            &&& after.bindings == r.bindings
            &&& r.error is Some ==> after.error == r.error
            &&& r.error is None ==> after.error == Some(e)
        },
        crate::binding::dep_of(text) matches Ok(d) ==> {
            let after = with_dep(r, handle, text);
            &&& after.error == r.error
            &&& after.bindings.deps == r.bindings.deps.push((handle, d))
            &&& after.bindings.uses == r.bindings.uses
            &&& after.bindings.config == r.bindings.config
        },
        crate::binding::dep_of(text) matches Err(e) ==> {
            let after = with_dep(r, handle, text);
            &&& after.bindings == r.bindings
            &&& r.error is Some ==> after.error == r.error
            &&& r.error is None ==> after.error == Some(e)
        },
        admitted(r) is Ok <==> r.error is None && r.name.len() > 0,
        admitted(r) matches Ok(a) ==> a.name == r.name && a.definition == r.definition && a.bindings == r.bindings
            && a.data == r.data,
{
}

/// The sibling of a name is the first that has it.
pub proof fn law_sibling_named(siblings: Seq<SiblingInterface>, name: Seq<char>, i: int)
    ensures
        sibling_named(siblings, name) is None <==> forall|k: int|
            0 <= k < siblings.len() ==> (#[trigger] siblings[k]).name@ != name,
        0 <= i < siblings.len() && siblings[i].name@ == name && (forall|k: int|
            0 <= k < i ==> (#[trigger] siblings[k]).name@ != name) ==> sibling_named(siblings, name) == Some(siblings[i]),
    decreases siblings.len(),
{
    if siblings.len() > 0 {
        let rest = siblings.drop_first();
        law_sibling_named(rest, name, i - 1);
        if sibling_named(siblings, name) is None {
            assert forall|k: int| 0 <= k < siblings.len() implies (#[trigger] siblings[k]).name@ != name by {
                if k > 0 {
                    assert(rest[k - 1] == siblings[k]);
                }
            }
        } else if forall|k: int| 0 <= k < siblings.len() ==> (#[trigger] siblings[k]).name@ != name {
            assert forall|k: int| 0 <= k < rest.len() implies (#[trigger] rest[k]).name@ != name by {
                assert(rest[k] == siblings[k + 1]);
            }
        }
        if 0 < i < siblings.len() && siblings[i].name@ == name && (forall|k: int|
            0 <= k < i ==> (#[trigger] siblings[k]).name@ != name) {
            assert(rest[i - 1] == siblings[i]);
            assert forall|k: int| 0 <= k < i - 1 implies (#[trigger] rest[k]).name@ != name by {
                assert(rest[k] == siblings[k + 1]);
            }
        }
    }
}

/// A peer an operator names is bound if and only if the path leads to a sibling, that
/// sibling is of the asked line and major version and exposes the asked interface, and
/// the path qualifies no other interface.
pub proof fn law_explicit_peer(
    space: Seq<char>,
    handle: Seq<char>,
    path: Seq<char>,
    line: Seq<char>,
    interface: Seq<char>,
    major: u64,
    siblings: Seq<SiblingInterface>,
    i: int,
)
    requires
        0 <= i < siblings.len(),
        forall|k: int| 0 <= k < i ==> (#[trigger] siblings[k]).name@ != siblings[i].name@,
        sibling_path(space, path) matches Some((name, _)) && name == siblings[i].name@,
    ensures
        explicit_peer(space, handle, path, line, interface, major, siblings) is Ok <==> siblings[i].line@ == line
            && siblings[i].major == major && (exists|k: int|
            0 <= k < siblings[i].interfaces@.len() && (#[trigger] siblings[i].interfaces@[k])@ == interface) && (
        sibling_path(space, path)->Some_0.1 matches Some(q) ==> q == interface),
        explicit_peer(space, handle, path, line, interface, major, siblings) matches Ok(name) ==> name == siblings[i].name@,
{
    law_sibling_named(siblings, siblings[i].name@, i);
    let s = siblings[i];
    let names = crate::text::texts(s.interfaces@);
    if names.contains(interface) {
        let k = choose|k: int| 0 <= k < names.len() && names[k] == interface;
        assert(s.interfaces@[k]@ == interface);
    }
    if exists|k: int| 0 <= k < s.interfaces@.len() && (#[trigger] s.interfaces@[k])@ == interface {
        let k = choose|k: int| 0 <= k < s.interfaces@.len() && (#[trigger] s.interfaces@[k])@ == interface;
        assert(names[k] == interface);
    }
}

/// A handle nobody bound: one fitting sibling is taken whether or not the handle is
/// optional, several are refused, and none is an absence that only an optional handle
/// may have.
pub proof fn law_automatic_peer(
    handle: Seq<char>,
    line: Seq<char>,
    interface: Seq<char>,
    major: u64,
    optional: bool,
    siblings: Seq<SiblingInterface>,
    i: int,
)
    ensures
        (forall|k: int| 0 <= k < siblings.len() ==> !satisfies(#[trigger] siblings[k], line, interface, major)) ==> (
        automatic_peer(handle, line, interface, major, optional, siblings) == (if optional {
            Ok::<Option<Seq<char>>, ModuleErrorView>(None)
        } else {
            automatic_peer(handle, line, interface, major, false, siblings)
        }) && automatic_peer(handle, line, interface, major, false, siblings) is Err),
        0 <= i < siblings.len() && satisfies(siblings[i], line, interface, major) && (forall|k: int|
            0 <= k < siblings.len() && k != i ==> !satisfies(#[trigger] siblings[k], line, interface, major))
            ==> automatic_peer(handle, line, interface, major, optional, siblings) == Ok::<
            Option<Seq<char>>,
            ModuleErrorView,
        >(Some(siblings[i].name@)),
{
    let f = |s: SiblingInterface| satisfies(s, line, interface, major);
    lemma_filter_count(siblings, f, i);
}

proof fn lemma_filter_count(siblings: Seq<SiblingInterface>, f: spec_fn(SiblingInterface) -> bool, i: int)
    ensures
        (forall|k: int| 0 <= k < siblings.len() ==> !f(#[trigger] siblings[k])) ==> siblings.filter(f).len() == 0,
        0 <= i < siblings.len() && f(siblings[i]) && (forall|k: int|
            0 <= k < siblings.len() && k != i ==> !f(#[trigger] siblings[k])) ==> siblings.filter(f) == seq![siblings[i]],
    decreases siblings.len(),
{
    reveal(Seq::filter);
    if siblings.len() > 0 {
        let rest = siblings.drop_last();
        lemma_filter_count(rest, f, i);
        assert(siblings[siblings.len() - 1] == siblings.last());
        if forall|k: int| 0 <= k < siblings.len() ==> !f(#[trigger] siblings[k]) {
            assert forall|k: int| 0 <= k < rest.len() implies !f(#[trigger] rest[k]) by {
                assert(rest[k] == siblings[k]);
            }
        }
        if 0 <= i < siblings.len() && f(siblings[i]) && (forall|k: int|
            0 <= k < siblings.len() && k != i ==> !f(#[trigger] siblings[k])) {
            assert forall|k: int| 0 <= k < rest.len() && k != i implies !f(#[trigger] rest[k]) by {
                assert(rest[k] == siblings[k]);
            }
            if i < rest.len() {
                assert(rest[i] == siblings[i]);
            } else {
                assert(rest.filter(f).len() == 0);
                assert(siblings.filter(f) =~= seq![siblings[i]]);
            }
        }
    } else {
        assert(siblings.filter(f).len() == 0);
    }
}

/// Every handle that asks for a peer is resolved, and no other: what resolved names the
/// handle, in the order of the handles, and all resolve or none does.
pub proof fn law_peers_resolved(
    space: Seq<char>,
    uses: Seq<UseBindingView>,
    siblings: Seq<SiblingInterface>,
    n: nat,
    i: int,
)
    requires
        n <= uses.len(),
    ensures
        peers_resolved(space, uses, siblings, n) is Ok <==> forall|k: int|
            0 <= k < n ==> peer_resolved(space, uses, #[trigger] uses[k], siblings) is Ok,
        peers_resolved(space, uses, siblings, n) is Ok && 0 <= i < n && uses[i].spec is Peer ==> exists|j: int|
            0 <= j < peers_resolved(space, uses, siblings, n)->Ok_0.len() && (#[trigger] peers_resolved(
                space,
                uses,
                siblings,
                n,
            )->Ok_0[j]).handle == uses[i].handle && peers_resolved(space, uses, siblings, n)->Ok_0[j].interface
                == uses[i].spec->interface && peers_resolved(space, uses, siblings, n)->Ok_0[j].optional == uses[i].optional,
    decreases n,
{
    if n > 0 {
        let m = (n - 1) as nat;
        law_peers_resolved(space, uses, siblings, m, i);
        if peers_resolved(space, uses, siblings, n) is Ok {
            let before = peers_resolved(space, uses, siblings, m)->Ok_0;
            let after = peers_resolved(space, uses, siblings, n)->Ok_0;
            assert forall|k: int| 0 <= k < n implies peer_resolved(space, uses, #[trigger] uses[k], siblings) is Ok by {
                if k < n - 1 {
                }
            }
            if 0 <= i < n && uses[i].spec is Peer {
                if i < n - 1 {
                    let j = choose|j: int|
                        0 <= j < before.len() && (#[trigger] before[j]).handle == uses[i].handle && before[j].interface
                            == uses[i].spec->interface && before[j].optional == uses[i].optional;
                    assert(after[j] == before[j]);
                } else {
                    assert(after[before.len() as int].handle == uses[i].handle);
                }
            }
        } else if peers_resolved(space, uses, siblings, m) is Err {
            let k = choose|k: int| 0 <= k < m && !(peer_resolved(space, uses, #[trigger] uses[k], siblings) is Ok);
            assert(!(peer_resolved(space, uses, uses[k], siblings) is Ok));
        } else {
            assert(!(peer_resolved(space, uses, uses[n - 1], siblings) is Ok));
        }
    }
}

/// A handle that an operator bound to a path is resolved by that path, and by no
/// candidate.
pub proof fn law_operator_decides(
    space: Seq<char>,
    uses: Seq<UseBindingView>,
    u: UseBindingView,
    siblings: Seq<SiblingInterface>,
    path: Seq<char>,
)
    ensures
        u.spec is Peer && bound_path(uses, u.handle) == Some(path) && peer_resolved(space, uses, u, siblings) is Ok ==> (
        peer_resolved(space, uses, u, siblings)->Ok_0 is Some && sibling_path(space, path) is Some && peer_resolved(
            space,
            uses,
            u,
            siblings,
        )->Ok_0->Some_0.instance == Some(sibling_path(space, path)->Some_0.0)),
        !(u.spec is Peer) ==> peer_resolved(space, uses, u, siblings) == Ok::<Option<PeerView>, ModuleErrorView>(None),
{
}

/// The path a handle is bound to is that of the first path binding of its name.
pub proof fn law_bound_path(uses: Seq<UseBindingView>, handle: Seq<char>, i: int)
    ensures
        bound_path(uses, handle) is None <==> forall|k: int|
            0 <= k < uses.len() ==> !((#[trigger] uses[k]).spec is Path && uses[k].handle == handle),
        0 <= i < uses.len() && uses[i].spec is Path && uses[i].handle == handle && (forall|k: int|
            0 <= k < i ==> !((#[trigger] uses[k]).spec is Path && uses[k].handle == handle)) ==> bound_path(uses, handle)
            == Some(uses[i].spec->Path_0),
    decreases uses.len(),
{
    if uses.len() > 0 {
        let rest = uses.drop_first();
        law_bound_path(rest, handle, i - 1);
        if bound_path(uses, handle) is None {
            assert forall|k: int| 0 <= k < uses.len() implies !((#[trigger] uses[k]).spec is Path && uses[k].handle
                == handle) by {
                if k > 0 {
                    assert(rest[k - 1] == uses[k]);
                }
            }
        } else if forall|k: int| 0 <= k < uses.len() ==> !((#[trigger] uses[k]).spec is Path && uses[k].handle == handle) {
            assert forall|k: int| 0 <= k < rest.len() implies !((#[trigger] rest[k]).spec is Path && rest[k].handle
                == handle) by {
                assert(rest[k] == uses[k + 1]);
            }
        }
        if 0 < i < uses.len() && uses[i].spec is Path && uses[i].handle == handle && (forall|k: int|
            0 <= k < i ==> !((#[trigger] uses[k]).spec is Path && uses[k].handle == handle)) {
            assert(rest[i - 1] == uses[i]);
            assert forall|k: int| 0 <= k < i - 1 implies !((#[trigger] rest[k]).spec is Path && rest[k].handle == handle) by {
                assert(rest[k] == uses[k + 1]);
            }
        }
    }
}

/// A projection shows exactly the names that one of its members shows.
pub proof fn law_names_shown(members: Seq<Member>, name: Seq<char>)
    ensures
        names_shown(members).contains(name) <==> exists|k: int|
            0 <= k < members.len() && (shown_name(#[trigger] members[k]) matches Some(n) && n@ == name),
    decreases members.len(),
{
    if members.len() > 0 {
        let rest = members.drop_last();
        law_names_shown(rest, name);
        assert(members[members.len() - 1] == members.last());
        if names_shown(rest).contains(name) {
            let k = choose|k: int|
                0 <= k < rest.len() && (shown_name(#[trigger] rest[k]) matches Some(n) && n@ == name);
            assert(members[k] == rest[k]);
        }
        if exists|k: int|
            0 <= k < members.len() && (shown_name(#[trigger] members[k]) matches Some(n) && n@ == name) {
            let k = choose|k: int|
                0 <= k < members.len() && (shown_name(#[trigger] members[k]) matches Some(n) && n@ == name);
            if k < rest.len() {
                assert(rest[k] == members[k]);
            }
        }
    }
}

/// An interface binds the operations it declares and no others, each to its own text, a
/// later declaration of a name over an earlier one.
pub proof fn law_bound_operations(entries: Seq<(String, Doc)>, n: nat, i: int, name: Seq<char>)
    requires
        n <= entries.len(),
    ensures
        bound_operations(entries, n).contains_key(name) <==> exists|k: int| 0 <= k < n && (#[trigger] entries[k]).0@ == name,
        entry_names(entries, n).contains(name) <==> exists|k: int| 0 <= k < n && (#[trigger] entries[k]).0@ == name,
        0 <= i < n && entries[i].0@ == name && (forall|k: int| i < k < n ==> (#[trigger] entries[k]).0@ != name) && text_of(
            entries[i].1,
        ) is Some ==> bound_operations(entries, n)[name] == text_of(entries[i].1)->0,
    decreases n,
{
    if n > 0 {
        let m = (n - 1) as nat;
        law_bound_operations(entries, m, i, name);
        if exists|k: int| 0 <= k < m && (#[trigger] entries[k]).0@ == name {
            let k = choose|k: int| 0 <= k < m && (#[trigger] entries[k]).0@ == name;
            assert(entries[k].0@ == name);
        }
        if bound_operations(entries, n).contains_key(name) && !bound_operations(entries, m).contains_key(name) {
            assert(entries[n - 1].0@ == name);
        }
        if entry_names(entries, n).contains(name) && !entry_names(entries, m).contains(name) {
            assert(entries[n - 1].0@ == name);
        }
        if 0 <= i < m && (forall|k: int| i < k < n ==> (#[trigger] entries[k]).0@ != name) {
            assert(entries[n - 1].0@ != name);
        }
    }
}

/// A module exposes an interface for each declaration, the last of a name as it is
/// declared, and none under any other name.
pub proof fn law_surface(decls: Seq<(String, Doc)>, shown: Seq<Option<Expr>>, n: nat, i: int, name: Seq<char>)
    requires
        n <= decls.len() == shown.len(),
    ensures
        surface_of(decls, shown, n).contains_key(name) <==> exists|k: int| 0 <= k < n && (#[trigger] decls[k]).0@ == name,
        0 <= i < n && decls[i].0@ == name && (forall|k: int| i < k < n ==> (#[trigger] decls[k]).0@ != name) ==> surface_of(
            decls,
            shown,
            n,
        )[name] == interface_of(decls[i].1, shown[i]),
    decreases n,
{
    if n > 0 {
        let m = (n - 1) as nat;
        law_surface(decls, shown, m, i, name);
        if exists|k: int| 0 <= k < m && (#[trigger] decls[k]).0@ == name {
            let k = choose|k: int| 0 <= k < m && (#[trigger] decls[k]).0@ == name;
            assert(decls[k].0@ == name);
        }
        if surface_of(decls, shown, n).contains_key(name) && !surface_of(decls, shown, m).contains_key(name) {
            assert(decls[n - 1].0@ == name);
        }
        if 0 <= i < m && (forall|k: int| i < k < n ==> (#[trigger] decls[k]).0@ != name) {
            assert(decls[n - 1].0@ != name);
        }
    }
}

proof fn lemma_none_missing(names: Seq<Seq<char>>, present: Set<Seq<char>>)
    ensures
        first_missing(names, present) is None <==> forall|k: int|
            0 <= k < names.len() ==> present.contains(#[trigger] names[k]),
    decreases names.len(),
{
    if names.len() > 0 {
        let rest = names.drop_first();
        lemma_none_missing(rest, present);
        if first_missing(names, present) is None {
            assert forall|k: int| 0 <= k < names.len() implies present.contains(#[trigger] names[k]) by {
                if k > 0 {
                    assert(rest[k - 1] == names[k]);
                }
            }
        } else if forall|k: int| 0 <= k < names.len() ==> present.contains(#[trigger] names[k]) {
            assert(present.contains(names[0]));
            assert forall|k: int| 0 <= k < rest.len() implies present.contains(#[trigger] rest[k]) by {
                assert(rest[k] == names[k + 1]);
            }
        }
    }
}

proof fn lemma_kept(names: Seq<Seq<char>>, active: SurfaceView, candidate: SurfaceView, mutations: Set<Seq<char>>)
    ensures
        first_narrowed(names, active, candidate, mutations) is None <==> forall|k: int|
            0 <= k < names.len() ==> interface_narrowed(
                #[trigger] names[k],
                active[names[k]],
                exposed_as(candidate, names[k]),
                mutations,
            ) is None,
    decreases names.len(),
{
    if names.len() > 0 {
        let rest = names.drop_first();
        lemma_kept(rest, active, candidate, mutations);
        if first_narrowed(names, active, candidate, mutations) is None {
            assert forall|k: int| 0 <= k < names.len() implies interface_narrowed(
                #[trigger] names[k],
                active[names[k]],
                exposed_as(candidate, names[k]),
                mutations,
            ) is None by {
                if k > 0 {
                    assert(rest[k - 1] == names[k]);
                }
            }
        } else if forall|k: int|
            0 <= k < names.len() ==> interface_narrowed(
                #[trigger] names[k],
                active[names[k]],
                exposed_as(candidate, names[k]),
                mutations,
            ) is None {
            assert(interface_narrowed(names[0], active[names[0]], exposed_as(candidate, names[0]), mutations) is None);
            assert forall|k: int| 0 <= k < rest.len() implies interface_narrowed(
                #[trigger] rest[k],
                active[rest[k]],
                exposed_as(candidate, rest[k]),
                mutations,
            ) is None by {
                assert(rest[k] == names[k + 1]);
            }
        }
    }
}

/// A candidate that keeps every interface, every field its view shows and every
/// operation it binds narrows nothing, whatever it adds.
pub proof fn law_nothing_narrowed(active: SurfaceView, candidate: SurfaceView, mutations: Set<Seq<char>>)
    requires
        active.dom().finite(),
        forall|n: Seq<char>| #[trigger]
            active.contains_key(n) ==> active[n].fields.finite() && active[n].operations.dom().finite()
                && candidate.contains_key(n) && active[n].fields.subset_of(candidate[n].fields)
                && active[n].operations.dom().subset_of(candidate[n].operations.dom()),
    ensures
        narrowed(active, candidate, mutations) is None,
{
    let names = sorted::<String>(active.dom());
    lemma_sorted_exists::<String>(active.dom());
    lemma_kept(names, active, candidate, mutations);
    assert forall|k: int| 0 <= k < names.len() implies interface_narrowed(
        #[trigger] names[k],
        active[names[k]],
        exposed_as(candidate, names[k]),
        mutations,
    ) is None by {
        let n = names[k];
        assert(names.contains(n));
        assert(active.contains_key(n));
        lemma_sorted_exists::<String>(active[n].fields);
        lemma_sorted_exists::<String>(active[n].operations.dom());
        let fields = sorted::<String>(active[n].fields);
        let operations = sorted::<String>(active[n].operations.dom());
        lemma_none_missing(fields, candidate[n].fields);
        lemma_none_missing(operations, candidate[n].operations.dom());
        assert forall|j: int| 0 <= j < fields.len() implies candidate[n].fields.contains(#[trigger] fields[j]) by {
            assert(fields.contains(fields[j]));
        }
        assert forall|j: int| 0 <= j < operations.len() implies candidate[n].operations.dom().contains(
            #[trigger] operations[j],
        ) by {
            assert(operations.contains(operations[j]));
        }
    }
}

/// An interface moves unchanged if and only if it shows the same fields and binds
/// operations of the same names; a removed one is removed.
pub proof fn law_moved(active: InterfaceView, candidate: InterfaceView)
    ensures
        moved(active, None) == Moved::Removed,
        moved(active, Some(active)) == Moved::Unchanged,
        moved(active, Some(candidate)) == Moved::Unchanged <==> (forall|f: Seq<char>|
            active.fields.contains(f) <==> candidate.fields.contains(f)) && (forall|o: Seq<char>|
            active.operations.contains_key(o) <==> candidate.operations.contains_key(o)),
        moved(active, Some(candidate)) != Moved::Removed,
{
    if (forall|f: Seq<char>| active.fields.contains(f) <==> candidate.fields.contains(f)) && (forall|o: Seq<char>|
        active.operations.contains_key(o) <==> candidate.operations.contains_key(o)) {
        assert(active.fields =~= candidate.fields);
        assert(active.operations.dom() =~= candidate.operations.dom()) by {
            assert forall|o: Seq<char>| active.operations.dom().contains(o) <==> candidate.operations.dom().contains(o) by {
                assert(active.operations.contains_key(o) <==> candidate.operations.contains_key(o));
            }
        }
    }
}

proof fn lemma_untaken(args: ArgsView, names: Seq<Seq<char>>)
    ensures
        first_untaken(args, names) is None <==> forall|k: int|
            0 <= k < args.len() ==> names.contains((#[trigger] args[k]).0),
    decreases args.len(),
{
    if args.len() > 0 {
        let rest = args.drop_first();
        lemma_untaken(rest, names);
        if first_untaken(args, names) is None {
            assert forall|k: int| 0 <= k < args.len() implies names.contains((#[trigger] args[k]).0) by {
                if k > 0 {
                    assert(rest[k - 1] == args[k]);
                }
            }
        } else if forall|k: int| 0 <= k < args.len() ==> names.contains((#[trigger] args[k]).0) {
            assert(names.contains(args[0].0));
            assert forall|k: int| 0 <= k < rest.len() implies names.contains((#[trigger] rest[k]).0) by {
                assert(rest[k] == args[k + 1]);
            }
        }
    }
}

/// An operation accepts its arguments if and only if it takes each of them.
pub proof fn law_args_taken(op: LifecycleOp, args: ArgsView)
    ensures
        args_taken(op, args) is Ok <==> forall|k: int|
            0 <= k < args.len() ==> taken(op).contains((#[trigger] args[k]).0),
{
    lemma_untaken(args, taken(op));
}

/// The argument of a name is the first given under it.
pub proof fn law_argument(args: ArgsView, name: Seq<char>, i: int)
    ensures
        argument(args, name) is None <==> forall|k: int| 0 <= k < args.len() ==> (#[trigger] args[k]).0 != name,
        0 <= i < args.len() && args[i].0 == name && (forall|k: int| 0 <= k < i ==> (#[trigger] args[k]).0 != name)
            ==> argument(args, name) == Some(args[i].1),
    decreases args.len(),
{
    if args.len() > 0 {
        let rest = args.drop_first();
        law_argument(rest, name, i - 1);
        if argument(args, name) is None {
            assert forall|k: int| 0 <= k < args.len() implies (#[trigger] args[k]).0 != name by {
                if k > 0 {
                    assert(rest[k - 1] == args[k]);
                }
            }
        } else if forall|k: int| 0 <= k < args.len() ==> (#[trigger] args[k]).0 != name {
            assert forall|k: int| 0 <= k < rest.len() implies (#[trigger] rest[k]).0 != name by {
                assert(rest[k] == args[k + 1]);
            }
        }
        if 0 < i < args.len() && args[i].0 == name && (forall|k: int| 0 <= k < i ==> (#[trigger] args[k]).0 != name) {
            assert(rest[i - 1] == args[i]);
            assert forall|k: int| 0 <= k < i - 1 implies (#[trigger] rest[k]).0 != name by {
                assert(rest[k] == args[k + 1]);
            }
        }
    }
}

/// A mounted module is addressed by the path it is mounted at: its space, a slash, and
/// its name.
pub proof fn law_mount_of(space: Seq<char>, name: Seq<char>, args: ArgsView, key: Seq<char>, operator: Seq<char>)
    requires
        !name.contains('/'),
        is_space(space),
    ensures
        mount_of(space + seq!['/'] + name) == Some((space, name)),
        argument(args, key) == Some(ArgumentView::Value(ValueView::Mounted(space + seq!['/'] + name))) ==> operand(
            args,
            key,
            operator,
        ) == Ok::<OperandView, crate::rejection::RejectionView>(OperandView::Mounted(space, name)),
{
    reveal_strlit("/");
    let at = space + seq!['/'] + name;
    assert("/"@ =~= seq!['/']);
    lemma_last_piece(space, name);
    let tail = "/"@ + name;
    assert(at.skip(at.len() - tail.len()) =~= tail);
    assert(at.take(at.len() - tail.len()) =~= space);
}

proof fn lemma_last_piece(head: Seq<char>, name: Seq<char>)
    requires
        !name.contains('/'),
    ensures
        crate::text::split(head + seq!['/'] + name, '/').last() == name,
        crate::text::split(name, '/') == seq![name],
        crate::text::split(head + seq!['/'] + name, '/').len() > 0,
    decreases head.len(),
{
    let text = head + seq!['/'] + name;
    name.index_of_first_ensures('/');
    text.index_of_first_ensures('/');
    assert(text[head.len() as int] == '/');
    assert(text.contains('/'));
    let p = text.index_of_first('/')->0;
    if p > head.len() {
        assert(text.take(p)[head.len() as int] == '/');
        assert(text.take(p).contains('/'));
    }
    assert(crate::text::split(name, '/') == seq![name]);
    assert(crate::text::split(text, '/') == seq![text.take(p)] + crate::text::split(text.skip(p + 1), '/'));
    if p == head.len() {
        assert(text.skip(p + 1) =~= name);
        assert((seq![text.take(p)] + seq![name]).last() == name);
    } else {
        let rest = head.skip(p + 1);
        assert(text.skip(p + 1) =~= rest + seq!['/'] + name);
        lemma_last_piece(rest, name);
        let pieces = crate::text::split(rest + seq!['/'] + name, '/');
        assert((seq![text.take(p)] + pieces).last() == pieces.last());
    }
}

/// An instance gives out what it retains and nothing else: its active version, at its
/// selected point.
pub proof fn law_retained(a: AxesView, active: Version, selected: PointView, instant: Seq<char>)
    ensures
        retained(a, active, selected, instant) is Ok <==> (a.model is None || a.model == Some(version_text(active)))
            && a.data is None && !a.history,
{
}

/// Only a history that moves an instance forward, or leaves it where it is, is applied
/// by itself.
pub proof fn law_moves_forward(relation: ImportRelation)
    ensures
        moves_forward(relation) <==> !(relation == ImportRelation::Rollback || relation == ImportRelation::Merge || relation
            == ImportRelation::Unrelated),
{
}

} // verus!
