//! The host of module instances: who is mounted where, what may be installed, and
//! where a call to an instance goes.

use crate::cell::{copy_row, Row, RowView};
use crate::imports::{child_imports, imported, Projection};
use crate::install::{
    admitted, AdmittedBindings, AdmittedInstall, AdmittedView, BindingsView, InstallRequest, RequestView,
};
use crate::module_error::{ModuleError, ModuleErrorView};
use crate::order::Duplicate;
use crate::parent::{delegate, delegated, CallRequest, CallView};
use crate::space::{components_in, rows_along, ModuleSpace};
use crate::syntax::Expr;
use crate::text::{concat3, concat5, is_digit, join, join_texts, law_numeral, numeral, render_number, same_text};
use crate::update::EngineError;
use vstd::prelude::*;

verus! {

/// A mounted instance: the space and name it is mounted under, its incarnation, its
/// engine, its bindings, and whether it is enabled.
pub struct Child<E> {
    pub space: ModuleSpace,
    pub name: String,
    pub incarnation: String,
    pub engine: E,
    pub bindings: AdmittedBindings,
    pub enabled: bool,
}

/// What a [`Child`] denotes.
#[verifier::ext_equal]
pub struct ChildView<E> {
    pub space: Seq<char>,
    pub name: Seq<char>,
    pub incarnation: Seq<char>,
    pub engine: E,
    pub bindings: BindingsView,
    pub enabled: bool,
}

impl<E> View for Child<E> {
    type V = ChildView<E>;

    open spec fn view(&self) -> ChildView<E> {
        ChildView {
            space: self.space@,
            name: self.name@,
            incarnation: self.incarnation@,
            engine: self.engine,
            bindings: self.bindings@,
            enabled: self.enabled,
        }
    }
}

/// What a row of instances denotes.
pub open spec fn child_views<E>(children: Seq<Child<E>>) -> Seq<ChildView<E>> {
    Seq::new(children.len(), |i: int| children[i]@)
}

/// Whether an instance is mounted under this name in this space.
pub open spec fn is_at<E>(child: ChildView<E>, space: Seq<char>, name: Seq<char>) -> bool {
    child.space == space && child.name == name
}

/// The position of the first instance under this name in this space, from `from` on.
pub open spec fn mounted_from<E>(children: Seq<ChildView<E>>, space: Seq<char>, name: Seq<char>, from: nat) -> Option<int>
    decreases children.len() - from,
{
    if from >= children.len() {
        None
    } else if is_at(children[from as int], space, name) {
        Some(from as int)
    } else {
        mounted_from(children, space, name, from + 1)
    }
}

/// The position of the instance under this name in this space.
pub open spec fn position<E>(children: Seq<ChildView<E>>, space: Seq<char>, name: Seq<char>) -> Option<int> {
    mounted_from(children, space, name, 0)
}

/// The position of the enabled instance under this name in this space.
pub open spec fn enabled_position<E>(children: Seq<ChildView<E>>, space: Seq<char>, name: Seq<char>) -> Result<
    int,
    ModuleErrorView,
> {
    match position(children, space, name) {
        None => Err(ModuleErrorView::Unknown(name)),
        Some(i) => if children[i].enabled {
            Ok(i)
        } else {
            Err(ModuleErrorView::Disabled(name))
        },
    }
}

/// Whether no two instances are mounted under one name in one space.
pub open spec fn mounts_distinct<E>(children: Seq<ChildView<E>>) -> bool {
    forall|i: int, j: int|
        0 <= i < j < children.len() ==> !is_at(#[trigger] children[i], (#[trigger] children[j]).space, children[j].name)
}

/// A found position holds what was looked for, and where none is found nothing does.
pub proof fn lemma_position<E>(children: Seq<ChildView<E>>, space: Seq<char>, name: Seq<char>, from: nat)
    ensures
        match mounted_from(children, space, name, from) {
            Some(i) => from <= i < children.len() && is_at(children[i], space, name),
            None => forall|i: int| from <= i < children.len() ==> !is_at(#[trigger] children[i], space, name),
        },
    decreases children.len() - from,
{
    if from < children.len() && !is_at(children[from as int], space, name) {
        lemma_position(children, space, name, from + 1);
    }
}

/// A host: the root engine and the name of its instance, the mounted instances, and how
/// many incarnations it has named.
pub struct ModuleHost<E> {
    pub root: E,
    pub instance: String,
    pub children: Vec<Child<E>>,
    pub next_incarnation: u64,
}

/// What a [`ModuleHost`] denotes.
#[verifier::ext_equal]
pub struct HostView<E> {
    pub root: E,
    pub instance: Seq<char>,
    pub children: Seq<ChildView<E>>,
    pub next_incarnation: nat,
}

impl<E> View for ModuleHost<E> {
    type V = HostView<E>;

    open spec fn view(&self) -> HostView<E> {
        HostView {
            root: self.root,
            instance: self.instance@,
            children: child_views(self.children@),
            next_incarnation: self.next_incarnation as nat,
        }
    }
}

/// The incarnation of the `n`th instance a host names.
pub open spec fn incarnation_of(root: Seq<char>, n: nat, space: Seq<char>, name: Seq<char>) -> Seq<char> {
    root + "#m"@ + numeral(n) + "-"@ + (join(components_in(space), "."@) + "-"@ + name)
}

/// Whether an instance has one of the first `n` incarnations a host names.
pub open spec fn named_here<E>(child: ChildView<E>, root: Seq<char>, n: nat) -> bool {
    exists|k: nat, space: Seq<char>, name: Seq<char>|
        k < n && child.incarnation == #[trigger] incarnation_of(root, k, space, name)
}

/// Whether a host named the incarnation of every instance, and no two are the same.
pub open spec fn incarnations_apart<E>(h: HostView<E>) -> bool {
    &&& forall|i: int|
        0 <= i < h.children.len() ==> named_here(#[trigger] h.children[i], h.instance, h.next_incarnation)
    &&& forall|i: int, j: int|
        0 <= i < j < h.children.len() ==> (#[trigger] h.children[i]).incarnation != (
        #[trigger] h.children[j]).incarnation
}

proof fn lemma_same_incarnations<E>(before: HostView<E>, after: HostView<E>)
    requires
        incarnations_apart(before),
        after.instance == before.instance,
        after.next_incarnation == before.next_incarnation,
        after.children.len() == before.children.len(),
        forall|i: int|
            0 <= i < after.children.len() ==> (#[trigger] after.children[i]).incarnation
                == before.children[i].incarnation,
    ensures
        incarnations_apart(after),
{
    assert forall|i: int| 0 <= i < after.children.len() implies named_here(
        #[trigger] after.children[i],
        after.instance,
        after.next_incarnation,
    ) by {
        assert(named_here(before.children[i], before.instance, before.next_incarnation));
    }
    assert forall|i: int, j: int| 0 <= i < j < after.children.len() implies (
    #[trigger] after.children[i]).incarnation != (#[trigger] after.children[j]).incarnation by {
        assert(before.children[i].incarnation != before.children[j].incarnation);
    }
}

proof fn lemma_fewer_incarnations<E>(before: HostView<E>, after: HostView<E>, gone: int)
    requires
        incarnations_apart(before),
        after.instance == before.instance,
        after.next_incarnation == before.next_incarnation,
        0 <= gone < before.children.len(),
        after.children == before.children.remove(gone),
    ensures
        incarnations_apart(after),
{
    assert forall|i: int| 0 <= i < after.children.len() implies named_here(
        #[trigger] after.children[i],
        after.instance,
        after.next_incarnation,
    ) by {
        let x = if i < gone {
            i
        } else {
            i + 1
        };
        assert(named_here(before.children[x], before.instance, before.next_incarnation));
    }
    assert forall|i: int, j: int| 0 <= i < j < after.children.len() implies (
    #[trigger] after.children[i]).incarnation != (#[trigger] after.children[j]).incarnation by {
        let x = if i < gone {
            i
        } else {
            i + 1
        };
        let y = if j < gone {
            j
        } else {
            j + 1
        };
        assert(before.children[x].incarnation != before.children[y].incarnation);
    }
}

/// What a host names next is the incarnation of no instance.
proof fn lemma_next_apart<E>(h: HostView<E>, space: Seq<char>, name: Seq<char>)
    requires
        incarnations_apart(h),
    ensures
        forall|i: int|
            0 <= i < h.children.len() ==> (#[trigger] h.children[i]).incarnation != incarnation_of(
                h.instance,
                h.next_incarnation,
                space,
                name,
            ),
{
    assert forall|i: int| 0 <= i < h.children.len() implies (#[trigger] h.children[i]).incarnation != incarnation_of(
        h.instance,
        h.next_incarnation,
        space,
        name,
    ) by {
        assert(named_here(h.children[i], h.instance, h.next_incarnation));
        let (k, s, n) = choose|k: nat, s: Seq<char>, n: Seq<char>|
            k < h.next_incarnation && h.children[i].incarnation == #[trigger] incarnation_of(h.instance, k, s, n);
        law_incarnations_distinct(h.instance, k, h.next_incarnation, s, n, space, name);
    }
}

/// An interface a space declares: its name, and the fields its view must provide with
/// their types.
pub struct Contract {
    pub name: String,
    pub view_fields: Vec<(String, String)>,
}

/// Whether these fields include one of this name and type.
pub open spec fn provides(fields: Seq<(String, String)>, name: Seq<char>, ty: Seq<char>) -> bool {
    exists|i: int| 0 <= i < fields.len() && #[trigger] fields[i].0@ == name && fields[i].1@ == ty
}

/// The first declared field that is not provided.
pub open spec fn first_unmet(declared: Seq<(String, String)>, provided: Seq<(String, String)>) -> Option<Seq<char>>
    decreases declared.len(),
{
    if declared.len() == 0 {
        None
    } else if !provides(provided, declared[0].0@, declared[0].1@) {
        Some(declared[0].0@)
    } else {
        first_unmet(declared.drop_first(), provided)
    }
}

/// Whether what an instance exposes meets the interfaces from `from` on. An interface
/// without a view has nothing to meet.
pub open spec fn contracts_met(
    contracts: Seq<Contract>,
    exposed: Seq<Option<Vec<(String, String)>>>,
    from: nat,
) -> Result<(), ModuleErrorView>
    decreases contracts.len() - from,
{
    if from >= contracts.len() {
        Ok(())
    } else {
        let declared = contracts[from as int].view_fields@;
        match exposed[from as int] {
            None if declared.len() > 0 => Err(
                ModuleErrorView::InterfaceContract(
                    contracts[from as int].name@,
                    "the interface is not exposed"@,
                ),
            ),
            Some(provided) if first_unmet(declared, provided@) is Some => Err(
                ModuleErrorView::InterfaceContract(
                    contracts[from as int].name@,
                    "the exposed view does not provide field `"@ + first_unmet(declared, provided@)->0
                        + "` with the declared type"@,
                ),
            ),
            _ => contracts_met(contracts, exposed, from + 1),
        }
    }
}

/// Why a definition could not be loaded.
pub enum LoadError {
    /// The configuration does not match.
    Mismatch(String),
    Engine(EngineError),
}

/// What the steps of an installation came to outside the host: whether the root
/// declares the space and the interfaces it asks for, whether the containing row
/// exists, what the parent surfaces project to, the new store, the loaded engine, what
/// it exposes for each declared interface, and the engine once the given data was laid
/// over it.
pub struct InstallWork<E> {
    pub contracts: Option<Vec<Contract>>,
    pub live: Result<bool, EngineError>,
    pub projections: Vec<Projection>,
    pub store: Result<(), EngineError>,
    pub loaded: Result<E, LoadError>,
    pub exposed: Vec<Option<Vec<(String, String)>>>,
    pub overlaid: Option<Result<E, EngineError>>,
}

impl<E> InstallWork<E> {
    /// Whether the work covers a request.
    pub open spec fn ready(self, r: RequestView) -> bool {
        &&& self.projections@.len() == r.bindings.uses.len()
        &&& self.contracts matches Some(contracts) ==> contracts@.len() == self.exposed@.len()
        &&& r.data is Some ==> self.overlaid is Some
    }
}

/// Whether the row a space is in exists; a space the root does not declare asks for
/// none.
pub open spec fn row_checked<E>(space: Seq<char>, work: InstallWork<E>) -> Result<(), ModuleErrorView> {
    if work.contracts is None {
        Ok(())
    } else if rows_along(space) is None {
        Err(ModuleErrorView::MissingContainingRow(space))
    } else {
        match work.live {
            Err(e) => Err(ModuleErrorView::Engine(e@)),
            Ok(true) => Ok(()),
            Ok(false) => Err(ModuleErrorView::MissingContainingRow(space)),
        }
    }
}

/// The checks before an incarnation is named: the request, the containing row, the
/// name, and the imports.
pub open spec fn may_install<E>(h: HostView<E>, space: Seq<char>, r: RequestView, work: InstallWork<E>) -> Result<
    AdmittedView,
    ModuleErrorView,
> {
    match admitted(r) {
        Err(e) => Err(e),
        Ok(a) => match row_checked(space, work) {
            Err(e) => Err(e),
            Ok(_) => if position(h.children, space, a.name) is Some {
                Err(ModuleErrorView::DuplicateName(a.name))
            } else {
                match imported(a.bindings.uses, work.projections@, a.bindings.uses.len()) {
                    Err(e) => Err(e),
                    Ok(_) => Ok(a),
                }
            },
        },
    }
}

/// The engine an installation ends with: the store is made, the definition loads, its
/// interfaces are met, and given data is laid over it.
pub open spec fn engine_ready<E>(a: AdmittedView, work: InstallWork<E>) -> Result<E, ModuleErrorView> {
    match (work.store, work.loaded) {
        (Err(e), _) => Err(ModuleErrorView::Engine(e@)),
        (Ok(_), Err(LoadError::Mismatch(m))) => Err(ModuleErrorView::ConfigMismatch(m@)),
        (Ok(_), Err(LoadError::Engine(e))) => Err(ModuleErrorView::Engine(e@)),
        (Ok(_), Ok(engine)) => {
            let met = match work.contracts {
                Some(contracts) => contracts_met(contracts@, work.exposed@, 0),
                None => Ok(()),
            };
            match met {
                Err(e) => Err(e),
                Ok(_) => match a.data {
                    None => Ok(engine),
                    Some(_) => match work.overlaid {
                        Some(Ok(done)) => Ok(done),
                        Some(Err(e)) => Err(ModuleErrorView::Engine(e@)),
                        None => Ok(engine),
                    },
                },
            }
        },
    }
}

/// What an installation comes to: the host afterwards, and the incarnation or the
/// refusal.
pub open spec fn installed<E>(
    h: HostView<E>,
    space: Seq<char>,
    r: RequestView,
    work: InstallWork<E>,
) -> (HostView<E>, Result<Seq<char>, ModuleErrorView>) {
    match may_install(h, space, r, work) {
        Err(e) => (h, Err(e)),
        Ok(a) => {
            let named = HostView { next_incarnation: h.next_incarnation + 1, ..h };
            let incarnation = incarnation_of(h.instance, h.next_incarnation, space, a.name);
            match engine_ready(a, work) {
                Err(e) => (named, Err(e)),
                Ok(engine) => (
                    HostView {
                        children: h.children.push(
                            ChildView {
                                space,
                                name: a.name,
                                incarnation,
                                engine,
                                bindings: a.bindings,
                                enabled: true,
                            },
                        ),
                        ..named
                    },
                    Ok(incarnation),
                ),
            }
        },
    }
}

fn find_unmet(declared: &Vec<(String, String)>, provided: &Vec<(String, String)>) -> (r: Option<usize>)
    ensures
        match r {
            Some(i) => i < declared@.len() && first_unmet(declared@, provided@) == Some(declared@[i as int].0@),
            None => first_unmet(declared@, provided@) is None,
        },
{
    let mut i: usize = 0;
    proof {
        assert(declared@.skip(0) =~= declared@);
    }
    while i < declared.len()
        invariant
            i <= declared@.len(),
            first_unmet(declared@, provided@) == first_unmet(declared@.skip(i as int), provided@),
        decreases declared@.len() - i,
    {
        let mut met = false;
        let mut j: usize = 0;
        while j < provided.len()
            invariant
                i < declared@.len(),
                j <= provided@.len(),
                met == exists|k: int|
                    0 <= k < j && #[trigger] provided@[k].0@ == declared@[i as int].0@ && provided@[k].1@
                        == declared@[i as int].1@,
            decreases provided@.len() - j,
        {
            if same_text(provided[j].0.as_str(), declared[i].0.as_str()) && same_text(
                provided[j].1.as_str(),
                declared[i].1.as_str(),
            ) {
                met = true;
                proof {
                    assert(provided@[j as int].0@ == declared@[i as int].0@);
                }
            }
            j = j + 1;
        }
        if !met {
            return Some(i);
        }
        proof {
            assert(provides(provided@, declared@[i as int].0@, declared@[i as int].1@));
            assert(declared@.skip(i as int).drop_first() =~= declared@.skip(i + 1));
        }
        i = i + 1;
    }
    None
}

/// Check that what an instance exposes meets the interfaces its space declares.
pub fn check_interface_contracts(contracts: &Vec<Contract>, exposed: &Vec<Option<Vec<(String, String)>>>) -> (r: Result<
    (),
    ModuleError,
>)
    requires
        contracts@.len() == exposed@.len(),
    ensures
        match (r, contracts_met(contracts@, exposed@, 0)) {
            (Ok(_), Ok(_)) => true,
            (Err(e), Err(x)) => e@ == x,
            _ => false,
        },
{
    let n: usize = contracts.len();
    let mut i: usize = 0;
    while i < n
        invariant
            n == contracts@.len(),
            n == exposed@.len(),
            i <= n,
            contracts_met(contracts@, exposed@, 0) == contracts_met(contracts@, exposed@, i as nat),
        decreases n - i,
    {
        let declared = &contracts[i].view_fields;
        match &exposed[i] {
            None => {
                if declared.len() > 0 {
                    return Err(
                        ModuleError::InterfaceContract(
                            contracts[i].name.clone(),
                            String::from_str("the interface is not exposed"),
                        ),
                    );
                }
            },
            Some(provided) => {
                if let Some(k) = find_unmet(declared, provided) {
                    let why = concat3(
                        "the exposed view does not provide field `",
                        declared[k].0.as_str(),
                        "` with the declared type",
                    );
                    return Err(ModuleError::InterfaceContract(contracts[i].name.clone(), why));
                }
            },
        }
        i = i + 1;
    }
    Ok(())
}

fn check_containing_row<E>(space: &ModuleSpace, work: &InstallWork<E>) -> (r: Result<(), ModuleError>)
    ensures
        match (r, row_checked(space@, *work)) {
            (Ok(_), Ok(_)) => true,
            (Err(e), Err(x)) => e@ == x,
            _ => false,
        },
{
    if work.contracts.is_none() {
        return Ok(());
    }
    if space.containing_row_steps().is_none() {
        return Err(ModuleError::MissingContainingRow(String::from_str(space.as_str())));
    }
    match &work.live {
        Err(e) => Err(ModuleError::Engine(e.duplicate())),
        Ok(true) => Ok(()),
        Ok(false) => Err(ModuleError::MissingContainingRow(String::from_str(space.as_str()))),
    }
}

fn ready_engine<E>(a: &AdmittedInstall, work: InstallWork<E>) -> (r: Result<E, ModuleError>)
    requires
        work.contracts matches Some(contracts) ==> contracts@.len() == work.exposed@.len(),
    ensures
        match (r, engine_ready(a@, work)) {
            (Ok(engine), Ok(x)) => engine == x,
            (Err(e), Err(x)) => e@ == x,
            _ => false,
        },
{
    if let Err(e) = work.store {
        return Err(ModuleError::Engine(e));
    }
    let engine = match work.loaded {
        Ok(engine) => engine,
        Err(LoadError::Mismatch(m)) => {
            return Err(ModuleError::ConfigMismatch(m));
        },
        Err(LoadError::Engine(e)) => {
            return Err(ModuleError::Engine(e));
        },
    };
    if let Some(contracts) = &work.contracts {
        check_interface_contracts(contracts, &work.exposed)?;
    }
    if a.data.is_none() {
        return Ok(engine);
    }
    match work.overlaid {
        Some(Ok(done)) => Ok(done),
        Some(Err(e)) => Err(ModuleError::Engine(e)),
        None => Ok(engine),
    }
}

/// A row an interface of an instance shows.
pub struct InterfaceRow {
    pub instance: String,
    pub row: Row,
}

impl View for InterfaceRow {
    type V = (Seq<char>, RowView);

    open spec fn view(&self) -> (Seq<char>, RowView) {
        (self.instance@, self.row@)
    }
}

/// What a row of interface rows denotes.
pub open spec fn interface_views(rows: Seq<InterfaceRow>) -> Seq<(Seq<char>, RowView)> {
    Seq::new(rows.len(), |i: int| rows[i]@)
}

/// What reading an interface of an instance came to; nothing where it declares no
/// such interface.
pub type InterfaceRead = Result<Option<Vec<Row>>, EngineError>;

/// The rows an interface shows over the first `n` instances: those of each enabled
/// instance in the space, in the order they were installed.
pub open spec fn aggregated<E>(children: Seq<ChildView<E>>, space: Seq<char>, reads: Seq<InterfaceRead>, n: nat) -> Result<
    Seq<(Seq<char>, RowView)>,
    ModuleErrorView,
>
    decreases n,
{
    if n == 0 {
        Ok(Seq::empty())
    } else {
        let child = children[n - 1];
        match aggregated(children, space, reads, (n - 1) as nat) {
            Err(e) => Err(e),
            Ok(done) => if child.space == space && child.enabled {
                match reads[n - 1] {
                    Err(e) => Err(ModuleErrorView::Engine(e@)),
                    Ok(None) => Ok(done),
                    Ok(Some(rows)) => Ok(
                        done + Seq::new(rows@.len(), |i: int| (child.name, rows@[i]@)),
                    ),
                }
            } else {
                Ok(done)
            },
        }
    }
}

/// A failed read fails the aggregation.
proof fn lemma_aggregate_failure<E>(
    children: Seq<ChildView<E>>,
    space: Seq<char>,
    reads: Seq<InterfaceRead>,
    n: nat,
    m: nat,
)
    requires
        n <= m,
        aggregated(children, space, reads, n) is Err,
    ensures
        aggregated(children, space, reads, m) == aggregated(children, space, reads, n),
    decreases m,
{
    if n < m {
        lemma_aggregate_failure(children, space, reads, n, (m - 1) as nat);
    }
}

/// Where a call to an exposed mutation goes.
pub enum Route {
    /// To a mutation of the instance itself.
    Child(CallRequest),
    /// To a mutation of the row that contains it.
    Parent(CallRequest),
}

/// What a [`Route`] denotes.
#[verifier::ext_equal]
pub enum RouteView {
    Child(CallView),
    Parent(CallView),
}

impl View for Route {
    type V = RouteView;

    open spec fn view(&self) -> RouteView {
        match self {
            Route::Child(c) => RouteView::Child(c@),
            Route::Parent(c) => RouteView::Parent(c@),
        }
    }
}

/// An exposed mutation: the interface and name it is called by, the private mutation
/// it is bound to if it is bound to one, and what its binding reads as otherwise.
pub struct ExposedMutation {
    pub interface: String,
    pub mutation: String,
    pub private: Option<String>,
    pub binding: Option<Expr>,
}

/// Where a call goes: to the private mutation, or to the parent surface the binding
/// delegates to.
pub open spec fn routed<E>(
    children: Seq<ChildView<E>>,
    space: Seq<char>,
    name: Seq<char>,
    exposed: ExposedMutation,
    request: CallView,
    projections: Seq<Projection>,
) -> Result<RouteView, ModuleErrorView> {
    match enabled_position(children, space, name) {
        Err(e) => Err(e),
        Ok(i) => match exposed.private {
            Some(m) => Ok(RouteView::Child(CallView { mutation: m@, ..request })),
            None => match delegated(space, children[i].bindings.uses, exposed.binding, request.args, projections) {
                Err(e) => Err(e),
                Ok(Some(c)) => Ok(RouteView::Parent(c)),
                Ok(None) => Err(
                    ModuleErrorView::InterfaceContract(
                        exposed.interface@,
                        "interface binds no routable mutation `"@ + exposed.mutation@ + "`"@,
                    ),
                ),
            },
        },
    }
}

/// Whether a request that goes through an enabled instance was settled as it has to be:
/// an instance that is not there, or not enabled, answers nothing.
pub open spec fn through_child<E, T>(
    children: Seq<ChildView<E>>,
    space: Seq<char>,
    name: Seq<char>,
    answer: Result<T, EngineError>,
    r: Result<T, ModuleError>,
) -> bool {
    match (r, enabled_position(children, space, name), answer) {
        (Err(e), Err(x), _) => e@ == x,
        (Ok(t), Ok(_), Ok(x)) => t == x,
        (Err(e), Ok(_), Err(x)) => e@ == ModuleErrorView::Engine(x@),
        _ => false,
    }
}

impl<E> ModuleHost<E> {
    /// Whether no two instances are mounted under one name in one space, and the host
    /// named each an incarnation of its own.
    pub open spec fn ok(self) -> bool {
        mounts_distinct(self@.children) && incarnations_apart(self@)
    }

    /// A host without instances, over the root engine of an instance of this name.
    pub fn new(root: E, instance: String) -> (r: ModuleHost<E>)
        ensures
            r@ == (HostView {
                root,
                instance: instance@,
                children: Seq::<ChildView<E>>::empty(),
                next_incarnation: 0,
            }),
            r.ok(),
    {
        let r = ModuleHost { root, instance, children: Vec::new(), next_incarnation: 0 };
        proof {
            assert(r@.children =~= Seq::<ChildView<E>>::empty());
        }
        r
    }

    /// The root engine.
    pub fn root(&self) -> (r: &E)
        ensures
            *r == self@.root,
    {
        &self.root
    }

    /// The root engine, to admit root requests.
    pub fn root_mut(&mut self) -> (r: &mut E)
        ensures
            *r == old(self)@.root,
            final(self)@ == (HostView { root: *final(r), ..old(self)@ }),
    {
        &mut self.root
    }

    /// Settle a call to an enabled instance by what its engine answered.
    pub fn child_call<T>(&self, space: &ModuleSpace, name: &str, answer: Result<T, EngineError>) -> (r: Result<
        T,
        ModuleError,
    >)
        ensures
            through_child(self@.children, space@, name@, answer, r),
    {
        match self.enabled_child(space, name) {
            Err(e) => Err(e),
            Ok(_) => match answer {
                Ok(t) => Ok(t),
                Err(e) => Err(ModuleError::Engine(e)),
            },
        }
    }

    /// Settle a read of a view of an enabled instance by what its engine answered.
    pub fn child_view<T>(&self, space: &ModuleSpace, name: &str, answer: Result<Option<T>, EngineError>) -> (r: Result<
        Option<T>,
        ModuleError,
    >)
        ensures
            through_child(self@.children, space@, name@, answer, r),
    {
        self.child_call(space, name, answer)
    }

    /// Settle a read of an interface an enabled instance exposes: what it imports has
    /// to resolve first.
    pub fn interface_read<T>(
        &self,
        space: &ModuleSpace,
        name: &str,
        imports: Result<(), ModuleError>,
        answer: Result<Option<T>, EngineError>,
    ) -> (r: Result<Option<T>, ModuleError>)
        ensures
            match (enabled_position(self@.children, space@, name@), imports) {
                (Ok(_), Err(x)) => r matches Err(e) && e@ == x@,
                _ => through_child(self@.children, space@, name@, answer, r),
            },
    {
        if let Err(e) = self.enabled_child(space, name) {
            return Err(e);
        }
        match imports {
            Err(e) => Err(e),
            Ok(_) => self.child_call(space, name, answer),
        }
    }

    /// Settle a read of a root view: the instances it reads have to be gathered, and the
    /// head of the root read, before the view is evaluated.
    pub fn root_view<T>(
        &self,
        aggregate: Result<(), ModuleError>,
        head: Result<u64, EngineError>,
        answer: Result<Option<T>, EngineError>,
    ) -> (r: Result<Option<T>, ModuleError>)
        ensures
            match (aggregate, head, answer, r) {
                (Err(x), _, _, Err(e)) => e@ == x@,
                (Ok(_), Err(x), _, Err(e)) => e@ == ModuleErrorView::Engine(x@),
                (Ok(_), Ok(_), Err(x), Err(e)) => e@ == ModuleErrorView::Engine(x@),
                (Ok(_), Ok(_), Ok(x), Ok(t)) => t == x,
                _ => false,
            },
    {
        if let Err(e) = aggregate {
            return Err(e);
        }
        if let Err(e) = head {
            return Err(ModuleError::Engine(e));
        }
        match answer {
            Ok(t) => Ok(t),
            Err(e) => Err(ModuleError::Engine(e)),
        }
    }

    fn find(&self, space: &ModuleSpace, name: &str) -> (r: Option<usize>)
        ensures
            match r {
                Some(i) => i < self.children@.len() && position(self@.children, space@, name@) == Some(i as int),
                None => position(self@.children, space@, name@) is None,
            },
    {
        let ghost all = self@.children;
        let mut i: usize = 0;
        while i < self.children.len()
            invariant
                all == child_views(self.children@),
                i <= self.children@.len(),
                position(all, space@, name@) == mounted_from(all, space@, name@, i as nat),
            decreases self.children@.len() - i,
        {
            proof {
                assert(all[i as int] == self.children@[i as int]@);
            }
            if self.children[i].space.same(space) && same_text(self.children[i].name.as_str(), name) {
                return Some(i);
            }
            i = i + 1;
        }
        None
    }

    /// Find the enabled instance under this name in this space.
    pub fn enabled_child(&self, space: &ModuleSpace, name: &str) -> (r: Result<usize, ModuleError>)
        ensures
            match (r, enabled_position(self@.children, space@, name@)) {
                (Ok(i), Ok(x)) => i == x && i < self.children@.len(),
                (Err(e), Err(x)) => e@ == x,
                _ => false,
            },
    {
        match self.find(space, name) {
            None => Err(ModuleError::Unknown(String::from_str(name))),
            Some(i) => {
                proof {
                    assert(self@.children[i as int] == self.children@[i as int]@);
                }
                if self.children[i].enabled {
                    Ok(i)
                } else {
                    Err(ModuleError::Disabled(String::from_str(name)))
                }
            },
        }
    }

    /// Whether an instance is mounted under this name in this space.
    pub fn is_installed(&self, space: &ModuleSpace, name: &str) -> (r: bool)
        ensures
            r == (position(self@.children, space@, name@) is Some),
    {
        self.find(space, name).is_some()
    }

    /// Whether an enabled instance is mounted under this name in this space.
    pub fn is_enabled(&self, space: &ModuleSpace, name: &str) -> (r: bool)
        ensures
            r == (enabled_position(self@.children, space@, name@) is Ok),
    {
        self.enabled_child(space, name).is_ok()
    }

    /// The incarnation of the instance under this name in this space.
    pub fn incarnation(&self, space: &ModuleSpace, name: &str) -> (r: Option<&String>)
        ensures
            match (r, position(self@.children, space@, name@)) {
                (Some(t), Some(i)) => t@ == self@.children[i].incarnation,
                (None, None) => true,
                _ => false,
            },
    {
        match self.find(space, name) {
            Some(i) => Some(&self.children[i].incarnation),
            None => None,
        }
    }

    /// The bindings of the instance under this name in this space.
    pub fn bindings(&self, space: &ModuleSpace, name: &str) -> (r: Option<&AdmittedBindings>)
        ensures
            match (r, position(self@.children, space@, name@)) {
                (Some(b), Some(i)) => b@ == self@.children[i].bindings,
                (None, None) => true,
                _ => false,
            },
    {
        match self.find(space, name) {
            Some(i) => Some(&self.children[i].bindings),
            None => None,
        }
    }

    fn mint_incarnation(&mut self, space: &ModuleSpace, name: &str) -> (r: String)
        requires
            old(self).next_incarnation < u64::MAX,
        ensures
            r@ == incarnation_of(old(self)@.instance, old(self)@.next_incarnation, space@, name@),
            final(self)@ == (HostView { next_incarnation: old(self)@.next_incarnation + 1, ..old(self)@ }),
            final(self).children@ == old(self).children@,
    {
        let number = render_number(self.next_incarnation as u128);
        let place = join_texts(space.components(), ".");
        let tail = concat3(place.as_str(), "-", name);
        let token = concat5(self.instance.as_str(), "#m", number.as_str(), "-", tail.as_str());
        self.next_incarnation = self.next_incarnation + 1;
        token
    }

    /// Install an instance in a space, given what the steps outside the host came to. Its
    /// incarnation is that of no other instance.
    pub fn install(&mut self, space: &ModuleSpace, request: InstallRequest, work: InstallWork<E>) -> (r: Result<
        String,
        ModuleError,
    >)
        requires
            old(self).ok(),
            old(self).next_incarnation < u64::MAX,
            work.ready(request@),
        ensures
            final(self).ok(),
            final(self)@ == installed(old(self)@, space@, request@, work).0,
            r matches Ok(t) ==> forall|i: int|
                0 <= i < old(self)@.children.len() ==> (#[trigger] old(self)@.children[i]).incarnation != t@,
            match (r, installed(old(self)@, space@, request@, work).1) {
                (Ok(t), Ok(x)) => t@ == x,
                (Err(e), Err(x)) => e@ == x,
                _ => false,
            },
    {
        let ghost host = self@;
        let accepted = request.accept()?;
        check_containing_row(space, &work)?;
        if self.find(space, accepted.name.as_str()).is_some() {
            return Err(ModuleError::DuplicateName(accepted.name));
        }
        child_imports(&accepted.bindings, &work.projections)?;
        let incarnation = self.mint_incarnation(space, accepted.name.as_str());
        let ghost named = incarnation@;
        proof {
            lemma_next_apart(host, space@, accepted.name@);
            assert forall|i: int| 0 <= i < self@.children.len() implies named_here(
                #[trigger] self@.children[i],
                self@.instance,
                self@.next_incarnation,
            ) by {
                assert(named_here(host.children[i], host.instance, host.next_incarnation));
            }
        }
        let engine = ready_engine(&accepted, work)?;
        let token = incarnation.clone();
        let child = Child {
            space: space.copy(),
            name: accepted.name,
            incarnation,
            engine,
            bindings: accepted.bindings,
            enabled: true,
        };
        let ghost before = self@.children;
        self.children.push(child);
        proof {
            assert(self@.children =~= before.push(child@));
            lemma_position(before, child@.space, child@.name, 0);
            assert forall|i: int, j: int| 0 <= i < j < self@.children.len() implies !is_at(
                #[trigger] self@.children[i],
                (#[trigger] self@.children[j]).space,
                self@.children[j].name,
            ) by {
                if j == before.len() {
                    assert(before[i] == self@.children[i]);
                } else {
                    assert(before[i] == self@.children[i] && before[j] == self@.children[j]);
                }
            }
            assert forall|i: int| 0 <= i < self@.children.len() implies named_here(
                #[trigger] self@.children[i],
                self@.instance,
                self@.next_incarnation,
            ) by {
                if i < before.len() {
                    assert(before[i] == self@.children[i]);
                    assert(named_here(host.children[i], host.instance, host.next_incarnation));
                } else {
                    assert(self@.children[i].incarnation == incarnation_of(
                        self@.instance,
                        host.next_incarnation,
                        space@,
                        child@.name,
                    ));
                }
            }
            assert forall|i: int, j: int| 0 <= i < j < self@.children.len() implies (
            #[trigger] self@.children[i]).incarnation != (#[trigger] self@.children[j]).incarnation by {
                assert(before[i] == self@.children[i]);
                if j < before.len() {
                    assert(before[j] == self@.children[j]);
                } else {
                    assert(host.children[i].incarnation != named);
                }
            }
        }
        Ok(token)
    }

    fn set_enabled(&mut self, space: &ModuleSpace, name: &str, enabled: bool) -> (r: Result<(), ModuleError>)
        requires
            old(self).ok(),
        ensures
            final(self).ok(),
            match (r, position(old(self)@.children, space@, name@)) {
                (Ok(_), Some(i)) => final(self)@ == (HostView {
                    children: old(self)@.children.update(
                        i,
                        ChildView { enabled, ..old(self)@.children[i] },
                    ),
                    ..old(self)@
                }),
                (Err(e), None) => e@ == ModuleErrorView::Unknown(name@) && final(self)@ == old(self)@,
                _ => false,
            },
    {
        let ghost start = self@;
        match self.find(space, name) {
            None => Err(ModuleError::Unknown(String::from_str(name))),
            Some(i) => {
                self.children[i].enabled = enabled;
                proof {
                    assert(self@.children =~= start.children.update(
                        i as int,
                        ChildView { enabled, ..start.children[i as int] },
                    ));
                    assert forall|a: int, b: int| 0 <= a < b < self@.children.len() implies !is_at(
                        #[trigger] self@.children[a],
                        (#[trigger] self@.children[b]).space,
                        self@.children[b].name,
                    ) by {
                        assert(!is_at(start.children[a], start.children[b].space, start.children[b].name));
                    }
                    lemma_same_incarnations(start, self@);
                }
                Ok(())
            },
        }
    }

    /// Disable an instance: it keeps its engine, its bindings and its incarnation.
    pub fn disable(&mut self, space: &ModuleSpace, name: &str) -> (r: Result<(), ModuleError>)
        requires
            old(self).ok(),
        ensures
            final(self).ok(),
            match (r, position(old(self)@.children, space@, name@)) {
                (Ok(_), Some(i)) => final(self)@ == (HostView {
                    children: old(self)@.children.update(
                        i,
                        ChildView { enabled: false, ..old(self)@.children[i] },
                    ),
                    ..old(self)@
                }),
                (Err(e), None) => e@ == ModuleErrorView::Unknown(name@) && final(self)@ == old(self)@,
                _ => false,
            },
    {
        self.set_enabled(space, name, false)
    }

    /// Enable an instance.
    pub fn enable(&mut self, space: &ModuleSpace, name: &str) -> (r: Result<(), ModuleError>)
        requires
            old(self).ok(),
        ensures
            final(self).ok(),
            match (r, position(old(self)@.children, space@, name@)) {
                (Ok(_), Some(i)) => final(self)@ == (HostView {
                    children: old(self)@.children.update(
                        i,
                        ChildView { enabled: true, ..old(self)@.children[i] },
                    ),
                    ..old(self)@
                }),
                (Err(e), None) => e@ == ModuleErrorView::Unknown(name@) && final(self)@ == old(self)@,
                _ => false,
            },
    {
        self.set_enabled(space, name, true)
    }

    /// Remove an instance.
    pub fn uninstall(&mut self, space: &ModuleSpace, name: &str) -> (r: Result<(), ModuleError>)
        requires
            old(self).ok(),
        ensures
            final(self).ok(),
            match (r, position(old(self)@.children, space@, name@)) {
                (Ok(_), Some(i)) => final(self)@ == (HostView {
                    children: old(self)@.children.remove(i),
                    ..old(self)@
                }),
                (Err(e), None) => e@ == ModuleErrorView::Unknown(name@) && final(self)@ == old(self)@,
                _ => false,
            },
    {
        let ghost start = self@;
        match self.find(space, name) {
            None => Err(ModuleError::Unknown(String::from_str(name))),
            Some(i) => {
                let _gone = self.children.remove(i);
                proof {
                    assert(self@.children =~= start.children.remove(i as int));
                    assert forall|a: int, b: int| 0 <= a < b < self@.children.len() implies !is_at(
                        #[trigger] self@.children[a],
                        (#[trigger] self@.children[b]).space,
                        self@.children[b].name,
                    ) by {
                        let x = if a < i {
                            a
                        } else {
                            a + 1
                        };
                        let y = if b < i {
                            b
                        } else {
                            b + 1
                        };
                        assert(!is_at(start.children[x], start.children[y].space, start.children[y].name));
                    }
                    lemma_fewer_incarnations(start, self@, i as int);
                }
                Ok(())
            },
        }
    }

    /// Rename an instance within its space: it keeps its incarnation.
    pub fn rename(&mut self, space: &ModuleSpace, from: &str, to: &str) -> (r: Result<(), ModuleError>)
        requires
            old(self).ok(),
        ensures
            final(self).ok(),
            match (r, position(old(self)@.children, space@, to@), position(old(self)@.children, space@, from@)) {
                (Err(e), Some(_), _) => e@ == ModuleErrorView::DuplicateName(to@) && final(self)@ == old(self)@,
                (Err(e), None, None) => e@ == ModuleErrorView::Unknown(from@) && final(self)@ == old(self)@,
                (Ok(_), None, Some(i)) => final(self)@ == (HostView {
                    children: old(self)@.children.update(i, ChildView { name: to@, ..old(self)@.children[i] }),
                    ..old(self)@
                }),
                _ => false,
            },
    {
        let ghost start = self@;
        if self.find(space, to).is_some() {
            return Err(ModuleError::DuplicateName(String::from_str(to)));
        }
        match self.find(space, from) {
            None => Err(ModuleError::Unknown(String::from_str(from))),
            Some(i) => {
                self.children[i].name = String::from_str(to);
                proof {
                    assert(self@.children =~= start.children.update(
                        i as int,
                        ChildView { name: to@, ..start.children[i as int] },
                    ));
                    lemma_position(start.children, space@, to@, 0);
                    lemma_position(start.children, space@, from@, 0);
                    assert forall|a: int, b: int| 0 <= a < b < self@.children.len() implies !is_at(
                        #[trigger] self@.children[a],
                        (#[trigger] self@.children[b]).space,
                        self@.children[b].name,
                    ) by {
                        assert(!is_at(start.children[a], start.children[b].space, start.children[b].name));
                        assert(!is_at(start.children[a], space@, to@));
                        assert(!is_at(start.children[b], space@, to@));
                    }
                    lemma_same_incarnations(start, self@);
                }
                Ok(())
            },
        }
    }

    /// The call a delegating mutation of an instance makes on the row that contains
    /// it, given what the binding reads as and what each handle's surface projects to.
    pub fn parent_mutation_request(
        &self,
        space: &ModuleSpace,
        name: &str,
        binding: &Option<Expr>,
        request: &CallRequest,
        projections: &Vec<Projection>,
    ) -> (r: Result<Option<CallRequest>, ModuleError>)
        requires
            enabled_position(self@.children, space@, name@) matches Ok(i) ==> projections@.len()
                == self@.children[i].bindings.uses.len(),
        ensures
            match enabled_position(self@.children, space@, name@) {
                Err(x) => r matches Err(e) && e@ == x,
                Ok(i) => match (r, delegated(
                    space@,
                    self@.children[i].bindings.uses,
                    *binding,
                    request@.args,
                    projections@,
                )) {
                    (Ok(None), Ok(None)) => true,
                    (Ok(Some(c)), Ok(Some(x))) => c@ == x,
                    (Err(e), Err(x)) => e@ == x,
                    _ => false,
                },
            },
    {
        let i: usize = self.enabled_child(space, name)?;
        proof {
            assert(self@.children[i as int] == self.children@[i as int]@);
        }
        delegate(space, &self.children[i].bindings.uses, binding, &request.args, projections)
    }

    /// Find where a call to an exposed mutation of an instance goes.
    pub fn interface_call(
        &self,
        space: &ModuleSpace,
        name: &str,
        exposed: &ExposedMutation,
        request: CallRequest,
        projections: &Vec<Projection>,
    ) -> (r: Result<Route, ModuleError>)
        requires
            enabled_position(self@.children, space@, name@) matches Ok(i) ==> projections@.len()
                == self@.children[i].bindings.uses.len(),
        ensures
            match (r, routed(self@.children, space@, name@, *exposed, request@, projections@)) {
                (Ok(route), Ok(x)) => route@ == x,
                (Err(e), Err(x)) => e@ == x,
                _ => false,
            },
    {
        let _i: usize = self.enabled_child(space, name)?;
        if let Some(m) = &exposed.private {
            return Ok(
                Route::Child(CallRequest { mutation: m.clone(), receiver: request.receiver, args: request.args }),
            );
        }
        match self.parent_mutation_request(space, name, &exposed.binding, &request, projections)? {
            Some(c) => Ok(Route::Parent(c)),
            None => {
                let why = concat3("interface binds no routable mutation `", exposed.mutation.as_str(), "`");
                Err(ModuleError::InterfaceContract(exposed.interface.clone(), why))
            },
        }
    }

    /// Gather the rows an interface shows over every enabled instance in a space, given
    /// what reading it from each instance came to.
    pub fn aggregate(&self, space: &ModuleSpace, reads: &Vec<InterfaceRead>) -> (r: Result<Vec<InterfaceRow>, ModuleError>)
        requires
            reads@.len() == self@.children.len(),
        ensures
            match (r, aggregated(self@.children, space@, reads@, self@.children.len())) {
                (Ok(rows), Ok(x)) => interface_views(rows@) == x,
                (Err(e), Err(x)) => e@ == x,
                _ => false,
            },
    {
        let ghost all = self@.children;
        let n: usize = self.children.len();
        let mut rows: Vec<InterfaceRow> = Vec::new();
        let mut i: usize = 0;
        proof {
            assert(interface_views(rows@) =~= Seq::empty());
        }
        while i < n
            invariant
                n == self.children@.len(),
                all == self@.children,
                all == child_views(self.children@),
                reads@.len() == n,
                i <= n,
                aggregated(all, space@, reads@, i as nat) == Ok::<Seq<(Seq<char>, RowView)>, ModuleErrorView>(
                    interface_views(rows@),
                ),
            decreases n - i,
        {
            let child = &self.children[i];
            proof {
                assert(all[i as int] == child@);
            }
            if child.enabled && child.space.same(space) {
                match &reads[i] {
                    Err(e) => {
                        proof {
                            lemma_aggregate_failure(all, space@, reads@, (i + 1) as nat, n as nat);
                        }
                        return Err(ModuleError::Engine(e.duplicate()));
                    },
                    Ok(None) => {},
                    Ok(Some(read)) => {
                        let ghost done = interface_views(rows@);
                        let ghost more = Seq::new(read@.len(), |k: int| (child@.name, read@[k]@));
                        let mut j: usize = 0;
                        proof {
                            assert(done + more.take(0) =~= done);
                        }
                        while j < read.len()
                            invariant
                                j <= read@.len(),
                                more == Seq::new(read@.len(), |k: int| (child@.name, read@[k]@)),
                                interface_views(rows@) == done + more.take(j as int),
                            decreases read@.len() - j,
                        {
                            let ghost prior = interface_views(rows@);
                            let row = InterfaceRow { instance: child.name.clone(), row: copy_row(&read[j]) };
                            rows.push(row);
                            proof {
                                assert(interface_views(rows@) =~= prior.push(row@));
                                assert(more.take(j + 1) =~= more.take(j as int).push(more[j as int]));
                                assert(done + more.take(j + 1) =~= (done + more.take(j as int)).push(more[j as int]));
                            }
                            j = j + 1;
                        }
                        proof {
                            assert(more.take(j as int) =~= more);
                        }
                    },
                }
            }
            i = i + 1;
        }
        Ok(rows)
    }
}

/// No two incarnations a host names are the same, whatever they are named for.
pub proof fn law_incarnations_distinct(
    root: Seq<char>,
    n: nat,
    m: nat,
    space: Seq<char>,
    name: Seq<char>,
    other_space: Seq<char>,
    other_name: Seq<char>,
)
    requires
        n != m,
    ensures
        incarnation_of(root, n, space, name) != incarnation_of(root, m, other_space, other_name),
{
    let a = incarnation_of(root, n, space, name);
    let b = incarnation_of(root, m, other_space, other_name);
    if a == b {
        reveal_strlit("#m");
        reveal_strlit("-");
        law_numeral(n);
        law_numeral(m);
        let start: int = root.len() + 2int;
        let x = numeral(n);
        let y = numeral(m);
        assert(forall|i: int| 0 <= i < x.len() ==> a[start + i] == x[i]);
        assert(forall|i: int| 0 <= i < y.len() ==> b[start + i] == y[i]);
        assert(a[start + x.len()] == '-');
        assert(b[start + y.len()] == '-');
        if x.len() < y.len() {
            assert(is_digit(y[x.len() as int]));
            assert(b[start + x.len()] == y[x.len() as int]);
        }
        if y.len() < x.len() {
            assert(is_digit(x[y.len() as int]));
            assert(a[start + y.len()] == x[y.len() as int]);
        }
        assert forall|i: int| 0 <= i < x.len() implies x[i] == y[i] by {
            assert(a[start + i] == b[start + i]);
        }
        assert(x =~= y);
    }
}

/// Disabling an instance and enabling it again restores the host exactly, where it
/// was enabled.
pub proof fn law_disable_enable<E>(children: Seq<ChildView<E>>, space: Seq<char>, name: Seq<char>)
    requires
        enabled_position(children, space, name) is Ok,
    ensures
        ({
            let i = position(children, space, name)->0;
            let off = children.update(i, ChildView { enabled: false, ..children[i] });
            &&& position(off, space, name) == Some(i)
            &&& enabled_position(off, space, name) == Err::<int, ModuleErrorView>(ModuleErrorView::Disabled(name))
            &&& off.update(i, ChildView { enabled: true, ..off[i] }) == children
        }),
{
    let i = position(children, space, name)->0;
    lemma_position(children, space, name, 0);
    let off = children.update(i, ChildView { enabled: false, ..children[i] });
    lemma_same_places(children, off, space, name, 0);
    assert(off.update(i, ChildView { enabled: true, ..off[i] }) =~= children);
}

/// Where an instance is found depends on the mounts alone.
proof fn lemma_same_places<E>(
    a: Seq<ChildView<E>>,
    b: Seq<ChildView<E>>,
    space: Seq<char>,
    name: Seq<char>,
    from: nat,
)
    requires
        a.len() == b.len(),
        forall|i: int| 0 <= i < a.len() ==> (#[trigger] a[i]).space == b[i].space && a[i].name == b[i].name,
    ensures
        mounted_from(a, space, name, from) == mounted_from(b, space, name, from),
    decreases a.len() - from,
{
    if from < a.len() {
        lemma_same_places(a, b, space, name, from + 1);
    }
}

/// An uninstalled instance is gone, and the others stay where they were.
pub proof fn law_uninstalled<E>(children: Seq<ChildView<E>>, space: Seq<char>, name: Seq<char>)
    requires
        mounts_distinct(children),
        position(children, space, name) is Some,
    ensures
        position(children.remove(position(children, space, name)->0), space, name) is None,
{
    let i = position(children, space, name)->0;
    lemma_position(children, space, name, 0);
    let rest = children.remove(i);
    lemma_position(rest, space, name, 0);
    if position(rest, space, name) is Some {
        let j = position(rest, space, name)->0;
        if j < i {
            assert(rest[j] == children[j]);
            assert(!is_at(children[j], children[i].space, children[i].name));
        } else {
            assert(rest[j] == children[j + 1]);
            assert(!is_at(children[i], children[j + 1].space, children[j + 1].name));
        }
    }
}

} // verus!
