//! Package updates: computed in full first, committed separately, and only against
//! the position they were computed for.

use crate::address::{RowAddress, StepView};
use crate::captured::StateSection;
use crate::copy::{all_ready, Shape};
use crate::doc::Doc;
use crate::downgrade::{downgrade_representable, state_representable};
use crate::history::{MergeOutcome, OutcomeView};
use crate::migrate::{
    build_migrated, conclusion_ready, migrated_state, program_for, program_ready, staged, MigrationWork,
};
use crate::order::Duplicate;
use crate::plan::{definition_plan, downgrade_plan, downgraded, MigrationPlan, PlanView};
use crate::rejection::{refused, Rejection, RejectionReason, RejectionView};
use crate::state::{address_views, Fields};
use crate::table::Table;
use crate::text::{
    concat, concat3, concat4, concat5, numeral, render_integer, render_number, same_text, signed_numeral, texts,
};
use crate::time::Timestamp;
use crate::version::{connected, connected_delta_path, migration_sources, version_text, Version};
use vstd::prelude::*;

verus! {

/// A failure of the engine itself.
#[derive(Debug)]
pub enum EngineError {
    /// The store faulted.
    Store(String),
    /// Something that should hold does not.
    Internal(String),
    /// A definition is statically invalid.
    Invalid(String),
    /// A required namespace is not registered.
    Requirement(String),
    /// This build does not carry a part of the instance.
    Unsupported(String),
}

/// What an [`EngineError`] says.
#[verifier::ext_equal]
pub enum EngineErrorView {
    Store(Seq<char>),
    Internal(Seq<char>),
    Invalid(Seq<char>),
    Requirement(Seq<char>),
    Unsupported(Seq<char>),
}

impl View for EngineError {
    type V = EngineErrorView;

    open spec fn view(&self) -> EngineErrorView {
        match self {
            EngineError::Store(m) => EngineErrorView::Store(m@),
            EngineError::Internal(m) => EngineErrorView::Internal(m@),
            EngineError::Invalid(m) => EngineErrorView::Invalid(m@),
            EngineError::Requirement(m) => EngineErrorView::Requirement(m@),
            EngineError::Unsupported(m) => EngineErrorView::Unsupported(m@),
        }
    }
}

impl Duplicate for EngineError {
    fn duplicate(&self) -> (r: Self) {
        match self {
            EngineError::Store(m) => EngineError::Store(m.clone()),
            EngineError::Internal(m) => EngineError::Internal(m.clone()),
            EngineError::Invalid(m) => EngineError::Invalid(m.clone()),
            EngineError::Requirement(m) => EngineError::Requirement(m.clone()),
            EngineError::Unsupported(m) => EngineError::Unsupported(m.clone()),
        }
    }
}

/// How a target release relates to the active one.
#[derive(Debug, Clone, Copy, PartialEq, Eq, Structural)]
pub enum UpdateRelation {
    /// The same version, published again.
    Republish,
    Patch,
    Minor,
    Major,
    Downgrade,
    /// Another compatibility line.
    Unrelated,
}

/// The classification of an update: how the target relates to the active release, and
/// whether it must not narrow the boundary contract.
#[derive(Debug, Clone, Copy, PartialEq, Eq, Structural)]
pub struct Decision {
    pub relation: UpdateRelation,
    pub requires_non_narrowing: bool,
}

/// The position an update is computed against: the instance, the active package, the
/// head of the store, and the clock.
#[derive(Debug)]
pub struct UpdateBasis {
    pub instance: String,
    pub package: String,
    pub version: Version,
    pub head: u64,
    pub clock: Timestamp,
}

/// What an [`UpdateBasis`] denotes.
#[verifier::ext_equal]
pub struct BasisView {
    pub instance: Seq<char>,
    pub package: Seq<char>,
    pub version: Version,
    pub head: u64,
    pub clock: Timestamp,
}

impl View for UpdateBasis {
    type V = BasisView;

    open spec fn view(&self) -> BasisView {
        BasisView {
            instance: self.instance@,
            package: self.package@,
            version: self.version,
            head: self.head,
            clock: self.clock,
        }
    }
}

/// A position in words.
pub open spec fn basis_text(b: BasisView) -> Seq<char> {
    "instance `"@ + b.instance + "` on `"@ + b.package + "@"@ + version_text(b.version) + "` at commit "@ + numeral(
        b.head as nat,
    ) + ", clock "@ + signed_numeral(b.clock.count as int)
}

impl UpdateBasis {
    /// Whether two positions are the same.
    pub fn same(&self, other: &UpdateBasis) -> (r: bool)
        ensures
            r == (self@ == other@),
    {
        same_text(self.instance.as_str(), other.instance.as_str()) && same_text(
            self.package.as_str(),
            other.package.as_str(),
        ) && self.version == other.version && self.head == other.head && self.clock == other.clock
    }

    /// The position in words.
    pub fn text(&self) -> (r: String)
        ensures
            r@ == basis_text(self@),
    {
        let version = self.version.text();
        let head = render_number(self.head as u128);
        let count = render_integer(self.clock.count);
        let place = concat5("instance `", self.instance.as_str(), "` on `", self.package.as_str(), "@");
        let at = concat4(place.as_str(), version.as_str(), "` at commit ", head.as_str());
        concat3(at.as_str(), ", clock ", count.as_str())
    }
}

/// A failed update.
#[derive(Debug)]
pub enum UpdateError {
    /// The target is statically invalid, or the store faulted.
    Engine(EngineError),
    /// The migrated state was refused.
    Rejected(Rejection),
    /// The target is on another compatibility line.
    Incompatible(String),
    /// The instance has moved since the update was computed; nothing was committed.
    Stale { prepared: UpdateBasis, current: UpdateBasis },
}

/// What an [`UpdateError`] says.
#[verifier::ext_equal]
pub enum UpdateErrorView {
    Engine(EngineErrorView),
    Rejected(RejectionView),
    Incompatible(Seq<char>),
    Stale { prepared: BasisView, current: BasisView },
}

impl View for UpdateError {
    type V = UpdateErrorView;

    open spec fn view(&self) -> UpdateErrorView {
        match self {
            UpdateError::Engine(e) => UpdateErrorView::Engine(e@),
            UpdateError::Rejected(e) => UpdateErrorView::Rejected(e@),
            UpdateError::Incompatible(m) => UpdateErrorView::Incompatible(m@),
            UpdateError::Stale { prepared, current } => UpdateErrorView::Stale {
                prepared: prepared@,
                current: current@,
            },
        }
    }
}

/// A failed update in words.
pub open spec fn update_error_text(e: UpdateErrorView) -> Seq<char> {
    match e {
        UpdateErrorView::Engine(EngineErrorView::Store(m)) => m,
        UpdateErrorView::Engine(EngineErrorView::Internal(m)) => m,
        UpdateErrorView::Engine(EngineErrorView::Invalid(m)) => m,
        UpdateErrorView::Engine(EngineErrorView::Requirement(m)) => m,
        UpdateErrorView::Engine(EngineErrorView::Unsupported(m)) => m,
        UpdateErrorView::Rejected(r) => "migration rejected: "@ + r.message,
        UpdateErrorView::Incompatible(m) => "incompatible update: "@ + m,
        UpdateErrorView::Stale { prepared, current } => "stale prepared update: computed against "@ + basis_text(prepared)
            + ", but the instance is now at "@ + basis_text(current)
            + " — nothing was committed; re-prepare the update against the current state"@,
    }
}

impl UpdateError {
    /// The failure in words.
    pub fn text(&self) -> (r: String)
        ensures
            r@ == update_error_text(self@),
    {
        match self {
            UpdateError::Engine(EngineError::Store(m)) => m.clone(),
            UpdateError::Engine(EngineError::Internal(m)) => m.clone(),
            UpdateError::Engine(EngineError::Invalid(m)) => m.clone(),
            UpdateError::Engine(EngineError::Requirement(m)) => m.clone(),
            UpdateError::Engine(EngineError::Unsupported(m)) => m.clone(),
            UpdateError::Rejected(r) => concat("migration rejected: ", r.message.as_str()),
            UpdateError::Incompatible(m) => concat("incompatible update: ", m.as_str()),
            UpdateError::Stale { prepared, current } => {
                let before = prepared.text();
                let now = current.text();
                concat5(
                    "stale prepared update: computed against ",
                    before.as_str(),
                    ", but the instance is now at ",
                    now.as_str(),
                    " — nothing was committed; re-prepare the update against the current state",
                )
            },
        }
    }
}

/// A compiled target release: its identity, its shape, and the document it was
/// compiled from.
pub struct Release {
    pub name: String,
    pub version: Version,
    pub shape: Shape,
    pub definition: Doc,
    pub model: Option<Doc>,
}

/// What the steps of preparing an update came to, and what they read: the position,
/// the compiled target, its classification, the first narrowing of the boundary
/// contract, the active shape and definition, the captured state, the materialized
/// source, what migrating evaluated, and whether the namespaces and the key rings were accepted.
pub struct Preparation {
    pub basis: Result<UpdateBasis, EngineError>,
    pub release: Result<Release, EngineError>,
    pub decision: Result<Decision, EngineError>,
    pub narrowing: Option<String>,
    pub active: Shape,
    pub active_definition: Result<Option<Doc>, EngineError>,
    pub captured: Result<StateSection, EngineError>,
    pub source_root: Result<(), EngineError>,
    pub work: MigrationWork,
    pub rebind: Result<(), EngineError>,
    pub policy: Result<(), EngineError>,
    pub reserved: RowAddress,
}

/// An update computed in full, but not committed.
pub struct PreparedUpdate {
    pub release: Release,
    pub relation: UpdateRelation,
    pub basis: UpdateBasis,
    /// The rows the instance would hold, and where the release and the instance both
    /// moved.
    pub reconciliation: MergeOutcome,
    pub migrated: Vec<RowAddress>,
    pub seeded: Vec<RowAddress>,
}

/// What a [`PreparedUpdate`] denotes.
#[verifier::ext_equal]
pub struct PreparedView {
    pub release: Release,
    pub relation: UpdateRelation,
    pub basis: BasisView,
    pub reconciliation: OutcomeView,
    pub migrated: Seq<Seq<StepView>>,
    pub seeded: Seq<Seq<StepView>>,
}

impl View for PreparedUpdate {
    type V = PreparedView;

    open spec fn view(&self) -> PreparedView {
        PreparedView {
            release: self.release,
            relation: self.relation,
            basis: self.basis@,
            reconciliation: self.reconciliation@,
            migrated: address_views(self.migrated@),
            seeded: address_views(self.seeded@),
        }
    }
}

impl UpdateBasis {
    /// The head of the store.
    pub fn head(&self) -> (r: u64)
        ensures
            r == self@.head,
    {
        self.head
    }

    /// The clock.
    pub fn clock(&self) -> (r: Timestamp)
        ensures
            r == self@.clock,
    {
        self.clock
    }
}

impl PreparedUpdate {
    /// How the target relates to the active release.
    pub fn relation(&self) -> (r: UpdateRelation)
        ensures
            r == self@.relation,
    {
        self.relation
    }

    /// The position the update was computed against.
    pub fn basis(&self) -> (r: &UpdateBasis)
        ensures
            r@ == self@.basis,
    {
        &self.basis
    }

    /// The release the update moves to.
    pub fn target(&self) -> (r: &Release)
        ensures
            *r == self@.release,
    {
        &self.release
    }

    /// The rows the instance would hold, and where it and the release both moved.
    pub fn reconciliation(&self) -> (r: &MergeOutcome)
        ensures
            r@ == self@.reconciliation,
    {
        &self.reconciliation
    }

    /// The rows that were migrated.
    pub fn migrated(&self) -> (r: &Vec<RowAddress>)
        ensures
            address_views(r@) == self@.migrated,
    {
        &self.migrated
    }

    /// The rows that were seeded.
    pub fn seeded(&self) -> (r: &Vec<RowAddress>)
        ensures
            address_views(r@) == self@.seeded,
    {
        &self.seeded
    }
}

/// What an update came to.
pub open spec fn update_outcome<T: View>(r: Result<T, UpdateError>) -> Result<T::V, UpdateErrorView> {
    match r {
        Ok(t) => Ok(t@),
        Err(e) => Err(e@),
    }
}

/// The refusal of an update over a route that one migration does not cover.
pub open spec fn no_route(active: Version, target: Version) -> UpdateErrorView {
    UpdateErrorView::Rejected(
        refused(
            RejectionReason::Compatibility,
            "no connected single-hop delta path from the active `"@ + version_text(active) + "` to the target `"@
                + version_text(target)
                + "`: either the active version is off the target's declared migration lineage, or a declared migration key lies strictly between the two versions so the route is a multi-step chain — and the runtime never synthesizes an undeclared intermediate nor commits a single hop as if it reached the target"@,
        ),
    )
}

/// The plan of an update: the mappings the target declares, or for a downgrade those
/// with the inverses the active package declares. A downgrade must represent the
/// state.
pub open spec fn update_plan(p: Preparation) -> Result<PlanView, UpdateErrorView> {
    let release = p.release->Ok_0;
    if p.decision->Ok_0.relation == UpdateRelation::Downgrade {
        match p.active_definition {
            Err(e) => Err(UpdateErrorView::Engine(e@)),
            Ok(None) => Err(
                UpdateErrorView::Engine(EngineErrorView::Internal("active definition unavailable for downgrade"@)),
            ),
            Ok(Some(active)) => {
                let plan = downgraded(definition_plan(release.definition), definition_plan(active));
                match state_representable(
                    p.active.compiled,
                    texts(p.active.members@),
                    p.captured->Ok_0,
                    release.shape.compiled,
                    texts(release.shape.members@),
                    plan,
                ) {
                    Err(e) => Err(UpdateErrorView::Rejected(e)),
                    Ok(_) => Ok(plan),
                }
            },
        }
    } else {
        Ok(definition_plan(release.definition))
    }
}

/// The gates before a migration is built, in order: the position, the compiled
/// target, its compatibility, the route, the boundary contract, the captured state,
/// the plan, and the materialized source. The first that fails is the update's
/// failure; otherwise the plan comes of them.
pub open spec fn gates(p: Preparation) -> Result<PlanView, UpdateErrorView> {
    match (p.basis, p.release, p.decision) {
        (Err(e), _, _) => Err(UpdateErrorView::Engine(e@)),
        (Ok(_), Err(e), _) => Err(UpdateErrorView::Engine(e@)),
        (Ok(_), Ok(_), Err(e)) => Err(UpdateErrorView::Engine(e@)),
        (Ok(basis), Ok(release), Ok(decision)) => if decision.relation == UpdateRelation::Unrelated {
            Err(
                UpdateErrorView::Incompatible(
                    "`"@ + release.name@ + "` is a different compatibility line than the active package"@,
                ),
            )
        } else if !connected(basis.version, release.version, migration_sources(release.model)) {
            Err(no_route(basis.version, release.version))
        } else if decision.requires_non_narrowing && p.narrowing is Some {
            Err(
                UpdateErrorView::Rejected(
                    refused(
                        RejectionReason::Compatibility,
                        "update narrows the boundary contract: "@ + p.narrowing->0@,
                    ),
                ),
            )
        } else {
            match p.captured {
                Err(e) => Err(UpdateErrorView::Engine(e@)),
                Ok(_) => match update_plan(p) {
                    Err(e) => Err(e),
                    Ok(plan) => match p.source_root {
                        Err(e) => Err(UpdateErrorView::Engine(e@)),
                        Ok(_) => Ok(plan),
                    },
                },
            }
        },
    }
}

/// The gates after a migration is built: the registered namespaces, and the policies
/// of the key rings.
pub open spec fn last_gates(p: Preparation) -> Result<(), UpdateErrorView> {
    match (p.rebind, p.policy) {
        (Err(e), _) => Err(UpdateErrorView::Engine(e@)),
        (Ok(_), Err(e)) => Err(UpdateErrorView::Engine(e@)),
        (Ok(_), Ok(_)) => Ok(()),
    }
}

/// The prepared update: every gate passed, and the migrated state admitted.
pub open spec fn prepared(p: Preparation) -> Result<PreparedView, UpdateErrorView> {
    match gates(p) {
        Err(e) => Err(e),
        Ok(plan) => {
            let release = p.release->Ok_0;
            match migrated_state(
                p.active,
                p.captured->Ok_0,
                release.shape,
                plan,
                p.work,
                p.reserved@,
                version_text(p.basis->Ok_0.version),
            ) {
                Err(e) => Err(UpdateErrorView::Rejected(e)),
                Ok(m) => match last_gates(p) {
                    Err(e) => Err(e),
                    Ok(_) => Ok(
                        PreparedView {
                            release,
                            relation: p.decision->Ok_0.relation,
                            basis: p.basis->Ok_0@,
                            reconciliation: OutcomeView { merged: m.rows, conflicts: m.divergent },
                            migrated: m.migrated,
                            seeded: m.seeded,
                        },
                    ),
                },
            }
        },
    }
}

/// Whether there is evaluation work for the migration, wherever it comes to one.
pub open spec fn work_ready(p: Preparation) -> bool {
    match gates(p) {
        Err(_) => true,
        Ok(plan) => {
            let release = p.release->Ok_0;
            let state = p.captured->Ok_0;
            let version = version_text(p.basis->Ok_0.version);
            &&& all_ready(release.shape, state, plan, p.work.carry)
            &&& program_ready(program_for(p.work.programs@, version))
            &&& staged(p.active, state, release.shape, plan, p.work, p.reserved@, version) matches Ok(s)
                ==> conclusion_ready(release.shape, s, p.work)
        },
    }
}

fn check_target(p: &Preparation) -> (r: Result<(), UpdateError>)
    ensures
        match r {
            Ok(_) => p.basis is Ok && p.release is Ok && p.decision is Ok && p.captured is Ok && gates(*p) == (
            match update_plan(*p) {
                Err(e) => Err(e),
                Ok(plan) => match p.source_root {
                    Err(e) => Err(UpdateErrorView::Engine(e@)),
                    Ok(_) => Ok(plan),
                },
            }),
            Err(e) => gates(*p) == Err::<PlanView, UpdateErrorView>(e@),
        },
{
    let (basis, release, decision) = match (&p.basis, &p.release, &p.decision) {
        (Err(e), _, _) => {
            return Err(UpdateError::Engine(e.duplicate()));
        },
        (Ok(_), Err(e), _) => {
            return Err(UpdateError::Engine(e.duplicate()));
        },
        (Ok(_), Ok(_), Err(e)) => {
            return Err(UpdateError::Engine(e.duplicate()));
        },
        (Ok(basis), Ok(release), Ok(decision)) => (basis, release, decision),
    };
    if decision.relation == UpdateRelation::Unrelated {
        return Err(
            UpdateError::Incompatible(
                concat3("`", release.name.as_str(), "` is a different compatibility line than the active package"),
            ),
        );
    }
    if !connected_delta_path(&basis.version, &release.version, release.model.as_ref()) {
        let from = basis.version.text();
        let to = release.version.text();
        return Err(
            UpdateError::Rejected(
                Rejection::new(
                    RejectionReason::Compatibility,
                    concat5(
                        "no connected single-hop delta path from the active `",
                        from.as_str(),
                        "` to the target `",
                        to.as_str(),
                        "`: either the active version is off the target's declared migration lineage, or a declared migration key lies strictly between the two versions so the route is a multi-step chain — and the runtime never synthesizes an undeclared intermediate nor commits a single hop as if it reached the target",
                    ).as_str(),
                ),
            ),
        );
    }
    if decision.requires_non_narrowing {
        if let Some(reason) = &p.narrowing {
            return Err(
                UpdateError::Rejected(
                    Rejection::new(
                        RejectionReason::Compatibility,
                        concat("update narrows the boundary contract: ", reason.as_str()).as_str(),
                    ),
                ),
            );
        }
    }
    if let Err(e) = &p.captured {
        return Err(UpdateError::Engine(e.duplicate()));
    }
    Ok(())
}

fn choose_plan(p: &Preparation, release: &Release, decision: &Decision, state: &StateSection) -> (r: Result<
    MigrationPlan,
    UpdateError,
>)
    requires
        p.release == Ok::<Release, EngineError>(*release),
        p.decision == Ok::<Decision, EngineError>(*decision),
        p.captured == Ok::<StateSection, EngineError>(*state),
    ensures
        update_outcome(r) == update_plan(*p),
{
    if decision.relation != UpdateRelation::Downgrade {
        return Ok(MigrationPlan::read(&release.definition));
    }
    match &p.active_definition {
        Err(e) => Err(UpdateError::Engine(e.duplicate())),
        Ok(None) => Err(
            UpdateError::Engine(
                EngineError::Internal(String::from_str("active definition unavailable for downgrade")),
            ),
        ),
        Ok(Some(active)) => {
            let plan = downgrade_plan(active, &release.definition);
            match downgrade_representable(
                &p.active.compiled,
                &p.active.members,
                state,
                &release.shape.compiled,
                &release.shape.members,
                &plan,
            ) {
                Ok(_) => Ok(plan),
                Err(e) => Err(UpdateError::Rejected(e)),
            }
        },
    }
}

/// Compute an update in full without applying any part of it.
pub fn prepare_update(p: Preparation) -> (r: Result<PreparedUpdate, UpdateError>)
    requires
        work_ready(p),
    ensures
        update_outcome(r) == prepared(p),
{
    let ghost given = p;
    check_target(&p)?;
    let plan = match (&p.release, &p.decision, &p.captured) {
        (Ok(release), Ok(decision), Ok(state)) => choose_plan(&p, release, decision, state)?,
        _ => {
            proof {
                assert(false);
            }
            return Err(UpdateError::Engine(EngineError::Internal(String::from_str("no target"))));
        },
    };
    let Preparation {
        basis,
        release,
        decision,
        narrowing: _,
        active,
        active_definition: _,
        captured,
        source_root,
        work,
        rebind,
        policy,
        reserved,
    } = p;
    match source_root {
        Ok(_) => {},
        Err(e) => {
            return Err(UpdateError::Engine(e));
        },
    }
    match (basis, release, decision, captured) {
        (Ok(basis), Ok(release), Ok(decision), Ok(state)) => {
            let version = basis.version.text();
            let migrated = match build_migrated(
                &active,
                &state,
                &release.shape,
                &plan,
                work,
                &reserved,
                version.as_str(),
            ) {
                Ok(m) => m,
                Err(e) => {
                    return Err(UpdateError::Rejected(e));
                },
            };
            match rebind {
                Ok(_) => {},
                Err(e) => {
                    return Err(UpdateError::Engine(e));
                },
            }
            match policy {
                Ok(_) => {},
                Err(e) => {
                    return Err(UpdateError::Engine(e));
                },
            }
            Ok(
                PreparedUpdate {
                    release,
                    relation: decision.relation,
                    basis,
                    reconciliation: MergeOutcome { merged: migrated.rows, conflicts: migrated.divergent },
                    migrated: migrated.migrated,
                    seeded: migrated.seeded,
                },
            )
        },
        _ => {
            proof {
                assert(false);
            }
            Err(UpdateError::Engine(EngineError::Internal(String::from_str("no target"))))
        },
    }
}

/// An update that may be committed: the release to adopt, and the rows to hold.
pub struct CommitRequest {
    pub release: Release,
    pub rows: Table<RowAddress, Fields>,
    pub relation: UpdateRelation,
    pub migrated: Vec<RowAddress>,
    pub seeded: Vec<RowAddress>,
}

/// What was done by an update.
pub struct UpdateReport {
    pub relation: UpdateRelation,
    pub commit: u64,
    pub migrated: Vec<RowAddress>,
    pub seeded: Vec<RowAddress>,
}

/// Clear a prepared update for its commit. Where the instance has moved since it was
/// computed, it is refused.
pub fn apply_update(prepared: PreparedUpdate, current: Result<UpdateBasis, EngineError>) -> (r: Result<
    CommitRequest,
    UpdateError,
>)
    ensures
        match (r, current) {
            (Err(e), Err(x)) => e@ == UpdateErrorView::Engine(x@),
            (Err(e), Ok(now)) => prepared@.basis != now@ && e@ == (UpdateErrorView::Stale {
                prepared: prepared@.basis,
                current: now@,
            }),
            (Ok(c), Ok(now)) => {
                &&& prepared@.basis == now@
                &&& c.release == prepared.release
                &&& c.rows@ == prepared@.reconciliation.merged
                &&& c.relation == prepared.relation
                &&& address_views(c.migrated@) == prepared@.migrated
                &&& address_views(c.seeded@) == prepared@.seeded
            },
            (Ok(_), Err(_)) => false,
        },
{
    let current = match current {
        Ok(basis) => basis,
        Err(e) => {
            return Err(UpdateError::Engine(e));
        },
    };
    if !prepared.basis.same(&current) {
        return Err(UpdateError::Stale { prepared: prepared.basis, current });
    }
    Ok(
        CommitRequest {
            release: prepared.release,
            rows: prepared.reconciliation.merged,
            relation: prepared.relation,
            migrated: prepared.migrated,
            seeded: prepared.seeded,
        },
    )
}

/// Report an update once its commit has been tried.
pub fn finish_update(request: CommitRequest, commit: Result<u64, EngineError>) -> (r: Result<UpdateReport, UpdateError>)
    ensures
        match (r, commit) {
            (Ok(report), Ok(seq)) => {
                &&& report.commit == seq
                &&& report.relation == request.relation
                &&& report.migrated == request.migrated
                &&& report.seeded == request.seeded
            },
            (Err(e), Err(x)) => e@ == UpdateErrorView::Engine(x@),
            _ => false,
        },
{
    match commit {
        Ok(commit) => Ok(
            UpdateReport {
                relation: request.relation,
                commit,
                migrated: request.migrated,
                seeded: request.seeded,
            },
        ),
        Err(e) => Err(UpdateError::Engine(e)),
    }
}

/// A prepared update is one that every gate passed: it is for a related release, over
/// a route one migration covers, and does not narrow a boundary contract it must not
/// narrow. Its rows are those of the migrated state.
pub proof fn law_prepared_passed(p: Preparation)
    requires
        prepared(p) is Ok,
    ensures
        p.decision->Ok_0.relation != UpdateRelation::Unrelated,
        connected(
            p.basis->Ok_0.version,
            p.release->Ok_0.version,
            migration_sources(p.release->Ok_0.model),
        ),
        p.decision->Ok_0.requires_non_narrowing ==> p.narrowing is None,
        p.rebind is Ok,
        p.policy is Ok,
        p.work.admission is Ok,
        prepared(p)->Ok_0.basis == p.basis->Ok_0@,
{
}

} // verus!
