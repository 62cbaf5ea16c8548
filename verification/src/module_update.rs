//! Updates of a mounted module: computed in full first, and committed only against
//! the mount they were computed for.

use crate::address::RowAddress;
use crate::exposure::{
    exposed_grouping, exposed_narrowing, law_none_removed, moved_so, narrowed, Definition, ExposedGrouping, Moved,
    NarrowingClass,
};
use crate::hosting::{position, ModuleHost};
use crate::module_error::{
    as_module_error, module_update_error, ModuleBasisView, ModuleError, ModuleErrorView, ModuleUpdateBasis,
};
use crate::space::ModuleSpace;
use crate::state::address_views;
use crate::text::{concat3, texts};
use crate::update::{
    apply_update, finish_update, prepare_update, prepared, work_ready, CommitRequest, EngineError, EngineErrorView,
    Preparation, PreparedUpdate, PreparedView, Release, UpdateBasis, UpdateErrorView,
};
use crate::version::{version_text, Version};
use vstd::prelude::*;

verus! {

/// The path of the entry an instance is mounted at.
pub open spec fn entry_path(space: Seq<char>, name: Seq<char>) -> Seq<char> {
    space + "/"@ + name
}

/// What the steps of preparing a module update read: the position of the instance,
/// its active definition and version, the target definition, and the preparation of
/// the instance's own update.
pub struct ModulePreparation {
    pub instance: Result<UpdateBasis, EngineError>,
    pub active: Result<Option<Definition>, EngineError>,
    pub from: Version,
    pub target: Definition,
    pub preparation: Preparation,
}

impl ModulePreparation {
    /// Whether the work covers what the preparation comes to.
    pub open spec fn ready(self) -> bool {
        &&& self.active matches Ok(Some(d)) ==> d.ready()
        &&& self.target.ready()
        &&& work_ready(self.preparation)
    }
}

/// A module update computed in full, but not committed.
pub struct PreparedModuleUpdate {
    pub basis: ModuleUpdateBasis,
    pub instance_update: PreparedUpdate,
    pub from: String,
    pub exposed: ExposedGrouping,
}

/// What a [`PreparedModuleUpdate`] denotes.
#[verifier::ext_equal]
pub struct PreparedModuleView {
    pub basis: ModuleBasisView,
    pub instance_update: PreparedView,
    pub from: Seq<char>,
    pub unchanged: Seq<Seq<char>>,
    pub changed: Seq<Seq<char>>,
    pub removed: Seq<Seq<char>>,
}

impl View for PreparedModuleUpdate {
    type V = PreparedModuleView;

    open spec fn view(&self) -> PreparedModuleView {
        PreparedModuleView {
            basis: self.basis@,
            instance_update: self.instance_update@,
            from: self.from@,
            unchanged: texts(self.exposed.unchanged@),
            changed: texts(self.exposed.changed@),
            removed: texts(self.exposed.removed@),
        }
    }
}

impl PreparedModuleUpdate {
    /// The position the update was computed against.
    pub fn basis(&self) -> (r: &ModuleUpdateBasis)
        ensures
            r@ == self@.basis,
    {
        &self.basis
    }

    /// The release the instance is on.
    pub fn from(&self) -> (r: &str)
        ensures
            r@ == self@.from,
    {
        self.from.as_str()
    }

    /// The release the update moves to.
    pub fn target(&self) -> (r: &Release)
        ensures
            *r == self@.instance_update.release,
    {
        self.instance_update.target()
    }

    /// The update of the instance.
    pub fn instance_update(&self) -> (r: &PreparedUpdate)
        ensures
            r@ == self@.instance_update,
    {
        &self.instance_update
    }

    /// The exposed interfaces that stay as they are.
    pub fn exposed_unchanged(&self) -> (r: &Vec<String>)
        ensures
            texts(r@) == self@.unchanged,
    {
        &self.exposed.unchanged
    }

    /// The exposed interfaces that change.
    pub fn exposed_changed(&self) -> (r: &Vec<String>)
        ensures
            texts(r@) == self@.changed,
    {
        &self.exposed.changed
    }

    /// The exposed interfaces that go.
    pub fn exposed_removed(&self) -> (r: &Vec<String>)
        ensures
            texts(r@) == self@.removed,
    {
        &self.exposed.removed
    }
}

/// The position of a mounted instance.
pub open spec fn module_basis(
    mounted: bool,
    space: Seq<char>,
    name: Seq<char>,
    instance: Result<UpdateBasis, EngineError>,
) -> Result<ModuleBasisView, ModuleErrorView> {
    if !mounted {
        Err(ModuleErrorView::Unknown(name))
    } else {
        match instance {
            Err(e) => Err(ModuleErrorView::Engine(e@)),
            Ok(b) => Ok(ModuleBasisView { at: entry_path(space, name), instance: b@ }),
        }
    }
}

/// How a narrowing is refused.
pub open spec fn narrowing_refused(n: (Seq<char>, NarrowingClass)) -> ModuleErrorView {
    match n.1 {
        NarrowingClass::Definitional => ModuleErrorView::ExposedNarrowed(n.0),
        NarrowingClass::BindingWithdrawn => ModuleErrorView::InterfaceBindingWithdrawn(n.0),
    }
}

/// The prepared module update: the instance is mounted, what it exposes is not
/// narrowed, and its own update prepares.
pub open spec fn module_prepared(mounted: bool, space: Seq<char>, name: Seq<char>, p: ModulePreparation) -> Result<
    PreparedModuleView,
    ModuleErrorView,
> {
    match module_basis(mounted, space, name, p.instance) {
        Err(e) => Err(e),
        Ok(basis) => match p.active {
            Err(e) => Err(ModuleErrorView::Engine(e@)),
            Ok(None) => Err(
                ModuleErrorView::Engine(
                    EngineErrorView::Internal("active child definition unavailable for update"@),
                ),
            ),
            Ok(Some(active)) => match narrowed(active.surface(), p.target.surface(), p.target.mutations()) {
                Some(n) => Err(narrowing_refused(n)),
                None => match prepared(p.preparation) {
                    Err(e) => Err(as_module_error(e)),
                    Ok(update) => Ok(
                        PreparedModuleView {
                            basis,
                            instance_update: update,
                            from: version_text(p.from),
                            unchanged: moved_so(active.surface(), p.target.surface(), Moved::Unchanged),
                            changed: moved_so(active.surface(), p.target.surface(), Moved::Changed),
                            removed: moved_so(active.surface(), p.target.surface(), Moved::Removed),
                        },
                    ),
                },
            },
        },
    }
}

/// Whether a prepared update may be committed: the mounted instance stands where both
/// the module's and the instance's update were computed.
pub open spec fn module_cleared(
    mounted: bool,
    space: Seq<char>,
    name: Seq<char>,
    prepared: PreparedModuleView,
    instance: Result<UpdateBasis, EngineError>,
) -> Result<(), ModuleErrorView> {
    match module_basis(mounted, space, name, instance) {
        Err(e) => Err(e),
        Ok(now) => if prepared.basis != now {
            Err(ModuleErrorView::Stale { prepared: prepared.basis, current: now })
        } else if prepared.instance_update.basis != now.instance {
            Err(
                as_module_error(
                    UpdateErrorView::Stale { prepared: prepared.instance_update.basis, current: now.instance },
                ),
            )
        } else {
            Ok(())
        },
    }
}

/// Whether an update reports what its preparation came to.
pub open spec fn reports(report: ModuleUpdateReport, prepared: PreparedModuleView, commit: u64) -> bool {
    &&& report.commit == commit
    &&& report.from@ == prepared.from
    &&& report.to@ == version_text(prepared.instance_update.release.version)
    &&& address_views(report.migrated@) == prepared.instance_update.migrated
    &&& address_views(report.seeded@) == prepared.instance_update.seeded
    &&& texts(report.exposed_unchanged@) == prepared.unchanged
    &&& texts(report.exposed_changed@) == prepared.changed
    &&& texts(report.exposed_removed@) == prepared.removed
    &&& report.imports_rebound@.len() == 0
    &&& report.imports_broken@.len() == 0
}

/// A module update that may be committed.
pub struct ModuleCommit {
    pub request: CommitRequest,
    pub from: String,
    pub to: String,
    pub exposed: ExposedGrouping,
}

/// What was done by a module update.
pub struct ModuleUpdateReport {
    pub from: String,
    pub to: String,
    pub commit: u64,
    pub migrated: Vec<RowAddress>,
    pub seeded: Vec<RowAddress>,
    pub exposed_unchanged: Vec<String>,
    pub exposed_changed: Vec<String>,
    pub exposed_removed: Vec<String>,
    pub imports_rebound: Vec<String>,
    pub imports_broken: Vec<String>,
}

impl<E> ModuleHost<E> {
    /// The position of the instance mounted under a name in a space.
    pub fn module_update_basis(
        &self,
        space: &ModuleSpace,
        name: &str,
        instance: Result<UpdateBasis, EngineError>,
    ) -> (r: Result<ModuleUpdateBasis, ModuleError>)
        ensures
            match (r, module_basis(position(self@.children, space@, name@) is Some, space@, name@, instance)) {
                (Ok(b), Ok(x)) => b@ == x,
                (Err(e), Err(x)) => e@ == x,
                _ => false,
            },
    {
        if !self.is_installed(space, name) {
            return Err(ModuleError::Unknown(String::from_str(name)));
        }
        match instance {
            Err(e) => Err(ModuleError::Engine(e)),
            Ok(b) => Ok(ModuleUpdateBasis { at: concat3(space.as_str(), "/", name), instance: b }),
        }
    }

    /// Compute the update of a mounted instance in full without applying any part of
    /// it.
    pub fn prepare_update(&self, space: &ModuleSpace, name: &str, p: ModulePreparation) -> (r: Result<
        PreparedModuleUpdate,
        ModuleError,
    >)
        requires
            p.ready(),
        ensures
            match (r, module_prepared(position(self@.children, space@, name@) is Some, space@, name@, p)) {
                (Ok(u), Ok(x)) => u@ == x,
                (Err(e), Err(x)) => e@ == x,
                _ => false,
            },
    {
        let basis = self.module_update_basis(space, name, p.instance)?;
        let active = match p.active {
            Err(e) => {
                return Err(ModuleError::Engine(e));
            },
            Ok(None) => {
                return Err(
                    ModuleError::Engine(
                        EngineError::Internal(String::from_str("active child definition unavailable for update")),
                    ),
                );
            },
            Ok(Some(active)) => active,
        };
        if let Some(n) = exposed_narrowing(&active, &p.target) {
            return Err(
                match n.class {
                    NarrowingClass::Definitional => ModuleError::ExposedNarrowed(n.reason),
                    NarrowingClass::BindingWithdrawn => ModuleError::InterfaceBindingWithdrawn(n.reason),
                },
            );
        }
        let exposed = exposed_grouping(&active, &p.target);
        match prepare_update(p.preparation) {
            Err(e) => Err(module_update_error(e)),
            Ok(instance_update) => {
                let from = p.from.text();
                Ok(PreparedModuleUpdate { basis, instance_update, from, exposed })
            },
        }
    }

    /// Clear a prepared update for its commit. Where the mounted instance is gone or
    /// has moved since it was computed, it is refused.
    pub fn apply_update(
        &self,
        space: &ModuleSpace,
        name: &str,
        prepared: PreparedModuleUpdate,
        instance: Result<UpdateBasis, EngineError>,
    ) -> (r: Result<ModuleCommit, ModuleError>)
        ensures
            match (
                r,
                module_cleared(position(self@.children, space@, name@) is Some, space@, name@, prepared@, instance),
            ) {
                (Err(e), Err(x)) => e@ == x,
                (Ok(c), Ok(_)) => {
                    &&& c.from@ == prepared@.from
                    &&& c.to@ == version_text(prepared.instance_update.release.version)
                    &&& c.exposed == prepared.exposed
                    &&& c.request.release == prepared.instance_update.release
                    &&& c.request.rows@ == prepared@.instance_update.reconciliation.merged
                    &&& c.request.relation == prepared.instance_update.relation
                    &&& address_views(c.request.migrated@) == prepared@.instance_update.migrated
                    &&& address_views(c.request.seeded@) == prepared@.instance_update.seeded
                },
                _ => false,
            },
    {
        let current = self.module_update_basis(space, name, instance)?;
        if !prepared.basis.same(&current) {
            return Err(ModuleError::Stale { prepared: prepared.basis, current });
        }
        let to = prepared.instance_update.release.version.text();
        match apply_update(prepared.instance_update, Ok(current.instance)) {
            Err(e) => Err(module_update_error(e)),
            Ok(request) => Ok(ModuleCommit { request, from: prepared.from, to, exposed: prepared.exposed }),
        }
    }
}

/// Report a module update once its commit has been tried.
pub fn finish_module_update(commit: ModuleCommit, seq: Result<u64, EngineError>) -> (r: Result<ModuleUpdateReport, ModuleError>)
    ensures
        match (r, seq) {
            (Ok(report), Ok(n)) => {
                &&& report.commit == n
                &&& report.from@ == commit.from@
                &&& report.to@ == commit.to@
                &&& report.migrated == commit.request.migrated
                &&& report.seeded == commit.request.seeded
                &&& report.exposed_unchanged == commit.exposed.unchanged
                &&& report.exposed_changed == commit.exposed.changed
                &&& report.exposed_removed == commit.exposed.removed
                &&& report.imports_rebound@.len() == 0
                &&& report.imports_broken@.len() == 0
            },
            (Err(e), Err(x)) => e@ == ModuleErrorView::Engine(x@),
            _ => false,
        },
{
    match finish_update(commit.request, seq) {
        Err(e) => Err(module_update_error(e)),
        Ok(report) => Ok(
            ModuleUpdateReport {
                from: commit.from,
                to: commit.to,
                commit: report.commit,
                migrated: report.migrated,
                seeded: report.seeded,
                exposed_unchanged: commit.exposed.unchanged,
                exposed_changed: commit.exposed.changed,
                exposed_removed: commit.exposed.removed,
                imports_rebound: Vec::new(),
                imports_broken: Vec::new(),
            },
        ),
    }
}

impl<E> ModuleHost<E> {
    /// Update one instance: prepare the update, clear it for its commit against the
    /// position the instance then has, and report it by what the commit came to.
    pub fn update(
        &self,
        space: &ModuleSpace,
        name: &str,
        p: ModulePreparation,
        instance: Result<UpdateBasis, EngineError>,
        commit: Result<u64, EngineError>,
    ) -> (r: Result<ModuleUpdateReport, ModuleError>)
        requires
            p.ready(),
        ensures
            ({
                let mounted = position(self@.children, space@, name@) is Some;
                match module_prepared(mounted, space@, name@, p) {
                    Err(x) => r matches Err(e) && e@ == x,
                    Ok(u) => match module_cleared(mounted, space@, name@, u, instance) {
                        Err(x) => r matches Err(e) && e@ == x,
                        Ok(_) => match (r, commit) {
                            (Ok(report), Ok(n)) => reports(report, u, n),
                            (Err(e), Err(x)) => e@ == ModuleErrorView::Engine(x@),
                            _ => false,
                        },
                    },
                }
            }),
    {
        let prepared = self.prepare_update(space, name, p)?;
        let cleared = self.apply_update(space, name, prepared, instance)?;
        finish_module_update(cleared, commit)
    }
}

/// A prepared module update narrows nothing, and removes no interface.
pub proof fn law_prepared_keeps_interfaces(
    mounted: bool,
    space: Seq<char>,
    name: Seq<char>,
    p: ModulePreparation,
)
    requires
        module_prepared(mounted, space, name, p) is Ok,
    ensures
        mounted,
        narrowed(
            p.active->Ok_0->0.surface(),
            p.target.surface(),
            p.target.mutations(),
        ) is None,
        prepared(p.preparation) is Ok,
        module_prepared(mounted, space, name, p)->Ok_0.basis.at == entry_path(space, name),
        module_prepared(mounted, space, name, p)->Ok_0.removed.len() == 0,
{
    law_none_removed(p.active->Ok_0->0, p.target);
}

} // verus!
