//! The parent surfaces a module imports.

use crate::binding::{UseSpec, UseView};
use crate::cell::{copy_cell, Cell, CellView};
use crate::install::{use_views, AdmittedBindings, UseBinding, UseBindingView};
use crate::module_error::{ModuleError, ModuleErrorView};
use crate::order::Duplicate;
use crate::table::Table;
use crate::update::EngineError;
use vstd::prelude::*;

verus! {

/// The parent surface a handle reads, if it reads one: its own name, or the name it
/// renames.
pub open spec fn surface_named(u: UseBindingView) -> Option<Seq<char>> {
    match u.spec {
        UseView::Parent => Some(u.handle),
        UseView::ParentSurface(name) => Some(name),
        _ => None,
    }
}

/// The parent surface a handle reads, if it reads one.
pub fn parent_surface(u: &UseBinding) -> (r: Option<&String>)
    ensures
        match r {
            Some(name) => surface_named(u@) == Some(name@),
            None => surface_named(u@) is None,
        },
{
    match &u.spec {
        UseSpec::Parent => Some(&u.handle),
        UseSpec::ParentSurface(name) => Some(name),
        _ => None,
    }
}

/// A parent surface resolved against the row that contains a module: the projected
/// row, and the private text each of its mutations is bound to.
pub struct ResolvedParentSurface {
    pub value: Cell,
    pub muts: Vec<(String, String)>,
}

/// What projecting a parent surface came to; nothing where the space declares no such
/// surface, or the row does not exist.
pub type Projection = Result<Option<ResolvedParentSurface>, EngineError>;

/// The projected rows a module's handles read.
pub struct ParentImports {
    values: Table<String, Cell>,
}

impl View for ParentImports {
    type V = Map<Seq<char>, CellView>;

    closed spec fn view(&self) -> Map<Seq<char>, CellView> {
        self.values@
    }
}

impl ParentImports {
    /// No imports.
    pub fn none() -> (r: ParentImports)
        ensures
            r@ == Map::<Seq<char>, CellView>::empty(),
    {
        ParentImports { values: Table::new() }
    }

    /// Bind a handle to its projected row.
    pub fn bind(&mut self, handle: &str, value: Cell)
        ensures
            final(self)@ == old(self)@.insert(handle@, value@),
    {
        self.values.insert(String::from_str(handle), value);
    }

    /// The projected rows, by handle.
    pub fn values(&self) -> (r: &Table<String, Cell>)
        ensures
            r@ == self@,
    {
        &self.values
    }
}

/// What the first `n` handles import, each with what its surface projects to.
pub open spec fn imported(uses: Seq<UseBindingView>, projections: Seq<Projection>, n: nat) -> Result<
    Map<Seq<char>, CellView>,
    ModuleErrorView,
>
    decreases n,
{
    if n == 0 {
        Ok(Map::empty())
    } else {
        match imported(uses, projections, (n - 1) as nat) {
            Err(e) => Err(e),
            Ok(done) => if surface_named(uses[n - 1]) is None {
                Ok(done)
            } else {
                match projections[n - 1] {
                    Err(e) => Err(ModuleErrorView::Engine(e@)),
                    Ok(None) => Ok(done),
                    Ok(Some(surface)) => Ok(done.insert(uses[n - 1].handle, surface.value@)),
                }
            },
        }
    }
}

/// A failed projection fails the imports.
proof fn lemma_imported_failure(uses: Seq<UseBindingView>, projections: Seq<Projection>, n: nat, m: nat)
    requires
        n <= m,
        imported(uses, projections, n) is Err,
    ensures
        imported(uses, projections, m) == imported(uses, projections, n),
    decreases m,
{
    if n < m {
        lemma_imported_failure(uses, projections, n, (m - 1) as nat);
    }
}

/// Resolve the parent surfaces a module imports, given what each handle's surface
/// projects to.
pub fn child_imports(bindings: &AdmittedBindings, projections: &Vec<Projection>) -> (r: Result<ParentImports, ModuleError>)
    requires
        projections@.len() == bindings@.uses.len(),
    ensures
        match (r, imported(bindings@.uses, projections@, bindings@.uses.len())) {
            (Ok(i), Ok(x)) => i@ == x,
            (Err(e), Err(x)) => e@ == x,
            _ => false,
        },
{
    let ghost uses = bindings@.uses;
    let n: usize = bindings.uses.len();
    let mut imports = ParentImports::none();
    let mut i: usize = 0;
    while i < n
        invariant
            n == bindings.uses@.len(),
            uses == bindings@.uses,
            uses == use_views(bindings.uses@),
            projections@.len() == n,
            i <= n,
            imported(uses, projections@, i as nat) == Ok::<Map<Seq<char>, CellView>, ModuleErrorView>(imports@),
        decreases n - i,
    {
        let u = &bindings.uses[i];
        proof {
            assert(uses[i as int] == u@);
        }
        if parent_surface(u).is_some() {
            match &projections[i] {
                Err(e) => {
                    proof {
                        lemma_imported_failure(uses, projections@, (i + 1) as nat, n as nat);
                    }
                    return Err(ModuleError::Engine(e.duplicate()));
                },
                Ok(None) => {},
                Ok(Some(surface)) => {
                    imports.bind(u.handle.as_str(), copy_cell(&surface.value));
                },
            }
        }
        i = i + 1;
    }
    Ok(imports)
}

} // verus!
