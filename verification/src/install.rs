//! Requests to install a module, and the bindings an admitted one records.

use crate::binding::{dep_of, use_of, DepSpec, UseSpec, UseView};
use crate::module_error::{module_outcome, ModuleError, ModuleErrorView};
use crate::state::{Fields, FieldsView};
use crate::table::Table;
use crate::target::option_view;
use crate::text::is_empty_text;
use crate::value::Value;
use vstd::prelude::*;

verus! {

/// A `$use` handle: its name, what it is bound to, and whether it may be absent.
#[derive(Debug)]
pub struct UseBinding {
    pub handle: String,
    pub spec: UseSpec,
    pub optional: bool,
}

/// What a [`UseBinding`] denotes.
#[verifier::ext_equal]
pub struct UseBindingView {
    pub handle: Seq<char>,
    pub spec: UseView,
    pub optional: bool,
}

impl View for UseBinding {
    type V = UseBindingView;

    open spec fn view(&self) -> UseBindingView {
        UseBindingView { handle: self.handle@, spec: self.spec@, optional: self.optional }
    }
}

/// What a row of handles denotes.
pub open spec fn use_views(uses: Seq<UseBinding>) -> Seq<UseBindingView> {
    Seq::new(uses.len(), |i: int| uses[i]@)
}

/// What a row of dependencies denotes.
pub open spec fn dep_views(deps: Seq<(String, DepSpec)>) -> Seq<(Seq<char>, (Seq<char>, u64))> {
    Seq::new(deps.len(), |i: int| (deps[i].0@, deps[i].1@))
}

/// The bindings an admitted instance records.
pub struct AdmittedBindings {
    pub config: Fields,
    pub uses: Vec<UseBinding>,
    pub deps: Vec<(String, DepSpec)>,
}

/// What [`AdmittedBindings`] denote.
#[verifier::ext_equal]
pub struct BindingsView {
    pub config: FieldsView,
    pub uses: Seq<UseBindingView>,
    pub deps: Seq<(Seq<char>, (Seq<char>, u64))>,
}

impl View for AdmittedBindings {
    type V = BindingsView;

    open spec fn view(&self) -> BindingsView {
        BindingsView { config: self.config@, uses: use_views(self.uses@), deps: dep_views(self.deps@) }
    }
}

/// A request to install a module.
pub struct InstallRequest {
    name: String,
    definition: String,
    bindings: AdmittedBindings,
    data: Option<String>,
    error: Option<ModuleError>,
}

/// What an [`InstallRequest`] asks for, and the first binding it could not read.
#[verifier::ext_equal]
pub struct RequestView {
    pub name: Seq<char>,
    pub definition: Seq<char>,
    pub bindings: BindingsView,
    pub data: Option<Seq<char>>,
    pub error: Option<ModuleErrorView>,
}

impl View for InstallRequest {
    type V = RequestView;

    closed spec fn view(&self) -> RequestView {
        RequestView {
            name: self.name@,
            definition: self.definition@,
            bindings: self.bindings@,
            data: option_view(self.data),
            error: option_view(self.error),
        }
    }
}

/// An admitted request.
pub struct AdmittedInstall {
    pub name: String,
    pub definition: String,
    pub bindings: AdmittedBindings,
    pub data: Option<String>,
}

/// What an [`AdmittedInstall`] denotes.
#[verifier::ext_equal]
pub struct AdmittedView {
    pub name: Seq<char>,
    pub definition: Seq<char>,
    pub bindings: BindingsView,
    pub data: Option<Seq<char>>,
}

impl View for AdmittedInstall {
    type V = AdmittedView;

    open spec fn view(&self) -> AdmittedView {
        AdmittedView {
            name: self.name@,
            definition: self.definition@,
            bindings: self.bindings@,
            data: option_view(self.data),
        }
    }
}

/// A request for nothing but a module of this name.
pub open spec fn requested(name: Seq<char>, definition: Seq<char>) -> RequestView {
    RequestView {
        name,
        definition,
        bindings: BindingsView { config: Map::empty(), uses: Seq::empty(), deps: Seq::empty() },
        data: None,
        error: None,
    }
}

/// The first failure is the one that is kept.
pub open spec fn first_error(known: Option<ModuleErrorView>, error: ModuleErrorView) -> Option<ModuleErrorView> {
    match known {
        Some(e) => Some(e),
        None => Some(error),
    }
}

/// A request with one more handle.
pub open spec fn with_use(r: RequestView, handle: Seq<char>, spec_text: Seq<char>, optional: bool) -> RequestView {
    match use_of(spec_text) {
        Ok(u) => RequestView {
            bindings: BindingsView {
                uses: r.bindings.uses.push(UseBindingView { handle, spec: u, optional }),
                ..r.bindings
            },
            ..r
        },
        Err(e) => RequestView { error: first_error(r.error, e), ..r },
    }
}

/// A request with one more dependency.
pub open spec fn with_dep(r: RequestView, handle: Seq<char>, spec_text: Seq<char>) -> RequestView {
    match dep_of(spec_text) {
        Ok(d) => RequestView {
            bindings: BindingsView { deps: r.bindings.deps.push((handle, d)), ..r.bindings },
            ..r
        },
        Err(e) => RequestView { error: first_error(r.error, e), ..r },
    }
}

/// A request is admitted unless a binding could not be read or the name is empty.
pub open spec fn admitted(r: RequestView) -> Result<AdmittedView, ModuleErrorView> {
    match r.error {
        Some(e) => Err(e),
        None => if r.name.len() == 0 {
            Err(ModuleErrorView::EmptyName)
        } else {
            Ok(AdmittedView { name: r.name, definition: r.definition, bindings: r.bindings, data: r.data })
        },
    }
}

impl InstallRequest {
    /// A request to install `definition` as the instance `name`.
    pub fn new(name: &str, definition: &str) -> (r: InstallRequest)
        ensures
            r@ == requested(name@, definition@),
    {
        let r = InstallRequest {
            name: String::from_str(name),
            definition: String::from_str(definition),
            bindings: AdmittedBindings { config: Table::new(), uses: Vec::new(), deps: Vec::new() },
            data: None,
            error: None,
        };
        proof {
            assert(r@.bindings.uses =~= Seq::empty());
            assert(r@.bindings.deps =~= Seq::empty());
        }
        r
    }

    /// The request with one configuration field bound.
    pub fn config(self, field: &str, value: Value) -> (r: InstallRequest)
        ensures
            r@ == (RequestView {
                bindings: BindingsView { config: self@.bindings.config.insert(field@, value@), ..self@.bindings },
                ..self@
            }),
    {
        let mut r = self;
        r.bindings.config.insert(String::from_str(field), value);
        r
    }

    /// The request with data laid over what the package seeds.
    pub fn data(self, data: &str) -> (r: InstallRequest)
        ensures
            r@ == (RequestView { data: Some(data@), ..self@ }),
    {
        let mut r = self;
        r.data = Some(String::from_str(data));
        r
    }

    /// The request with a required handle.
    pub fn use_handle(self, handle: &str, spec: &str) -> (r: InstallRequest)
        ensures
            r@ == with_use(self@, handle@, spec@, false),
    {
        self.bind_use(handle, spec, false)
    }

    /// The request with a handle that may be absent.
    pub fn optional_use(self, handle: &str, spec: &str) -> (r: InstallRequest)
        ensures
            r@ == with_use(self@, handle@, spec@, true),
    {
        self.bind_use(handle, spec, true)
    }

    /// The request with a private dependency.
    pub fn dep(self, handle: &str, spec: &str) -> (r: InstallRequest)
        ensures
            r@ == with_dep(self@, handle@, spec@),
    {
        let mut r = self;
        match DepSpec::parse(spec) {
            Ok(dep) => {
                let ghost prior = dep_views(r.bindings.deps@);
                r.bindings.deps.push((String::from_str(handle), dep));
                proof {
                    assert(dep_views(r.bindings.deps@) =~= prior.push((handle@, dep@)));
                }
            },
            Err(error) => {
                if r.error.is_none() {
                    r.error = Some(error);
                }
            },
        }
        r
    }

    fn bind_use(self, handle: &str, spec: &str, optional: bool) -> (r: InstallRequest)
        ensures
            r@ == with_use(self@, handle@, spec@, optional),
    {
        let mut r = self;
        match UseSpec::parse(spec) {
            Ok(parsed) => {
                let ghost prior = use_views(r.bindings.uses@);
                let binding = UseBinding { handle: String::from_str(handle), spec: parsed, optional };
                r.bindings.uses.push(binding);
                proof {
                    assert(use_views(r.bindings.uses@) =~= prior.push(binding@));
                }
            },
            Err(error) => {
                if r.error.is_none() {
                    r.error = Some(error);
                }
            },
        }
        r
    }

    /// The instance name.
    pub fn name(&self) -> (r: &str)
        ensures
            r@ == self@.name,
    {
        self.name.as_str()
    }

    /// The definition to load.
    pub fn definition(&self) -> (r: &str)
        ensures
            r@ == self@.definition,
    {
        self.definition.as_str()
    }

    /// Admit the request.
    pub fn accept(self) -> (r: Result<AdmittedInstall, ModuleError>)
        ensures
            module_outcome(r) == admitted(self@),
    {
        if let Some(error) = self.error {
            return Err(error);
        }
        if is_empty_text(self.name.as_str()) {
            return Err(ModuleError::EmptyName);
        }
        Ok(
            AdmittedInstall {
                name: self.name,
                definition: self.definition,
                bindings: self.bindings,
                data: self.data,
            },
        )
    }
}

} // verus!
