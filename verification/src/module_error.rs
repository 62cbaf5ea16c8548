//! Why an operation on a module was refused.

use crate::rejection::{refused, Rejection, RejectionReason};
use crate::text::{concat, concat3, concat4, same_text};
use crate::update::{
    basis_text, update_error_text, BasisView, EngineError, EngineErrorView, UpdateBasis, UpdateError, UpdateErrorView,
};
use vstd::prelude::*;

verus! {

/// The position an update of a mounted module is computed against: the entry it is
/// mounted at, and the position of the instance itself.
#[derive(Debug)]
pub struct ModuleUpdateBasis {
    pub at: String,
    pub instance: UpdateBasis,
}

/// What a [`ModuleUpdateBasis`] denotes.
#[verifier::ext_equal]
pub struct ModuleBasisView {
    pub at: Seq<char>,
    pub instance: BasisView,
}

impl View for ModuleUpdateBasis {
    type V = ModuleBasisView;

    open spec fn view(&self) -> ModuleBasisView {
        ModuleBasisView { at: self.at@, instance: self.instance@ }
    }
}

/// A mounted position in words.
pub open spec fn module_basis_text(b: ModuleBasisView) -> Seq<char> {
    "`"@ + b.at + "` mounting "@ + basis_text(b.instance)
}

impl ModuleUpdateBasis {
    /// Whether two positions are the same.
    pub fn same(&self, other: &ModuleUpdateBasis) -> (r: bool)
        ensures
            r == (self@ == other@),
    {
        same_text(self.at.as_str(), other.at.as_str()) && self.instance.same(&other.instance)
    }

    /// The position in words.
    pub fn text(&self) -> (r: String)
        ensures
            r@ == module_basis_text(self@),
    {
        let instance = self.instance.text();
        concat4("`", self.at.as_str(), "` mounting ", instance.as_str())
    }
}

/// A failed operation on a module.
#[derive(Debug)]
pub enum ModuleError {
    /// The instance name is empty.
    EmptyName,
    /// The name already names an instance here.
    DuplicateName(String),
    /// No instance is mounted here.
    Unknown(String),
    /// The instance is disabled.
    Disabled(String),
    /// The path is no place modules can be mounted at.
    InvalidSpace(String),
    /// The row that would contain the instance does not exist.
    MissingContainingRow(String),
    /// A binding is malformed.
    InvalidBinding(String),
    /// A required peer could not be resolved, and why.
    PeerUnresolved(String, String),
    /// What the instance exposes does not satisfy an interface, and why.
    InterfaceContract(String, String),
    /// The configuration does not match what the module declares.
    ConfigMismatch(String),
    /// An update narrows what the module itself promises.
    ExposedNarrowed(String),
    /// An update withdraws a binding whose implementation remains.
    InterfaceBindingWithdrawn(String),
    /// The mounted instance has moved since the update was computed.
    Stale { prepared: ModuleUpdateBasis, current: ModuleUpdateBasis },
    /// The engine of the instance failed.
    Engine(EngineError),
}

/// What a [`ModuleError`] says.
#[verifier::ext_equal]
pub enum ModuleErrorView {
    EmptyName,
    DuplicateName(Seq<char>),
    Unknown(Seq<char>),
    Disabled(Seq<char>),
    InvalidSpace(Seq<char>),
    MissingContainingRow(Seq<char>),
    InvalidBinding(Seq<char>),
    PeerUnresolved(Seq<char>, Seq<char>),
    InterfaceContract(Seq<char>, Seq<char>),
    ConfigMismatch(Seq<char>),
    ExposedNarrowed(Seq<char>),
    InterfaceBindingWithdrawn(Seq<char>),
    Stale { prepared: ModuleBasisView, current: ModuleBasisView },
    Engine(EngineErrorView),
}

impl View for ModuleError {
    type V = ModuleErrorView;

    open spec fn view(&self) -> ModuleErrorView {
        match self {
            ModuleError::EmptyName => ModuleErrorView::EmptyName,
            ModuleError::DuplicateName(n) => ModuleErrorView::DuplicateName(n@),
            ModuleError::Unknown(n) => ModuleErrorView::Unknown(n@),
            ModuleError::Disabled(n) => ModuleErrorView::Disabled(n@),
            ModuleError::InvalidSpace(n) => ModuleErrorView::InvalidSpace(n@),
            ModuleError::MissingContainingRow(n) => ModuleErrorView::MissingContainingRow(n@),
            ModuleError::InvalidBinding(n) => ModuleErrorView::InvalidBinding(n@),
            ModuleError::PeerUnresolved(n, why) => ModuleErrorView::PeerUnresolved(n@, why@),
            ModuleError::InterfaceContract(n, why) => ModuleErrorView::InterfaceContract(n@, why@),
            ModuleError::ConfigMismatch(why) => ModuleErrorView::ConfigMismatch(why@),
            ModuleError::ExposedNarrowed(why) => ModuleErrorView::ExposedNarrowed(why@),
            ModuleError::InterfaceBindingWithdrawn(why) => ModuleErrorView::InterfaceBindingWithdrawn(why@),
            ModuleError::Stale { prepared, current } => ModuleErrorView::Stale {
                prepared: prepared@,
                current: current@,
            },
            ModuleError::Engine(e) => ModuleErrorView::Engine(e@),
        }
    }
}

/// What a fallible operation on a module came to.
pub open spec fn module_outcome<T: View>(r: Result<T, ModuleError>) -> Result<T::V, ModuleErrorView> {
    match r {
        Ok(v) => Ok(v@),
        Err(e) => Err(e@),
    }
}

/// A failed operation in words.
pub open spec fn module_error_text(e: ModuleErrorView) -> Seq<char> {
    match e {
        ModuleErrorView::EmptyName => "an instance name must be a non-empty text value"@,
        ModuleErrorView::DuplicateName(n) => "instance name `"@ + n + "` is already installed in this module collection"@,
        ModuleErrorView::Unknown(n) => "no module instance is mounted at `"@ + n + "`"@,
        ModuleErrorView::Disabled(n) => "instance `"@ + n + "` is disabled"@,
        ModuleErrorView::InvalidSpace(n) => "`"@ + n + "` is not a module space"@,
        ModuleErrorView::MissingContainingRow(n) => "the module collection `"@ + n
            + "` has no containing row in root state"@,
        ModuleErrorView::InvalidBinding(n) => "`"@ + n + "` is not a valid module binding spec"@,
        ModuleErrorView::PeerUnresolved(n, why) => "peer binding `"@ + n + "` cannot be resolved: "@ + why,
        ModuleErrorView::InterfaceContract(n, why) => "the child does not satisfy interface contract `"@ + n + "`: "@ + why,
        ModuleErrorView::ConfigMismatch(why) => "installation `$config` does not match the declared struct: "@ + why,
        ModuleErrorView::ExposedNarrowed(why) => "the update narrows the module's exposed compatibility surface: "@ + why,
        ModuleErrorView::InterfaceBindingWithdrawn(why) =>
            "the update withdraws a previously accepted interface binding: "@ + why,
        ModuleErrorView::Stale { prepared, current } => "stale prepared module update: computed against "@
            + module_basis_text(prepared) + ", but the mount is now at "@ + module_basis_text(current),
        ModuleErrorView::Engine(m) => update_error_text(UpdateErrorView::Engine(m)),
    }
}

/// The reason an operation is refused for, where what was asked is at fault rather
/// than the engine.
pub open spec fn input_fault(e: ModuleErrorView) -> Option<RejectionReason> {
    match e {
        ModuleErrorView::InterfaceContract(_, _) | ModuleErrorView::ConfigMismatch(_) => Some(RejectionReason::TypeError),
        ModuleErrorView::ExposedNarrowed(_)
        | ModuleErrorView::InterfaceBindingWithdrawn(_)
        | ModuleErrorView::Stale { .. }
        | ModuleErrorView::Engine(_) => None,
        _ => Some(RejectionReason::Malformed),
    }
}

fn engine_text(e: &EngineError) -> (r: String)
    ensures
        r@ == update_error_text(UpdateErrorView::Engine(e@)),
{
    match e {
        EngineError::Store(m) => m.clone(),
        EngineError::Internal(m) => m.clone(),
        EngineError::Invalid(m) => m.clone(),
        EngineError::Requirement(m) => m.clone(),
        EngineError::Unsupported(m) => m.clone(),
    }
}

impl ModuleError {
    /// The failure in words.
    pub fn text(&self) -> (r: String)
        ensures
            r@ == module_error_text(self@),
    {
        match self {
            ModuleError::EmptyName => String::from_str("an instance name must be a non-empty text value"),
            ModuleError::DuplicateName(n) => concat3(
                "instance name `",
                n.as_str(),
                "` is already installed in this module collection",
            ),
            ModuleError::Unknown(n) => concat3("no module instance is mounted at `", n.as_str(), "`"),
            ModuleError::Disabled(n) => concat3("instance `", n.as_str(), "` is disabled"),
            ModuleError::InvalidSpace(n) => concat3("`", n.as_str(), "` is not a module space"),
            ModuleError::MissingContainingRow(n) => concat3(
                "the module collection `",
                n.as_str(),
                "` has no containing row in root state",
            ),
            ModuleError::InvalidBinding(n) => concat3("`", n.as_str(), "` is not a valid module binding spec"),
            ModuleError::PeerUnresolved(n, why) => concat4(
                "peer binding `",
                n.as_str(),
                "` cannot be resolved: ",
                why.as_str(),
            ),
            ModuleError::InterfaceContract(n, why) => concat4(
                "the child does not satisfy interface contract `",
                n.as_str(),
                "`: ",
                why.as_str(),
            ),
            ModuleError::ConfigMismatch(why) => concat(
                "installation `$config` does not match the declared struct: ",
                why.as_str(),
            ),
            ModuleError::ExposedNarrowed(why) => concat(
                "the update narrows the module's exposed compatibility surface: ",
                why.as_str(),
            ),
            ModuleError::InterfaceBindingWithdrawn(why) => concat(
                "the update withdraws a previously accepted interface binding: ",
                why.as_str(),
            ),
            ModuleError::Stale { prepared, current } => {
                let was = prepared.text();
                let is = current.text();
                concat4(
                    "stale prepared module update: computed against ",
                    was.as_str(),
                    ", but the mount is now at ",
                    is.as_str(),
                )
            },
            ModuleError::Engine(e) => engine_text(e),
        }
    }

    /// The refusal, where what was asked is at fault; the failure itself, where the
    /// engine is, or an update is incompatible.
    pub fn into_rejection(self) -> (r: Result<Rejection, ModuleError>)
        ensures
            match (r, input_fault(self@)) {
                (Ok(rejection), Some(reason)) => rejection@ == refused(reason, module_error_text(self@)),
                (Err(e), None) => e == self,
                _ => false,
            },
    {
        let reason = match &self {
            ModuleError::InterfaceContract(_, _) | ModuleError::ConfigMismatch(_) => RejectionReason::TypeError,
            ModuleError::ExposedNarrowed(_)
            | ModuleError::InterfaceBindingWithdrawn(_)
            | ModuleError::Stale { .. }
            | ModuleError::Engine(_) => {
                return Err(self);
            },
            _ => RejectionReason::Malformed,
        };
        let message = self.text();
        Ok(Rejection::new(reason, message.as_str()))
    }
}

/// A failed update of an instance, as a failure of the module.
pub open spec fn as_module_error(e: UpdateErrorView) -> ModuleErrorView {
    match e {
        UpdateErrorView::Engine(m) => ModuleErrorView::Engine(m),
        other => ModuleErrorView::Engine(EngineErrorView::Internal(update_error_text(other))),
    }
}

/// Name a failed update of an instance as a failure of the module.
pub fn module_update_error(e: UpdateError) -> (r: ModuleError)
    ensures
        r@ == as_module_error(e@),
{
    match e {
        UpdateError::Engine(m) => ModuleError::Engine(m),
        other => {
            let text = other.text();
            ModuleError::Engine(EngineError::Internal(text))
        },
    }
}

} // verus!
