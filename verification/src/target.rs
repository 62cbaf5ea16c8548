//! What a statement's target names: a collection, a row, a field, a root member,
//! or a local.

use crate::address::{CollectionPath, KeyValue, StepView};
use crate::model::{field_named, named, Compiled};
use crate::order::Duplicate;
use crate::program::{unknown_collection, CollectionLoc, Interp, ProgramView, RowTarget, TargetView};
use crate::refs::{components_of, holds_all, key_value_of, pick_members, picked};
use crate::rejection::{outcome, refused, refused_at, Rejection, RejectionReason, RejectionView};
use crate::text::{concat3, copy_texts, holds_text, join_texts, texts};
use crate::value::{copy_value, lemma_denoted, views, Value, ValueView};
use vstd::prelude::*;

verus! {

/// An expression that may name a place in the state, with its key selectors
/// evaluated.
pub enum Place {
    /// The row the program runs on, or the root.
    Receiver,
    /// A bare name.
    Name(String),
    /// A member of another place.
    Member(Box<Place>, String),
    /// A place selected by key, with what the first key came to.
    Keyed(Box<Place>, Option<Result<Value, Rejection>>),
    /// Any other expression.
    Other,
}

/// What a [`CollectionLoc`] denotes.
#[verifier::ext_equal]
pub struct LocView {
    pub at: (Seq<StepView>, Seq<char>),
    pub decl: Seq<Seq<char>>,
}

impl View for CollectionLoc {
    type V = LocView;

    open spec fn view(&self) -> LocView {
        LocView { at: self.store_path@, decl: texts(self.decl@) }
    }
}

/// What an optional viewed value denotes.
pub open spec fn option_view<T: View>(t: Option<T>) -> Option<T::V> {
    match t {
        Some(v) => Some(v@),
        None => None,
    }
}

/// What a step that may find something came to.
pub open spec fn found<T: View>(r: Result<Option<T>, Rejection>) -> Result<Option<T::V>, RejectionView> {
    match r {
        Ok(t) => Ok(option_view(t)),
        Err(e) => Err(e@),
    }
}

/// The key a selector's value stands for in a collection with these key fields.
pub open spec fn key_selected(names: Seq<Seq<char>>, value: ValueView) -> Result<Seq<ValueView>, RejectionView> {
    if names.len() == 1 {
        Ok(seq![value])
    } else {
        match value {
            ValueView::Struct(members) => if names.len() > 0 && holds_all(names, members) {
                Ok(picked(names, members))
            } else {
                Err(refused(RejectionReason::Malformed, "composite key selector is missing a component"@))
            },
            _ => Ok(components_of(value)),
        }
    }
}

/// The key a selector's value stands for: a lone value for a single-field key, the
/// named members of a struct in key order, or the components of another row's key.
pub fn key_from_value(key_fields: &Vec<String>, value: Value) -> (r: Result<KeyValue, Rejection>)
    ensures
        outcome(r) == key_selected(texts(key_fields@), value@),
{
    if key_fields.len() == 1 {
        return Ok(KeyValue::single(value));
    }
    proof {
        lemma_denoted(value);
    }
    match value {
        Value::Struct(members) => {
            if let Ok(components) = pick_members(key_fields, &members) {
                proof {
                    assert(views(components@).len() == components@.len());
                    assert(picked(texts(key_fields@), value@->Struct_0).len() == key_fields@.len());
                }
                if let Some(key) = KeyValue::of_components(components) {
                    return Ok(key);
                }
            }
            Err(Rejection::new(RejectionReason::Malformed, "composite key selector is missing a component"))
        },
        other => Ok(key_value_of(&other)),
    }
}

/// The refusal of a read of a receiver that is gone.
pub open spec fn receiver_gone(p: ProgramView) -> Option<RejectionView> {
    match p.receiver {
        Some(t) if !p.state.contains_key(t.address) => Some(
            refused_at(RejectionReason::MissingTarget, "the selected row no longer exists"@, t.address),
        ),
        _ => None,
    }
}

/// The top-level collection of this name, if the package declares one.
pub open spec fn top_located(compiled: Compiled, name: Seq<char>) -> Option<LocView> {
    if compiled.top(name) is Some {
        Some(LocView { at: (Seq::empty(), name), decl: seq![name] })
    } else {
        None
    }
}

/// The collection a place names: a top-level one by its name, or one nested in the
/// row its base selects.
pub open spec fn located(compiled: Compiled, p: ProgramView, place: Place) -> Result<Option<LocView>, RejectionView>
    decreases place,
{
    match place {
        Place::Name(name) => Ok(top_located(compiled, name@)),
        Place::Member(base, member) => if top_located(compiled, member@) is Some {
            Ok(top_located(compiled, member@))
        } else {
            match selected(compiled, p, *base) {
                Err(e) => Err(e),
                Ok(None) => Ok(None),
                Ok(Some(row)) => match compiled.at(row.path) {
                    Some(c) if named(c.children@, member@) is Some => Ok(
                        Some(LocView { at: (row.address, member@), decl: row.path.push(member@) }),
                    ),
                    _ => Ok(None),
                },
            }
        },
        _ => Ok(None),
    }
}

/// The row a place selects: the receiver, or the row of a collection with a key.
/// The row need not exist.
pub open spec fn selected(compiled: Compiled, p: ProgramView, place: Place) -> Result<Option<TargetView>, RejectionView>
    decreases place,
{
    match place {
        Place::Receiver => Ok(p.receiver),
        Place::Keyed(base, key) => match located(compiled, p, *base) {
            Err(e) => Err(e),
            Ok(None) => Ok(None),
            Ok(Some(loc)) => match key {
                None => Ok(None),
                Some(evaluated) => match receiver_gone(p) {
                    Some(e) => Err(e),
                    None => match compiled.at(loc.decl) {
                        None => Err(unknown_collection(loc.decl)),
                        Some(c) => match outcome(evaluated) {
                            Err(e) => Err(e),
                            Ok(value) => match key_selected(texts(c.key@), value) {
                                Err(e) => Err(e),
                                Ok(k) => Ok(
                                    Some(
                                        TargetView {
                                            address: loc.at.0.push(StepView { name: loc.at.1, key: k }),
                                            path: loc.decl,
                                        },
                                    ),
                                ),
                            },
                        },
                    },
                },
            },
        },
        _ => Ok(None),
    }
}

/// The row and field a place names.
pub open spec fn field_selected(compiled: Compiled, p: ProgramView, place: Place) -> Result<
    Option<(TargetView, Seq<char>)>,
    RejectionView,
> {
    match place {
        Place::Member(base, member) => match selected(compiled, p, *base) {
            Err(e) => Err(e),
            Ok(None) => Ok(None),
            Ok(Some(row)) => Ok(Some((row, member@))),
        },
        _ => Ok(None),
    }
}

/// What an assignment assigns to.
pub enum AssignTarget {
    /// A lexical local of the program.
    Local(String),
    /// A root member of the package.
    Singleton(String),
    /// A whole collection.
    Collection(CollectionLoc),
    /// One field of a row.
    Field(RowTarget, String),
    /// Nothing that can be assigned.
    Nothing,
}

/// What an [`AssignTarget`] denotes.
#[verifier::ext_equal]
pub enum AssignView {
    Local(Seq<char>),
    Singleton(Seq<char>),
    Collection(LocView),
    Field(TargetView, Seq<char>),
    Nothing,
}

impl View for AssignTarget {
    type V = AssignView;

    open spec fn view(&self) -> AssignView {
        match self {
            AssignTarget::Local(name) => AssignView::Local(name@),
            AssignTarget::Singleton(name) => AssignView::Singleton(name@),
            AssignTarget::Collection(loc) => AssignView::Collection(loc@),
            AssignTarget::Field(row, field) => AssignView::Field(row@, field@),
            AssignTarget::Nothing => AssignView::Nothing,
        }
    }
}

/// What an assignment to a place assigns to. A bare name binds a local; at the
/// root, `.member` names a root member; otherwise the place is a collection or a
/// field of a row.
pub open spec fn assigned(
    compiled: Compiled,
    p: ProgramView,
    singletons: Seq<Seq<char>>,
    place: Place,
) -> Result<AssignView, RejectionView> {
    match place {
        Place::Name(name) => Ok(AssignView::Local(name@)),
        _ => match place {
            Place::Member(base, member) if p.receiver is None && *base is Receiver && singletons.contains(member@) => Ok(
                AssignView::Singleton(member@),
            ),
            _ => match located(compiled, p, place) {
                Err(e) => Err(e),
                Ok(Some(loc)) => Ok(AssignView::Collection(loc)),
                Ok(None) => match field_selected(compiled, p, place) {
                    Err(e) => Err(e),
                    Ok(Some((row, field))) => Ok(AssignView::Field(row, field)),
                    Ok(None) => Ok(AssignView::Nothing),
                },
            },
        },
    }
}

impl<'a> Interp<'a> {
    /// The refusal of a read of a receiver that is gone.
    pub fn current(&self) -> (r: Result<(), Rejection>)
        ensures
            match r {
                Ok(_) => receiver_gone(self@) is None,
                Err(e) => receiver_gone(self@) == Some(e@),
            },
    {
        match &self.receiver {
            Some(t) => if self.prospective.contains(&t.address) {
                Ok(())
            } else {
                Err(Rejection::at(RejectionReason::MissingTarget, "the selected row no longer exists", &t.address))
            },
            None => Ok(()),
        }
    }

    /// The top-level collection of this name, if the package declares one.
    pub fn top_loc(&self, name: &str) -> (r: Option<CollectionLoc>)
        ensures
            option_view(r) == top_located(*self.compiled, name@),
    {
        match self.compiled.collection(name) {
            None => None,
            Some(_) => {
                let mut decl: Vec<String> = Vec::new();
                decl.push(String::from_str(name));
                proof {
                    assert(texts(decl@) =~= seq![name@]);
                }
                Some(CollectionLoc { store_path: CollectionPath::top(String::from_str(name)), decl })
            },
        }
    }

    /// The collection a place names.
    pub fn collection_ref(&self, place: &Place) -> (r: Result<Option<CollectionLoc>, Rejection>)
        ensures
            found(r) == located(*self.compiled, self@, *place),
        decreases *place,
    {
        match place {
            Place::Name(name) => Ok(self.top_loc(name.as_str())),
            Place::Member(base, member) => {
                if let Some(loc) = self.top_loc(member.as_str()) {
                    return Ok(Some(loc));
                }
                let row = match self.row_target(base) {
                    Err(e) => {
                        return Err(e);
                    },
                    Ok(None) => {
                        return Ok(None);
                    },
                    Ok(Some(row)) => row,
                };
                let parent = match self.compiled.collection_at(&row.path) {
                    None => {
                        return Ok(None);
                    },
                    Some(c) => c,
                };
                if parent.child(member.as_str()).is_none() {
                    return Ok(None);
                }
                let mut decl = copy_texts(&row.path);
                let ghost before = texts(decl@);
                decl.push(member.clone());
                proof {
                    assert(texts(decl@) =~= before.push(member@));
                }
                Ok(Some(CollectionLoc { store_path: CollectionPath::nested(&row.address, member.clone()), decl }))
            },
            _ => Ok(None),
        }
    }

    /// The row a place selects.
    pub fn row_target(&self, place: &Place) -> (r: Result<Option<RowTarget>, Rejection>)
        ensures
            found(r) == selected(*self.compiled, self@, *place),
        decreases *place,
    {
        match place {
            Place::Receiver => match &self.receiver {
                Some(t) => Ok(Some(t.duplicate())),
                None => Ok(None),
            },
            Place::Keyed(base, key) => {
                let loc = match self.collection_ref(base) {
                    Err(e) => {
                        return Err(e);
                    },
                    Ok(None) => {
                        return Ok(None);
                    },
                    Ok(Some(loc)) => loc,
                };
                let evaluated = match key {
                    None => {
                        return Ok(None);
                    },
                    Some(evaluated) => evaluated,
                };
                if let Err(e) = self.current() {
                    return Err(e);
                }
                let collection = match self.compiled.collection_at(&loc.decl) {
                    None => {
                        let name = join_texts(&loc.decl, "/");
                        return Err(
                            Rejection::new(
                                RejectionReason::Malformed,
                                concat3("unknown collection `", name.as_str(), "`").as_str(),
                            ),
                        );
                    },
                    Some(c) => c,
                };
                let value = match evaluated {
                    Err(e) => {
                        return Err(e.duplicate());
                    },
                    Ok(value) => copy_value(value),
                };
                match key_from_value(&collection.key, value) {
                    Err(e) => Err(e),
                    Ok(k) => Ok(Some(RowTarget { address: loc.store_path.row(k), path: loc.decl })),
                }
            },
            _ => Ok(None),
        }
    }

    /// The row and field a place names.
    pub fn field_target(&self, place: &Place) -> (r: Result<Option<(RowTarget, String)>, Rejection>)
        ensures
            match (r, field_selected(*self.compiled, self@, *place)) {
                (Ok(Some((row, field))), Ok(Some((t, f)))) => row@ == t && field@ == f,
                (Ok(None), Ok(None)) => true,
                (Err(e), Err(x)) => e@ == x,
                _ => false,
            },
    {
        match place {
            Place::Member(base, member) => match self.row_target(base) {
                Err(e) => Err(e),
                Ok(None) => Ok(None),
                Ok(Some(row)) => Ok(Some((row, member.clone()))),
            },
            _ => Ok(None),
        }
    }

    /// The row and field a place names, where the field is set-valued.
    pub fn set_field_target(&self, place: &Place) -> (r: Result<Option<(RowTarget, String)>, Rejection>)
        ensures
            match (r, field_selected(*self.compiled, self@, *place)) {
                (Ok(found), Ok(Some((t, f)))) => match (found, set_field_at(*self.compiled, t.path, f)) {
                    (Some((row, field)), true) => row@ == t && field@ == f,
                    (None, false) => true,
                    _ => false,
                },
                (Ok(None), Ok(None)) => true,
                (Err(e), Err(x)) => e@ == x,
                _ => false,
            },
    {
        match self.field_target(place) {
            Err(e) => Err(e),
            Ok(None) => Ok(None),
            Ok(Some((row, field))) => {
                let is_set = match self.compiled.collection_at(&row.path) {
                    Some(c) => match c.field(field.as_str()) {
                        Some(f) => f.set_valued,
                        None => false,
                    },
                    None => false,
                };
                if is_set {
                    Ok(Some((row, field)))
                } else {
                    Ok(None)
                }
            },
        }
    }

    /// What an assignment to a place assigns to.
    pub fn assign_target(&self, singletons: &Vec<String>, place: &Place) -> (r: Result<AssignTarget, Rejection>)
        ensures
            outcome(r) == assigned(*self.compiled, self@, texts(singletons@), *place),
    {
        if let Place::Name(name) = place {
            return Ok(AssignTarget::Local(name.clone()));
        }
        if let Place::Member(base, member) = place {
            if self.receiver.is_none() && matches!(**base, Place::Receiver) && holds_text(singletons, member.as_str()) {
                return Ok(AssignTarget::Singleton(member.clone()));
            }
        }
        match self.collection_ref(place) {
            Err(e) => Err(e),
            Ok(Some(loc)) => Ok(AssignTarget::Collection(loc)),
            Ok(None) => match self.field_target(place) {
                Err(e) => Err(e),
                Ok(Some((row, field))) => Ok(AssignTarget::Field(row, field)),
                Ok(None) => Ok(AssignTarget::Nothing),
            },
        }
    }
}

/// Whether the package declares a set-valued field here.
pub open spec fn set_field_at(compiled: Compiled, path: Seq<Seq<char>>, field: Seq<char>) -> bool {
    match compiled.at(path) {
        Some(c) => match field_named(c.fields@, field) {
            Some(f) => f.set_valued,
            None => false,
        },
        None => false,
    }
}

} // verus!
