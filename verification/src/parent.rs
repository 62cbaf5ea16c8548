//! Exposed mutations that delegate to a parent surface.

use crate::imports::{parent_surface, surface_named, Projection, ResolvedParentSurface};
use crate::install::{use_views, UseBinding, UseBindingView};
use crate::module_error::{ModuleError, ModuleErrorView};
use crate::order::Duplicate;
use crate::space::{pair_views, rows_along, ModuleSpace};
use crate::state::{Fields, FieldsView};
use crate::syntax::{Arg, Expr, Member};
use crate::table::Table;
use crate::text::{after_prefix, before_suffix, same_text, strip_prefix, strip_suffix};
use crate::value::{copy_value, views, Value, ValueView};
use vstd::prelude::*;

verus! {

/// Where a parameter of a parent mutation takes its value from.
#[derive(Debug)]
pub enum ArgSource {
    /// The argument of this name of the call to the module.
    Param(String),
}

impl View for ArgSource {
    type V = Seq<char>;

    open spec fn view(&self) -> Seq<char> {
        match self {
            ArgSource::Param(name) => name@,
        }
    }
}

/// An exposed mutation that delegates to a parent surface:
/// `#handle.mutation({ parameter: @argument })`.
#[derive(Debug)]
pub struct ParentMutationBinding {
    pub handle: String,
    pub mutation: String,
    pub args: Vec<(String, ArgSource)>,
}

/// What a [`ParentMutationBinding`] denotes.
#[verifier::ext_equal]
pub struct DelegationView {
    pub handle: Seq<char>,
    pub mutation: Seq<char>,
    pub args: Seq<(Seq<char>, Seq<char>)>,
}

/// What a row of arguments denotes.
pub open spec fn source_views(args: Seq<(String, ArgSource)>) -> Seq<(Seq<char>, Seq<char>)> {
    Seq::new(args.len(), |i: int| (args[i].0@, args[i].1@))
}

impl View for ParentMutationBinding {
    type V = DelegationView;

    open spec fn view(&self) -> DelegationView {
        DelegationView { handle: self.handle@, mutation: self.mutation@, args: source_views(self.args@) }
    }
}

/// The parameter and source of a member `parameter: @argument`.
pub open spec fn member_source(m: Member) -> Option<(Seq<char>, Seq<char>)> {
    match m {
        Member::Named(name, Some(Expr::Param(from))) => Some((name@, from@)),
        _ => None,
    }
}

/// The parameter and source of a named argument `parameter: @argument`.
pub open spec fn arg_source(a: Arg) -> Option<(Seq<char>, Seq<char>)> {
    match a {
        Arg::Named(name, Expr::Param(from)) => Some((name@, from@)),
        _ => None,
    }
}

/// The sources of every member, where each has one.
pub open spec fn member_sources(members: Seq<Member>) -> Option<Seq<(Seq<char>, Seq<char>)>> {
    if forall|i: int| 0 <= i < members.len() ==> member_source(#[trigger] members[i]) is Some {
        Some(Seq::new(members.len(), |i: int| member_source(members[i])->0))
    } else {
        None
    }
}

/// The sources of a call's arguments: those of one object, or those of arguments
/// that are all named.
pub open spec fn sources_of(args: Seq<Arg>) -> Option<Seq<(Seq<char>, Seq<char>)>> {
    if args.len() == 1 && args[0] is Positional && args[0]->Positional_0 is Object {
        member_sources(args[0]->Positional_0->Object_0@)
    } else if forall|i: int| 0 <= i < args.len() ==> arg_source(#[trigger] args[i]) is Some {
        Some(Seq::new(args.len(), |i: int| arg_source(args[i])->0))
    } else {
        None
    }
}

/// The delegation an expression makes, if it makes one.
pub open spec fn delegation(e: Expr) -> Option<DelegationView> {
    match e {
        Expr::Call { callee, args } => match *callee {
            Expr::Field { base, member, .. } => match *base {
                Expr::Import(handle) => match sources_of(args@) {
                    Some(sources) => Some(
                        DelegationView { handle: handle@, mutation: member@, args: sources },
                    ),
                    None => None,
                },
                _ => None,
            },
            _ => None,
        },
        _ => None,
    }
}

fn object_args(members: &Vec<Member>) -> (r: Option<Vec<(String, ArgSource)>>)
    ensures
        match r {
            Some(v) => member_sources(members@) == Some(source_views(v@)),
            None => member_sources(members@) is None,
        },
{
    let mut out: Vec<(String, ArgSource)> = Vec::new();
    let mut i: usize = 0;
    while i < members.len()
        invariant
            i <= members@.len(),
            out@.len() == i,
            forall|j: int|
                0 <= j < i ==> member_source(#[trigger] members@[j]) == Some((out@[j].0@, out@[j].1@)),
        decreases members@.len() - i,
    {
        match &members[i] {
            Member::Named(name, Some(Expr::Param(from))) => {
                out.push((name.clone(), ArgSource::Param(from.clone())));
            },
            _ => {
                proof {
                    assert(member_source(members@[i as int]) is None);
                }
                return None;
            },
        }
        i = i + 1;
    }
    proof {
        assert(member_sources(members@)->0 =~= source_views(out@));
    }
    Some(out)
}

/// Read the sources of a call's arguments.
pub fn parse_args(args: &Vec<Arg>) -> (r: Option<Vec<(String, ArgSource)>>)
    ensures
        match r {
            Some(v) => sources_of(args@) == Some(source_views(v@)),
            None => sources_of(args@) is None,
        },
{
    if args.len() == 1 {
        if let Arg::Positional(Expr::Object(members)) = &args[0] {
            return object_args(members);
        }
    }
    let mut out: Vec<(String, ArgSource)> = Vec::new();
    let mut i: usize = 0;
    while i < args.len()
        invariant
            !(args@.len() == 1 && args@[0] is Positional && args@[0]->Positional_0 is Object),
            i <= args@.len(),
            out@.len() == i,
            forall|j: int| 0 <= j < i ==> arg_source(#[trigger] args@[j]) == Some((out@[j].0@, out@[j].1@)),
        decreases args@.len() - i,
    {
        match &args[i] {
            Arg::Named(name, Expr::Param(from)) => {
                out.push((name.clone(), ArgSource::Param(from.clone())));
            },
            _ => {
                proof {
                    assert(arg_source(args@[i as int]) is None);
                }
                return None;
            },
        }
        i = i + 1;
    }
    proof {
        assert(sources_of(args@)->0 =~= source_views(out@));
    }
    Some(out)
}

impl ParentMutationBinding {
    /// Read the delegation an expression makes.
    pub fn parse(e: &Expr) -> (r: Option<ParentMutationBinding>)
        ensures
            match r {
                Some(b) => delegation(*e) == Some(b@),
                None => delegation(*e) is None,
            },
    {
        match e {
            Expr::Call { callee, args } => match &**callee {
                Expr::Field { base, member, .. } => match &**base {
                    Expr::Import(handle) => match parse_args(args) {
                        Some(sources) => Some(
                            ParentMutationBinding {
                                handle: handle.clone(),
                                mutation: member.clone(),
                                args: sources,
                            },
                        ),
                        None => None,
                    },
                    _ => None,
                },
                _ => None,
            },
            _ => None,
        }
    }
}

/// A call of a mutation: its name, the key of each row down to the one it runs on,
/// and its arguments.
pub struct CallRequest {
    pub mutation: String,
    pub receiver: Vec<Value>,
    pub args: Fields,
}

/// What a [`CallRequest`] denotes.
#[verifier::ext_equal]
pub struct CallView {
    pub mutation: Seq<char>,
    pub receiver: Seq<ValueView>,
    pub args: FieldsView,
}

impl View for CallRequest {
    type V = CallView;

    open spec fn view(&self) -> CallView {
        CallView { mutation: self.mutation@, receiver: views(self.receiver@), args: self.args@ }
    }
}

/// The first handle of this name that reads a parent surface.
pub open spec fn surface_handle(uses: Seq<UseBindingView>, handle: Seq<char>, from: nat) -> Option<int>
    decreases uses.len() - from,
{
    if from >= uses.len() {
        None
    } else if uses[from as int].handle == handle && surface_named(uses[from as int]) is Some {
        Some(from as int)
    } else {
        surface_handle(uses, handle, from + 1)
    }
}

fn find_surface(uses: &Vec<UseBinding>, handle: &str) -> (r: Option<usize>)
    ensures
        match r {
            Some(i) => i < uses@.len() && surface_handle(use_views(uses@), handle@, 0) == Some(i as int),
            None => surface_handle(use_views(uses@), handle@, 0) is None,
        },
{
    let ghost all = use_views(uses@);
    let mut i: usize = 0;
    while i < uses.len()
        invariant
            all == use_views(uses@),
            i <= uses@.len(),
            surface_handle(all, handle@, 0) == surface_handle(all, handle@, i as nat),
        decreases uses@.len() - i,
    {
        proof {
            assert(all[i as int] == uses@[i as int]@);
        }
        if same_text(uses[i].handle.as_str(), handle) && parent_surface(&uses[i]).is_some() {
            return Some(i);
        }
        i = i + 1;
    }
    None
}

/// The text the first mutation of this name is bound to.
pub open spec fn mutation_bound(muts: Seq<(String, String)>, name: Seq<char>) -> Option<Seq<char>>
    decreases muts.len(),
{
    if muts.len() == 0 {
        None
    } else if muts[0].0@ == name {
        Some(muts[0].1@)
    } else {
        mutation_bound(muts.drop_first(), name)
    }
}

fn find_mutation<'a>(muts: &'a Vec<(String, String)>, name: &str) -> (r: Option<&'a String>)
    ensures
        match r {
            Some(t) => mutation_bound(muts@, name@) == Some(t@),
            None => mutation_bound(muts@, name@) is None,
        },
{
    let mut i: usize = 0;
    proof {
        assert(muts@.skip(0) =~= muts@);
    }
    while i < muts.len()
        invariant
            i <= muts@.len(),
            mutation_bound(muts@, name@) == mutation_bound(muts@.skip(i as int), name@),
        decreases muts@.len() - i,
    {
        if same_text(muts[i].0.as_str(), name) {
            return Some(&muts[i].1);
        }
        proof {
            assert(muts@.skip(i as int).drop_first() =~= muts@.skip(i + 1));
        }
        i = i + 1;
    }
    None
}

/// The mutation of the containing row that a surface's mutation is bound to: the
/// text after the dot, without the empty call it may end in.
pub open spec fn row_mutation(muts: Seq<(String, String)>, name: Seq<char>) -> Option<Seq<char>> {
    match mutation_bound(muts, name) {
        Some(text) => match after_prefix(text, "."@) {
            Some(rest) => match before_suffix(rest, "()"@) {
                Some(head) => Some(head),
                None => Some(rest),
            },
            None => None,
        },
        None => None,
    }
}

fn bound_row_mutation(surface: &ResolvedParentSurface, name: &str) -> (r: Option<String>)
    ensures
        match r {
            Some(m) => row_mutation(surface.muts@, name@) == Some(m@),
            None => row_mutation(surface.muts@, name@) is None,
        },
{
    match find_mutation(&surface.muts, name) {
        Some(text) => match strip_prefix(text.as_str(), ".") {
            Some(rest) => match strip_suffix(rest.as_str(), "()") {
                Some(head) => Some(head),
                None => Some(rest),
            },
            None => None,
        },
        None => None,
    }
}

/// The arguments of a delegated call: each parameter from the argument it names,
/// where that was given.
pub open spec fn fed(sources: Seq<(Seq<char>, Seq<char>)>, given: FieldsView) -> FieldsView
    decreases sources.len(),
{
    if sources.len() == 0 {
        Map::empty()
    } else {
        let before = fed(sources.drop_last(), given);
        let (parameter, from) = sources.last();
        if given.contains_key(from) {
            before.insert(parameter, given[from])
        } else {
            before
        }
    }
}

fn feed(sources: &Vec<(String, ArgSource)>, given: &Fields) -> (r: Fields)
    ensures
        r@ == fed(source_views(sources@), given@),
{
    let ghost all = source_views(sources@);
    let mut r: Fields = Table::new();
    let mut i: usize = 0;
    proof {
        assert(all.take(0) =~= Seq::empty());
    }
    while i < sources.len()
        invariant
            all == source_views(sources@),
            i <= sources@.len(),
            r@ == fed(all.take(i as int), given@),
        decreases sources@.len() - i,
    {
        proof {
            assert(all.take(i + 1).drop_last() =~= all.take(i as int));
            assert(all.take(i + 1).last() == all[i as int]);
        }
        let ArgSource::Param(from) = &sources[i].1;
        if let Some(value) = given.get(from) {
            r.insert(sources[i].0.clone(), copy_value(value));
        }
        i = i + 1;
    }
    proof {
        assert(all.take(i as int) =~= all);
    }
    r
}

/// The keys of the rows a path passes through, as texts.
pub open spec fn row_keys(space: Seq<char>) -> Seq<ValueView> {
    match rows_along(space) {
        Some(rows) => Seq::new(rows.len(), |i: int| ValueView::Text(rows[i].1)),
        None => Seq::empty(),
    }
}

fn keys_of_space(space: &ModuleSpace) -> (r: Vec<Value>)
    ensures
        views(r@) == row_keys(space@),
{
    let mut r: Vec<Value> = Vec::new();
    match space.containing_row_steps() {
        Some(rows) => {
            let ghost want = row_keys(space@);
            let mut i: usize = 0;
            while i < rows.len()
                invariant
                    i <= rows@.len(),
                    want == row_keys(space@),
                    rows_along(space@) == Some(pair_views(rows@)),
                    r@.len() == i,
                    forall|j: int| 0 <= j < i ==> (#[trigger] r@[j])@ == want[j],
                decreases rows@.len() - i,
            {
                r.push(Value::Text(rows[i].1.clone()));
                proof {
                    assert(want[i as int] == ValueView::Text(pair_views(rows@)[i as int].1));
                }
                i = i + 1;
            }
            proof {
                assert(views(r@) =~= want);
            }
        },
        None => {
            proof {
                assert(views(r@) =~= Seq::empty());
            }
        },
    }
    r
}

/// The call a delegating mutation makes on the containing row: nothing, where the
/// expression delegates to no parent surface, the surface does not resolve, or it
/// binds no mutation of the row.
pub open spec fn delegated(
    space: Seq<char>,
    uses: Seq<UseBindingView>,
    binding: Option<Expr>,
    given: FieldsView,
    projections: Seq<Projection>,
) -> Result<Option<CallView>, ModuleErrorView> {
    let parsed = match binding {
        Some(e) => delegation(e),
        None => None,
    };
    match parsed {
        None => Ok(None),
        Some(d) => match surface_handle(uses, d.handle, 0) {
            None => Ok(None),
            Some(i) => match projections[i] {
                Err(e) => Err(ModuleErrorView::Engine(e@)),
                Ok(None) => Ok(None),
                Ok(Some(surface)) => match row_mutation(surface.muts@, d.mutation) {
                    None => Ok(None),
                    Some(mutation) => Ok(
                        Some(CallView { mutation, receiver: row_keys(space), args: fed(d.args, given) }),
                    ),
                },
            },
        },
    }
}

/// Build the call a delegating mutation makes on the containing row.
pub fn delegate(
    space: &ModuleSpace,
    uses: &Vec<UseBinding>,
    binding: &Option<Expr>,
    given: &Fields,
    projections: &Vec<Projection>,
) -> (r: Result<Option<CallRequest>, ModuleError>)
    requires
        projections@.len() == uses@.len(),
    ensures
        match (r, delegated(space@, use_views(uses@), *binding, given@, projections@)) {
            (Ok(None), Ok(None)) => true,
            (Ok(Some(c)), Ok(Some(x))) => c@ == x,
            (Err(e), Err(x)) => e@ == x,
            _ => false,
        },
{
    let parsed = match binding {
        Some(e) => ParentMutationBinding::parse(e),
        None => None,
    };
    let d = match parsed {
        Some(d) => d,
        None => {
            return Ok(None);
        },
    };
    let i: usize = match find_surface(uses, d.handle.as_str()) {
        Some(i) => i,
        None => {
            return Ok(None);
        },
    };
    let surface = match &projections[i] {
        Err(e) => {
            return Err(ModuleError::Engine(e.duplicate()));
        },
        Ok(None) => {
            return Ok(None);
        },
        Ok(Some(surface)) => surface,
    };
    let mutation = match bound_row_mutation(surface, d.mutation.as_str()) {
        Some(m) => m,
        None => {
            return Ok(None);
        },
    };
    let receiver = keys_of_space(space);
    let args = feed(&d.args, given);
    Ok(Some(CallRequest { mutation, receiver, args }))
}

} // verus!
