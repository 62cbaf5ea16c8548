//! Resolving peer handles against the siblings in the same space.

use crate::binding::{UseSpec, UseView};
use crate::install::{use_views, AdmittedBindings, UseBindingView};
use crate::module_error::{ModuleError, ModuleErrorView};
use crate::space::ModuleSpace;
use crate::target::option_view;
use crate::text::{
    after_prefix, concat, concat3, concat5, holds_text, is_empty_text, numeral, render_number, same_text, split,
    split_text, strip_prefix, texts,
};
use vstd::prelude::*;

verus! {

/// An enabled sibling: its name, its package line and major version, and the
/// interfaces it exposes.
#[derive(Debug)]
pub struct SiblingInterface {
    pub name: String,
    pub line: String,
    pub major: u64,
    pub interfaces: Vec<String>,
}

/// Whether a sibling is what a peer handle asks for.
pub open spec fn satisfies(s: SiblingInterface, line: Seq<char>, interface: Seq<char>, major: u64) -> bool {
    s.line@ == line && s.major == major && texts(s.interfaces@).contains(interface)
}

/// The siblings that are what a handle asks for.
pub open spec fn candidates(
    siblings: Seq<SiblingInterface>,
    line: Seq<char>,
    interface: Seq<char>,
    major: u64,
) -> Seq<SiblingInterface> {
    siblings.filter(|s: SiblingInterface| satisfies(s, line, interface, major))
}

/// The first sibling of this name.
pub open spec fn sibling_named(siblings: Seq<SiblingInterface>, name: Seq<char>) -> Option<SiblingInterface>
    decreases siblings.len(),
{
    if siblings.len() == 0 {
        None
    } else if siblings[0].name@ == name {
        Some(siblings[0])
    } else {
        sibling_named(siblings.drop_first(), name)
    }
}

/// The path an operator bound a handle to, if any.
pub open spec fn bound_path(uses: Seq<UseBindingView>, handle: Seq<char>) -> Option<Seq<char>>
    decreases uses.len(),
{
    if uses.len() == 0 {
        None
    } else {
        match uses[0].spec {
            UseView::Path(path) if uses[0].handle == handle => Some(path),
            _ => bound_path(uses.drop_first(), handle),
        }
    }
}

/// The name of an entry of a space, from its path.
pub open spec fn entry_name(space: Seq<char>, path: Seq<char>) -> Option<Seq<char>> {
    match after_prefix(path, space + "/"@) {
        Some(name) if name.len() > 0 && split(name, '/').len() == 1 => Some(name),
        _ => None,
    }
}

/// The path of an instance, and the interface it is qualified with, where it is:
/// `path` or `path#interface`.
pub open spec fn qualified(path: Seq<char>) -> Option<(Seq<char>, Option<Seq<char>>)> {
    let parts = split(path, '#');
    if parts.len() == 1 {
        Some((parts[0], None))
    } else if parts.len() == 2 {
        Some((parts[0], Some(parts[1])))
    } else {
        None
    }
}

/// The name of the sibling a path names, and the interface it is qualified with.
pub open spec fn sibling_path(space: Seq<char>, path: Seq<char>) -> Option<(Seq<char>, Option<Seq<char>>)> {
    match qualified(path) {
        Some((instance, interface)) => match entry_name(space, instance) {
            Some(name) => Some((name, interface)),
            None => None,
        },
        None => None,
    }
}

/// What is wrong with a sibling that is not what a handle asks for.
pub open spec fn unfit(name: Seq<char>, line: Seq<char>, interface: Seq<char>, major: u64) -> Seq<char> {
    "sibling `"@ + name + "` does not expose interface `"@ + interface + ("` at major "@ + numeral(major as nat)
        + " on line `"@ + line + "`"@)
}

/// Resolve a handle an operator bound to a path: it must name a fitting sibling in
/// the same space. A path that is qualified with an interface must name the one that
/// the handle asks for.
pub open spec fn explicit_peer(
    space: Seq<char>,
    handle: Seq<char>,
    path: Seq<char>,
    line: Seq<char>,
    interface: Seq<char>,
    major: u64,
    siblings: Seq<SiblingInterface>,
) -> Result<Seq<char>, ModuleErrorView> {
    match sibling_path(space, path) {
        None => Err(
            ModuleErrorView::PeerUnresolved(
                handle,
                "explicit binding `"@ + path + "` must name a sibling instance in the same module space `"@ + space + "`"@,
            ),
        ),
        Some((name, qualifier)) => match sibling_named(siblings, name) {
            None => Err(
                ModuleErrorView::PeerUnresolved(
                    handle,
                    "explicit binding names `"@ + name + "`, which is not an installed sibling in this space"@,
                ),
            ),
            Some(s) => if qualifier is Some && qualifier->0 != interface {
                Err(
                    ModuleErrorView::PeerUnresolved(
                        handle,
                        "explicit binding `"@ + path + "` does not name interface `"@ + interface + "`"@,
                    ),
                )
            } else if satisfies(s, line, interface, major) {
                Ok(name)
            } else {
                Err(ModuleErrorView::PeerUnresolved(handle, unfit(name, line, interface, major)))
            },
        },
    }
}

/// Resolve a handle nobody bound: one candidate is taken, several need an operator
/// to choose, and none is an absence a handle must be optional for.
pub open spec fn automatic_peer(
    handle: Seq<char>,
    line: Seq<char>,
    interface: Seq<char>,
    major: u64,
    optional: bool,
    siblings: Seq<SiblingInterface>,
) -> Result<Option<Seq<char>>, ModuleErrorView> {
    let fitting = candidates(siblings, line, interface, major);
    if fitting.len() == 0 {
        if optional {
            Ok(None)
        } else {
            Err(
                ModuleErrorView::PeerUnresolved(
                    handle,
                    "no enabled sibling in the module space exposes interface `"@ + interface + "` at major "@ + numeral(
                        major as nat,
                    ) + (" on line `"@ + line + "`"@),
                ),
            )
        }
    } else if fitting.len() == 1 {
        Ok(Some(fitting[0].name@))
    } else {
        Err(
            ModuleErrorView::PeerUnresolved(
                handle,
                "several compatible candidates require an explicit `$use` binding naming one sibling"@,
            ),
        )
    }
}

/// A peer handle and the sibling it is bound to.
#[derive(Debug)]
pub struct ResolvedPeer {
    pub handle: String,
    pub interface: String,
    pub instance: Option<String>,
    pub optional: bool,
}

/// What a [`ResolvedPeer`] denotes.
#[verifier::ext_equal]
pub struct PeerView {
    pub handle: Seq<char>,
    pub interface: Seq<char>,
    pub instance: Option<Seq<char>>,
    pub optional: bool,
}

impl View for ResolvedPeer {
    type V = PeerView;

    open spec fn view(&self) -> PeerView {
        PeerView {
            handle: self.handle@,
            interface: self.interface@,
            instance: option_view(self.instance),
            optional: self.optional,
        }
    }
}

/// What a row of resolved peers denotes.
pub open spec fn peer_views(peers: Seq<ResolvedPeer>) -> Seq<PeerView> {
    Seq::new(peers.len(), |i: int| peers[i]@)
}

/// The sibling one handle resolves to; none for a handle that asks for no peer.
pub open spec fn peer_resolved(
    space: Seq<char>,
    uses: Seq<UseBindingView>,
    u: UseBindingView,
    siblings: Seq<SiblingInterface>,
) -> Result<Option<PeerView>, ModuleErrorView> {
    match u.spec {
        UseView::Peer { line, interface, major } => {
            let instance = match bound_path(uses, u.handle) {
                Some(path) => match explicit_peer(space, u.handle, path, line, interface, major, siblings) {
                    Ok(name) => Ok(Some(name)),
                    Err(e) => Err(e),
                },
                None => automatic_peer(u.handle, line, interface, major, u.optional, siblings),
            };
            match instance {
                Ok(instance) => Ok(Some(PeerView { handle: u.handle, interface, instance, optional: u.optional })),
                Err(e) => Err(e),
            }
        },
        _ => Ok(None),
    }
}

/// What the first `n` handles resolve to, in order; the first that does not resolve
/// refuses them all.
pub open spec fn peers_resolved(
    space: Seq<char>,
    uses: Seq<UseBindingView>,
    siblings: Seq<SiblingInterface>,
    n: nat,
) -> Result<Seq<PeerView>, ModuleErrorView>
    decreases n,
{
    if n == 0 {
        Ok(Seq::empty())
    } else {
        match peers_resolved(space, uses, siblings, (n - 1) as nat) {
            Err(e) => Err(e),
            Ok(done) => match peer_resolved(space, uses, uses[n - 1], siblings) {
                Err(e) => Err(e),
                Ok(None) => Ok(done),
                Ok(Some(p)) => Ok(done.push(p)),
            },
        }
    }
}

/// A refusal among the first handles refuses them all.
proof fn lemma_peer_refusal(space: Seq<char>, uses: Seq<UseBindingView>, siblings: Seq<SiblingInterface>, n: nat, m: nat)
    requires
        n <= m,
        peers_resolved(space, uses, siblings, n) is Err,
    ensures
        peers_resolved(space, uses, siblings, m) == peers_resolved(space, uses, siblings, n),
    decreases m,
{
    if n < m {
        lemma_peer_refusal(space, uses, siblings, n, (m - 1) as nat);
    }
}

fn fits(s: &SiblingInterface, line: &str, interface: &str, major: u64) -> (r: bool)
    ensures
        r == satisfies(*s, line@, interface@, major),
{
    same_text(s.line.as_str(), line) && s.major == major && holds_text(&s.interfaces, interface)
}

fn explicit_binding<'a>(bindings: &'a AdmittedBindings, handle: &str) -> (r: Option<&'a String>)
    ensures
        match r {
            Some(path) => bound_path(bindings@.uses, handle@) == Some(path@),
            None => bound_path(bindings@.uses, handle@) is None,
        },
{
    let ghost uses = bindings@.uses;
    let mut i: usize = 0;
    proof {
        assert(uses.skip(0) =~= uses);
    }
    while i < bindings.uses.len()
        invariant
            uses == use_views(bindings.uses@),
            i <= bindings.uses@.len(),
            bound_path(uses, handle@) == bound_path(uses.skip(i as int), handle@),
        decreases bindings.uses@.len() - i,
    {
        proof {
            assert(uses.skip(i as int)[0] == bindings.uses@[i as int]@);
            assert(uses.skip(i as int).drop_first() =~= uses.skip(i + 1));
        }
        if let UseSpec::Path(path) = &bindings.uses[i].spec {
            if same_text(bindings.uses[i].handle.as_str(), handle) {
                return Some(path);
            }
        }
        i = i + 1;
    }
    None
}

fn find_sibling<'a>(siblings: &'a Vec<SiblingInterface>, name: &str) -> (r: Option<&'a SiblingInterface>)
    ensures
        match r {
            Some(s) => sibling_named(siblings@, name@) == Some(*s),
            None => sibling_named(siblings@, name@) is None,
        },
{
    let mut i: usize = 0;
    proof {
        assert(siblings@.skip(0) =~= siblings@);
    }
    while i < siblings.len()
        invariant
            i <= siblings@.len(),
            sibling_named(siblings@, name@) == sibling_named(siblings@.skip(i as int), name@),
        decreases siblings@.len() - i,
    {
        if same_text(siblings[i].name.as_str(), name) {
            return Some(&siblings[i]);
        }
        proof {
            assert(siblings@.skip(i as int).drop_first() =~= siblings@.skip(i + 1));
        }
        i = i + 1;
    }
    None
}

/// Whether a qualifier names another interface.
fn names_other(qualifier: &Option<String>, interface: &str) -> (r: bool)
    ensures
        r == (option_view(*qualifier) is Some && option_view(*qualifier)->0 != interface@),
{
    match qualifier {
        Some(named) => !same_text(named.as_str(), interface),
        None => false,
    }
}

/// Read the name of an entry of a space from its path.
fn name_in_space(space: &str, path: &str) -> (r: Option<String>)
    ensures
        match r {
            Some(name) => entry_name(space@, path@) == Some(name@),
            None => entry_name(space@, path@) is None,
        },
{
    let prefix = concat(space, "/");
    match strip_prefix(path, prefix.as_str()) {
        Some(name) => {
            let levels = split_text(name.as_str(), '/');
            proof {
                assert(texts(levels@).len() == levels@.len());
            }
            if !is_empty_text(name.as_str()) && levels.len() == 1 {
                Some(name)
            } else {
                None
            }
        },
        None => None,
    }
}

/// Read the sibling a path names, and the interface it is qualified with.
fn name_sibling(space: &str, path: &str) -> (r: Option<(String, Option<String>)>)
    ensures
        match r {
            Some((name, interface)) => sibling_path(space@, path@) == Some((name@, option_view(interface))),
            None => sibling_path(space@, path@) is None,
        },
{
    let mut parts = split_text(path, '#');
    let ghost all = split(path@, '#');
    let n: usize = parts.len();
    proof {
        assert(texts(parts@).len() == parts@.len());
        assert(all[0] == parts@[0]@);
    }
    if n > 2 {
        return None;
    }
    let name = match name_in_space(space, parts[0].as_str()) {
        Some(name) => name,
        None => {
            return None;
        },
    };
    if n == 2 {
        proof {
            assert(all[1] == parts@[1]@);
        }
        Some((name, Some(parts.remove(1))))
    } else {
        Some((name, None))
    }
}

fn resolve_explicit(
    space: &str,
    handle: &str,
    path: &str,
    line: &str,
    interface: &str,
    major: u64,
    siblings: &Vec<SiblingInterface>,
) -> (r: Result<String, ModuleError>)
    ensures
        match (r, explicit_peer(space@, handle@, path@, line@, interface@, major, siblings@)) {
            (Ok(name), Ok(x)) => name@ == x,
            (Err(e), Err(x)) => e@ == x,
            _ => false,
        },
{
    match name_sibling(space, path) {
        None => {
            let why = concat5(
                "explicit binding `",
                path,
                "` must name a sibling instance in the same module space `",
                space,
                "`",
            );
            Err(ModuleError::PeerUnresolved(String::from_str(handle), why))
        },
        Some((name, qualifier)) => match find_sibling(siblings, name.as_str()) {
            None => {
                let why = concat3(
                    "explicit binding names `",
                    name.as_str(),
                    "`, which is not an installed sibling in this space",
                );
                Err(ModuleError::PeerUnresolved(String::from_str(handle), why))
            },
            Some(s) => if names_other(&qualifier, interface) {
                let why = concat5("explicit binding `", path, "` does not name interface `", interface, "`");
                Err(ModuleError::PeerUnresolved(String::from_str(handle), why))
            } else if fits(s, line, interface, major) {
                Ok(name)
            } else {
                let number = render_number(major as u128);
                let tail = concat5("` at major ", number.as_str(), " on line `", line, "`");
                let why = concat5(
                    "sibling `",
                    name.as_str(),
                    "` does not expose interface `",
                    interface,
                    tail.as_str(),
                );
                Err(ModuleError::PeerUnresolved(String::from_str(handle), why))
            },
        },
    }
}

fn resolve_auto(
    handle: &str,
    line: &str,
    interface: &str,
    major: u64,
    optional: bool,
    siblings: &Vec<SiblingInterface>,
) -> (r: Result<Option<String>, ModuleError>)
    ensures
        match (r, automatic_peer(handle@, line@, interface@, major, optional, siblings@)) {
            (Ok(name), Ok(x)) => option_view(name) == x,
            (Err(e), Err(x)) => e@ == x,
            _ => false,
        },
{
    let ghost fit = |s: SiblingInterface| satisfies(s, line@, interface@, major);
    let mut count: usize = 0;
    let mut first: usize = 0;
    let mut i: usize = 0;
    while i < siblings.len()
        invariant
            fit == (|s: SiblingInterface| satisfies(s, line@, interface@, major)),
            i <= siblings@.len(),
            count <= i,
            siblings@.take(i as int).filter(fit).len() == count,
            count > 0 ==> first < siblings@.len() && siblings@.take(i as int).filter(fit)[0] == siblings@[first as int],
        decreases siblings@.len() - i,
    {
        proof {
            reveal(Seq::filter);
            assert(siblings@.take(i + 1).drop_last() =~= siblings@.take(i as int));
            assert(siblings@.take(i + 1).last() == siblings@[i as int]);
        }
        if fits(&siblings[i], line, interface, major) {
            if count == 0 {
                first = i;
            }
            count = count + 1;
        }
        i = i + 1;
    }
    proof {
        assert(siblings@.take(i as int) =~= siblings@);
    }
    if count == 0 {
        if optional {
            Ok(None)
        } else {
            let number = render_number(major as u128);
            let tail = concat3(" on line `", line, "`");
            let why = concat5(
                "no enabled sibling in the module space exposes interface `",
                interface,
                "` at major ",
                number.as_str(),
                tail.as_str(),
            );
            Err(ModuleError::PeerUnresolved(String::from_str(handle), why))
        }
    } else if count == 1 {
        Ok(Some(siblings[first].name.clone()))
    } else {
        Err(
            ModuleError::PeerUnresolved(
                String::from_str(handle),
                String::from_str("several compatible candidates require an explicit `$use` binding naming one sibling"),
            ),
        )
    }
}

/// Resolve every peer handle of a module against the enabled siblings in its space.
pub fn resolve(space: &ModuleSpace, bindings: &AdmittedBindings, siblings: &Vec<SiblingInterface>) -> (r: Result<
    Vec<ResolvedPeer>,
    ModuleError,
>)
    ensures
        match (r, peers_resolved(space@, bindings@.uses, siblings@, bindings@.uses.len())) {
            (Ok(peers), Ok(x)) => peer_views(peers@) == x,
            (Err(e), Err(x)) => e@ == x,
            _ => false,
        },
{
    let ghost uses = bindings@.uses;
    let mut peers: Vec<ResolvedPeer> = Vec::new();
    let n: usize = bindings.uses.len();
    let mut i: usize = 0;
    proof {
        assert(peer_views(peers@) =~= Seq::empty());
    }
    while i < n
        invariant
            n == bindings.uses@.len(),
            uses == bindings@.uses,
            uses == use_views(bindings.uses@),
            i <= n,
            peers_resolved(space@, uses, siblings@, i as nat) == Ok::<Seq<PeerView>, ModuleErrorView>(peer_views(peers@)),
        decreases n - i,
    {
        let u = &bindings.uses[i];
        let ghost prior = peer_views(peers@);
        proof {
            assert(uses[i as int] == u@);
        }
        if let UseSpec::Peer { line, interface, major } = &u.spec {
            let instance = match explicit_binding(bindings, u.handle.as_str()) {
                Some(path) => match resolve_explicit(
                    space.as_str(),
                    u.handle.as_str(),
                    path.as_str(),
                    line.as_str(),
                    interface.as_str(),
                    *major,
                    siblings,
                ) {
                    Ok(name) => Ok(Some(name)),
                    Err(e) => Err(e),
                },
                None => resolve_auto(
                    u.handle.as_str(),
                    line.as_str(),
                    interface.as_str(),
                    *major,
                    u.optional,
                    siblings,
                ),
            };
            match instance {
                Ok(found) => {
                    let peer = ResolvedPeer {
                        handle: u.handle.clone(),
                        interface: interface.clone(),
                        instance: found,
                        optional: u.optional,
                    };
                    peers.push(peer);
                    proof {
                        assert(peer_views(peers@) =~= prior.push(peer@));
                    }
                },
                Err(e) => {
                    proof {
                        lemma_peer_refusal(space@, uses, siblings@, (i + 1) as nat, n as nat);
                    }
                    return Err(e);
                },
            }
        }
        i = i + 1;
    }
    Ok(peers)
}

/// A handle nobody bound is bound to a sibling exactly when one sibling fits.
pub proof fn law_one_candidate(
    handle: Seq<char>,
    line: Seq<char>,
    interface: Seq<char>,
    major: u64,
    optional: bool,
    siblings: Seq<SiblingInterface>,
)
    ensures
        match automatic_peer(handle, line, interface, major, optional, siblings) {
            Ok(Some(name)) => candidates(siblings, line, interface, major).len() == 1 && exists|i: int|
                0 <= i < siblings.len() && #[trigger] satisfies(siblings[i], line, interface, major)
                    && siblings[i].name@ == name,
            Ok(None) => optional && forall|i: int|
                0 <= i < siblings.len() ==> !#[trigger] satisfies(siblings[i], line, interface, major),
            Err(_) => candidates(siblings, line, interface, major).len() != 1,
        },
{
    let fit = |s: SiblingInterface| satisfies(s, line, interface, major);
    let fitting = candidates(siblings, line, interface, major);
    broadcast use vstd::seq_lib::group_filter_ensures;
    if fitting.len() == 1 {
        assert(fitting.contains(fitting[0]));
        siblings.lemma_filter_contains_rev(fit, fitting[0]);
        let i = choose|i: int| 0 <= i < siblings.len() && siblings[i] == fitting[0];
        assert(fit(fitting[0]));
        assert(satisfies(siblings[i], line, interface, major));
    }
    if fitting.len() == 0 {
        assert forall|i: int| 0 <= i < siblings.len() implies !#[trigger] satisfies(siblings[i], line, interface, major) by {
            if satisfies(siblings[i], line, interface, major) {
                assert(fit(siblings[i]));
                siblings.lemma_filter_contains(fit, i);
                assert(fitting.contains(siblings[i]));
            }
        }
    }
}

} // verus!
