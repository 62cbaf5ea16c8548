//! What a module asks of its surroundings: parent surfaces, sibling modules, and
//! private dependencies.

use crate::module_error::{ModuleError, ModuleErrorView};
use crate::text::{
    after_prefix, cut, is_empty_text, law_position_numeral, lemma_cut, numeral, parse_position, position_of, same_text,
    split_once, strip_prefix,
};
use vstd::prelude::*;

verus! {

/// What a `$use` handle is bound to.
#[derive(Debug)]
pub enum UseSpec {
    /// The parent surface of the handle's own name.
    Parent,
    /// A parent surface of another name.
    ParentSurface(String),
    /// The sibling at a path.
    Path(String),
    /// Any sibling of a package line that exposes an interface at a major version.
    Peer { line: String, interface: String, major: u64 },
}

/// What a [`UseSpec`] denotes.
#[verifier::ext_equal]
pub enum UseView {
    Parent,
    ParentSurface(Seq<char>),
    Path(Seq<char>),
    Peer { line: Seq<char>, interface: Seq<char>, major: u64 },
}

impl View for UseSpec {
    type V = UseView;

    open spec fn view(&self) -> UseView {
        match self {
            UseSpec::Parent => UseView::Parent,
            UseSpec::ParentSurface(name) => UseView::ParentSurface(name@),
            UseSpec::Path(path) => UseView::Path(path@),
            UseSpec::Peer { line, interface, major } => UseView::Peer {
                line: line@,
                interface: interface@,
                major: *major,
            },
        }
    }
}

/// The peer a text `line/interface@major` asks for.
pub open spec fn peer_of(text: Seq<char>) -> Option<UseView> {
    match cut(text, '/') {
        Some((line, rest)) => match cut(rest, '@') {
            Some((interface, major)) => match position_of(major) {
                Some(n) => if line.len() > 0 && interface.len() > 0 {
                    Some(UseView::Peer { line, interface, major: n })
                } else {
                    None
                },
                None => None,
            },
            None => None,
        },
        None => None,
    }
}

/// What a `$use` text binds to: `$parent`, `$parent.name`, an absolute path, or a
/// peer.
pub open spec fn use_of(text: Seq<char>) -> Result<UseView, ModuleErrorView> {
    if text == "$parent"@ {
        Ok(UseView::Parent)
    } else {
        match after_prefix(text, "$parent."@) {
            Some(name) => if name.len() == 0 {
                Err(ModuleErrorView::InvalidBinding(name))
            } else {
                Ok(UseView::ParentSurface(name))
            },
            None => if after_prefix(text, "/"@) is Some {
                Ok(UseView::Path(text))
            } else {
                match peer_of(text) {
                    Some(peer) => Ok(peer),
                    None => Err(ModuleErrorView::InvalidBinding(text)),
                }
            },
        }
    }
}

fn parse_peer(text: &str) -> (r: Option<UseSpec>)
    ensures
        match r {
            Some(peer) => peer_of(text@) == Some(peer@),
            None => peer_of(text@) is None,
        },
{
    match split_once(text, '/') {
        Some((line, rest)) => match split_once(rest.as_str(), '@') {
            Some((interface, major)) => match parse_position(major.as_str()) {
                Some(n) => if is_empty_text(line.as_str()) || is_empty_text(interface.as_str()) {
                    None
                } else {
                    Some(UseSpec::Peer { line, interface, major: n })
                },
                None => None,
            },
            None => None,
        },
        None => None,
    }
}

impl UseSpec {
    /// Read a `$use` text.
    pub fn parse(spec: &str) -> (r: Result<UseSpec, ModuleError>)
        ensures
            match (r, use_of(spec@)) {
                (Ok(u), Ok(x)) => u@ == x,
                (Err(e), Err(x)) => e@ == x,
                _ => false,
            },
    {
        if same_text(spec, "$parent") {
            return Ok(UseSpec::Parent);
        }
        if let Some(name) = strip_prefix(spec, "$parent.") {
            return if is_empty_text(name.as_str()) {
                Err(ModuleError::InvalidBinding(name))
            } else {
                Ok(UseSpec::ParentSurface(name))
            };
        }
        if strip_prefix(spec, "/").is_some() {
            return Ok(UseSpec::Path(String::from_str(spec)));
        }
        match parse_peer(spec) {
            Some(peer) => Ok(peer),
            None => Err(ModuleError::InvalidBinding(String::from_str(spec))),
        }
    }

    /// A copy that denotes the same.
    pub fn copy(&self) -> (r: UseSpec)
        ensures
            r@ == self@,
    {
        match self {
            UseSpec::Parent => UseSpec::Parent,
            UseSpec::ParentSurface(name) => UseSpec::ParentSurface(name.clone()),
            UseSpec::Path(path) => UseSpec::Path(path.clone()),
            UseSpec::Peer { line, interface, major } => UseSpec::Peer {
                line: line.clone(),
                interface: interface.clone(),
                major: *major,
            },
        }
    }
}

/// A private dependency: a package line at a major version.
#[derive(Debug)]
pub struct DepSpec {
    pub line: String,
    pub major: u64,
}

impl View for DepSpec {
    type V = (Seq<char>, u64);

    open spec fn view(&self) -> (Seq<char>, u64) {
        (self.line@, self.major)
    }
}

/// The dependency a text `line@major` names.
pub open spec fn dep_of(text: Seq<char>) -> Result<(Seq<char>, u64), ModuleErrorView> {
    match cut(text, '@') {
        Some((line, major)) => match position_of(major) {
            Some(n) if line.len() > 0 => Ok((line, n)),
            _ => Err(ModuleErrorView::InvalidBinding(text)),
        },
        None => Err(ModuleErrorView::InvalidBinding(text)),
    }
}

impl DepSpec {
    /// Read a `$deps` text.
    pub fn parse(spec: &str) -> (r: Result<DepSpec, ModuleError>)
        ensures
            match (r, dep_of(spec@)) {
                (Ok(d), Ok(x)) => d@ == x,
                (Err(e), Err(x)) => e@ == x,
                _ => false,
            },
    {
        match split_once(spec, '@') {
            Some((line, major)) => match parse_position(major.as_str()) {
                Some(n) => if is_empty_text(line.as_str()) {
                    Err(ModuleError::InvalidBinding(String::from_str(spec)))
                } else {
                    Ok(DepSpec { line, major: n })
                },
                None => Err(ModuleError::InvalidBinding(String::from_str(spec))),
            },
            None => Err(ModuleError::InvalidBinding(String::from_str(spec))),
        }
    }
}

/// A dependency reads back from the text that names it.
pub proof fn law_dep_text(line: Seq<char>, major: u64)
    requires
        line.len() > 0,
        !line.contains('@'),
    ensures
        dep_of(line + seq!['@'] + numeral(major as nat)) == Ok::<(Seq<char>, u64), ModuleErrorView>((line, major)),
{
    lemma_cut(line, '@', numeral(major as nat));
    law_position_numeral(major);
}

/// A peer reads back from the text that names it, unless the line reads as a parent
/// surface.
pub proof fn law_peer_text(line: Seq<char>, interface: Seq<char>, major: u64)
    requires
        line.len() > 0,
        !line.contains('/'),
        after_prefix(line, "$parent."@) is None,
        interface.len() > 0,
        !interface.contains('@'),
    ensures
        use_of(line + seq!['/'] + (interface + seq!['@'] + numeral(major as nat))) == Ok::<UseView, ModuleErrorView>(
            UseView::Peer { line, interface, major },
        ),
{
    let rest = interface + seq!['@'] + numeral(major as nat);
    let text = line + seq!['/'] + rest;
    lemma_cut(line, '/', rest);
    lemma_cut(interface, '@', numeral(major as nat));
    law_position_numeral(major);
    reveal_strlit("$parent");
    reveal_strlit("$parent.");
    reveal_strlit("/");
    let n = line.len() as int;
    assert(text[n] == '/');
    if text == "$parent"@ {
        assert(("$parent"@)[n] == '/');
        assert(false);
    }
    if after_prefix(text, "$parent."@) is Some {
        let head = text.take(8);
        assert(head == "$parent."@);
        if n < 8 {
            assert(head[n] == text[n]);
            assert(false);
        }
        assert(line.take(8) =~= head);
        assert(false);
    }
    if after_prefix(text, "/"@) is Some {
        assert(text.take(1)[0] == text[0]);
        assert(text[0] == line[0]);
        assert(line.contains('/'));
        assert(false);
    }
}

} // verus!
