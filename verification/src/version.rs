//! Package versions, and the routes between them that one migration covers.

use crate::doc::{member, member_of, object, Doc};
use crate::text::{
    concat5, is_digit, law_numeral, law_position_numeral, numeral, parse_position, position_of, render_number, split,
    split_text, texts,
};
use vstd::prelude::*;

verus! {

/// A package version.
#[derive(Debug, Clone, Copy, PartialEq, Eq, Structural)]
pub struct Version {
    pub major: u64,
    pub minor: u64,
    pub patch: u64,
}

/// Whether one version precedes another.
pub open spec fn precedes(a: Version, b: Version) -> bool {
    a.major < b.major || (a.major == b.major && (a.minor < b.minor || (a.minor == b.minor && a.patch < b.patch)))
}

/// The version a text names: three positions, parted by dots.
pub open spec fn version_of(text: Seq<char>) -> Option<Version> {
    let parts = split(text, '.');
    if parts.len() == 3 {
        match (position_of(parts[0]), position_of(parts[1]), position_of(parts[2])) {
            (Some(major), Some(minor), Some(patch)) => Some(Version { major, minor, patch }),
            _ => None,
        }
    } else {
        None
    }
}

impl Version {
    /// Whether this version precedes another.
    pub fn precedes(&self, other: &Version) -> (r: bool)
        ensures
            r == precedes(*self, *other),
    {
        self.major < other.major || (self.major == other.major && (self.minor < other.minor || (self.minor == other.minor
            && self.patch < other.patch)))
    }
}

/// Read a version.
pub fn parse_version_triple(text: &str) -> (r: Option<Version>)
    ensures
        r == version_of(text@),
{
    let parts = split_text(text, '.');
    proof {
        assert(texts(parts@) == split(text@, '.'));
    }
    if parts.len() != 3 {
        return None;
    }
    proof {
        assert(split(text@, '.')[0] == parts@[0]@);
        assert(split(text@, '.')[1] == parts@[1]@);
        assert(split(text@, '.')[2] == parts@[2]@);
    }
    match (
        parse_position(parts[0].as_str()),
        parse_position(parts[1].as_str()),
        parse_position(parts[2].as_str()),
    ) {
        (Some(major), Some(minor), Some(patch)) => Some(Version { major, minor, patch }),
        _ => None,
    }
}

/// A version as text.
pub open spec fn version_text(v: Version) -> Seq<char> {
    numeral(v.major as nat) + "."@ + numeral(v.minor as nat) + "."@ + numeral(v.patch as nat)
}

impl Version {
    /// The version as text.
    pub fn text(&self) -> (r: String)
        ensures
            r@ == version_text(*self),
    {
        let major = render_number(self.major as u128);
        let minor = render_number(self.minor as u128);
        let patch = render_number(self.patch as u128);
        concat5(major.as_str(), ".", minor.as_str(), ".", patch.as_str())
    }
}

/// The first piece of a text ends at its first separator.
proof fn lemma_first_piece(a: Seq<char>, rest: Seq<char>, separator: char)
    requires
        !a.contains(separator),
    ensures
        split(a.push(separator) + rest, separator) == seq![a] + split(rest, separator),
{
    let text = a.push(separator) + rest;
    text.index_of_first_ensures(separator);
    assert(text[a.len() as int] == separator);
    assert(text.contains(separator));
    let p = text.index_of_first(separator)->0;
    if p < a.len() {
        assert(a[p] == separator);
        assert(a.contains(separator));
    }
    assert(p == a.len());
    assert(text.take(p) =~= a);
    assert(text.skip(p + 1) =~= rest);
}

proof fn lemma_numeral_piece(n: nat)
    ensures
        !numeral(n).contains('.'),
{
    law_numeral(n);
    let s = numeral(n);
    if s.contains('.') {
        let i = choose|i: int| 0 <= i < s.len() && s[i] == '.';
        assert(is_digit(s[i]));
    }
}

/// Reading a version back from its text gives the version.
pub proof fn law_version_text(v: Version)
    ensures
        version_of(version_text(v)) == Some(v),
{
    let a = numeral(v.major as nat);
    let b = numeral(v.minor as nat);
    let c = numeral(v.patch as nat);
    reveal_strlit(".");
    lemma_numeral_piece(v.major as nat);
    lemma_numeral_piece(v.minor as nat);
    lemma_numeral_piece(v.patch as nat);
    let tail = b.push('.') + c;
    assert(version_text(v) =~= a.push('.') + tail);
    lemma_first_piece(a, tail, '.');
    lemma_first_piece(b, c, '.');
    c.index_of_first_ensures('.');
    assert(split(c, '.') =~= seq![c]);
    assert(split(version_text(v), '.') =~= seq![a, b, c]);
    law_position_numeral(v.major);
    law_position_numeral(v.minor);
    law_position_numeral(v.patch);
}

/// The versions that member names name.
pub open spec fn named_versions(members: Seq<(String, Doc)>) -> Seq<Version>
    decreases members.len(),
{
    if members.len() == 0 {
        Seq::empty()
    } else {
        match version_of(members.last().0@) {
            Some(v) => named_versions(members.drop_last()).push(v),
            None => named_versions(members.drop_last()),
        }
    }
}

/// The versions from which a model declares a migration.
pub open spec fn migration_sources(model: Option<Doc>) -> Seq<Version> {
    match model {
        Some(m) => match member_of(m, "$migrations"@) {
            Some(Doc::Object(members)) => named_versions(members@),
            _ => Seq::empty(),
        },
        None => Seq::empty(),
    }
}

/// The versions from which a model declares a migration; none where there is no
/// model.
pub fn declared_migration_sources(model: Option<&Doc>) -> (r: Vec<Version>)
    ensures
        r@ == migration_sources(
            match model {
                Some(m) => Some(*m),
                None => None,
            },
        ),
{
    let mut r: Vec<Version> = Vec::new();
    let members = match model {
        Some(model) => match member(model, "$migrations") {
            Some(migrations) => match object(migrations) {
                Some(members) => members,
                None => {
                    return r;
                },
            },
            None => {
                return r;
            },
        },
        None => {
            return r;
        },
    };
    let mut i: usize = 0;
    proof {
        assert(members@.take(0) =~= Seq::<(String, Doc)>::empty());
    }
    while i < members.len()
        invariant
            i <= members@.len(),
            r@ == named_versions(members@.take(i as int)),
        decreases members@.len() - i,
    {
        proof {
            assert(members@.take(i + 1).drop_last() =~= members@.take(i as int));
            assert(members@.take(i + 1).last() == members@[i as int]);
        }
        if let Some(v) = parse_version_triple(members[i].0.as_str()) {
            r.push(v);
        }
        i = i + 1;
    }
    proof {
        assert(members@.take(i as int) =~= members@);
    }
    r
}

/// Whether a version lies strictly between two others, whichever of them is first.
pub open spec fn between(a: Version, b: Version, v: Version) -> bool {
    (precedes(a, v) && precedes(v, b)) || (precedes(b, v) && precedes(v, a))
}

/// Whether one migration covers the route between two versions: no declared source
/// lies strictly between them.
pub open spec fn connected(active: Version, target: Version, sources: Seq<Version>) -> bool {
    forall|i: int| 0 <= i < sources.len() ==> !between(active, target, #[trigger] sources[i])
}

/// Whether one migration covers the route from the active version to the target.
pub fn connected_delta_path(active: &Version, target: &Version, model: Option<&Doc>) -> (r: bool)
    ensures
        r == connected(
            *active,
            *target,
            migration_sources(
                match model {
                    Some(m) => Some(*m),
                    None => None,
                },
            ),
        ),
{
    let sources = declared_migration_sources(model);
    let mut i: usize = 0;
    while i < sources.len()
        invariant
            sources@ == migration_sources(
                match model {
                    Some(m) => Some(*m),
                    None => None,
                },
            ),
            i <= sources@.len(),
            forall|j: int| 0 <= j < i ==> !between(*active, *target, #[trigger] sources@[j]),
        decreases sources@.len() - i,
    {
        let v = &sources[i];
        if (active.precedes(v) && v.precedes(target)) || (target.precedes(v) && v.precedes(active)) {
            proof {
                assert(between(*active, *target, sources@[i as int]));
            }
            return false;
        }
        i = i + 1;
    }
    true
}

/// A route is covered in one direction exactly where it is covered in the other.
pub proof fn law_connected_symmetric(a: Version, b: Version, sources: Seq<Version>)
    ensures
        connected(a, b, sources) == connected(b, a, sources),
{
    assert forall|i: int| 0 <= i < sources.len() implies between(a, b, #[trigger] sources[i]) == between(
        b,
        a,
        sources[i],
    ) by {}
}

/// Where every declared source is the active version, the target, or outside the
/// range between them, one migration covers the route.
pub proof fn law_connected_outside(active: Version, target: Version, sources: Seq<Version>)
    requires
        precedes(active, target) || active == target,
        forall|i: int|
            0 <= i < sources.len() ==> ({
                let v = #[trigger] sources[i];
                v == active || v == target || precedes(v, active) || precedes(target, v)
            }),
    ensures
        connected(active, target, sources),
{
    assert forall|i: int| 0 <= i < sources.len() implies !between(active, target, #[trigger] sources[i]) by {}
}

} // verus!
