//! A parsed definition document.

use crate::text::same_text;
use vstd::prelude::*;

verus! {

/// A value of a definition document.
pub enum Doc {
    /// Named members, in document order.
    Object(Vec<(String, Doc)>),
    List(Vec<Doc>),
    Text(String),
    /// A number, a truth value, or nothing.
    Other,
}

/// The first member of this name.
pub open spec fn doc_member(members: Seq<(String, Doc)>, name: Seq<char>) -> Option<Doc>
    decreases members.len(),
{
    if members.len() == 0 {
        None
    } else if members[0].0@ == name {
        Some(members[0].1)
    } else {
        doc_member(members.drop_first(), name)
    }
}

/// The member of an object by name; other values have none.
pub open spec fn member_of(doc: Doc, name: Seq<char>) -> Option<Doc> {
    match doc {
        Doc::Object(members) => doc_member(members@, name),
        _ => None,
    }
}

/// The text of a text value.
pub open spec fn text_of(doc: Doc) -> Option<Seq<char>> {
    match doc {
        Doc::Text(t) => Some(t@),
        _ => None,
    }
}

/// The text of a member.
pub open spec fn member_text(members: Seq<(String, Doc)>, name: Seq<char>) -> Option<Seq<char>> {
    match doc_member(members, name) {
        Some(d) => text_of(d),
        None => None,
    }
}

/// Find a member by name.
pub fn find_doc<'a>(members: &'a Vec<(String, Doc)>, name: &str) -> (r: Option<&'a Doc>)
    ensures
        match r {
            Some(d) => doc_member(members@, name@) == Some(*d),
            None => doc_member(members@, name@) is None,
        },
{
    let mut i: usize = 0;
    proof {
        assert(members@.skip(0) =~= members@);
    }
    while i < members.len()
        invariant
            i <= members@.len(),
            doc_member(members@, name@) == doc_member(members@.skip(i as int), name@),
        decreases members@.len() - i,
    {
        if same_text(members[i].0.as_str(), name) {
            return Some(&members[i].1);
        }
        proof {
            assert(members@.skip(i as int).drop_first() =~= members@.skip(i + 1));
        }
        i = i + 1;
    }
    None
}

/// The member of an object by name.
pub fn member<'a>(doc: &'a Doc, name: &str) -> (r: Option<&'a Doc>)
    ensures
        match r {
            Some(d) => member_of(*doc, name@) == Some(*d),
            None => member_of(*doc, name@) is None,
        },
{
    match doc {
        Doc::Object(members) => find_doc(members, name),
        _ => None,
    }
}

/// The members of an object.
pub fn object(doc: &Doc) -> (r: Option<&Vec<(String, Doc)>>)
    ensures
        match r {
            Some(m) => *doc == Doc::Object(*m),
            None => !(*doc is Object),
        },
{
    match doc {
        Doc::Object(members) => Some(members),
        _ => None,
    }
}

/// The text of a text value.
pub fn string(doc: &Doc) -> (r: Option<&String>)
    ensures
        match r {
            Some(t) => *doc == Doc::Text(*t),
            None => !(*doc is Text),
        },
{
    match doc {
        Doc::Text(t) => Some(t),
        _ => None,
    }
}

/// The text of a member.
pub fn find_text<'a>(members: &'a Vec<(String, Doc)>, name: &str) -> (r: Option<&'a String>)
    ensures
        match r {
            Some(t) => member_text(members@, name@) == Some(t@),
            None => member_text(members@, name@) is None,
        },
{
    match find_doc(members, name) {
        Some(d) => string(d),
        None => None,
    }
}

} // verus!
