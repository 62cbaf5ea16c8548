//! The committed rows of an instance, captured as a tree.

use crate::state::Fields;
use crate::text::same_text;
use vstd::prelude::*;

verus! {

/// A committed row, and the rows of each collection nested in it.
pub struct CapturedRow {
    pub fields: Fields,
    pub children: Vec<(String, Vec<CapturedRow>)>,
}

/// The committed state of an instance: the rows of each top-level collection, and the
/// root members, where the package has any.
pub struct StateSection {
    pub collections: Vec<(String, Vec<CapturedRow>)>,
    pub singleton: Option<Fields>,
}

/// The rows under the first entry of this name.
pub open spec fn rows_named(entries: Seq<(String, Vec<CapturedRow>)>, name: Seq<char>) -> Option<Seq<CapturedRow>>
    decreases entries.len(),
{
    if entries.len() == 0 {
        None
    } else if entries[0].0@ == name {
        Some(entries[0].1@)
    } else {
        rows_named(entries.drop_first(), name)
    }
}

/// The rows under the first entry of this name; none where there is no entry.
pub open spec fn rows_under(entries: Seq<(String, Vec<CapturedRow>)>, name: Seq<char>) -> Seq<CapturedRow> {
    match rows_named(entries, name) {
        Some(rows) => rows,
        None => Seq::empty(),
    }
}

/// Find the rows under a name.
pub fn find_rows<'a>(entries: &'a Vec<(String, Vec<CapturedRow>)>, name: &str) -> (r: Option<&'a Vec<CapturedRow>>)
    ensures
        match r {
            Some(rows) => rows_named(entries@, name@) == Some(rows@),
            None => rows_named(entries@, name@) is None,
        },
{
    let mut i: usize = 0;
    proof {
        assert(entries@.skip(0) =~= entries@);
    }
    while i < entries.len()
        invariant
            i <= entries@.len(),
            rows_named(entries@, name@) == rows_named(entries@.skip(i as int), name@),
        decreases entries@.len() - i,
    {
        if same_text(entries[i].0.as_str(), name) {
            return Some(&entries[i].1);
        }
        proof {
            assert(entries@.skip(i as int).drop_first() =~= entries@.skip(i + 1));
        }
        i = i + 1;
    }
    None
}

impl CapturedRow {
    /// The rows of a nested collection.
    pub fn child(&self, name: &str) -> (r: Option<&Vec<CapturedRow>>)
        ensures
            match r {
                Some(rows) => rows_under(self.children@, name@) == rows@,
                None => rows_under(self.children@, name@) == Seq::<CapturedRow>::empty(),
            },
    {
        find_rows(&self.children, name)
    }
}

impl StateSection {
    /// The rows of a top-level collection.
    pub fn collection(&self, name: &str) -> (r: Option<&Vec<CapturedRow>>)
        ensures
            match r {
                Some(rows) => rows_named(self.collections@, name@) == Some(rows@),
                None => rows_named(self.collections@, name@) is None,
            },
    {
        find_rows(&self.collections, name)
    }
}

} // verus!
