//! The compiled shape of a package: its collections, their fields, and what is
//! nested in them.

use crate::text::{same_text, texts};
use vstd::prelude::*;

verus! {

/// A writable field of a collection.
#[derive(Debug)]
pub struct CompiledField {
    pub name: String,
    /// Whether every committed row carries a value here.
    pub required: bool,
    /// Whether the field holds a set.
    pub set_valued: bool,
    /// Whether the field holds one of a closed list of labels.
    pub enumerated: bool,
    /// The collection a reference in this field points into: the names that lead to it,
    /// joined by `/`.
    pub reference: Option<String>,
    /// The collection the members of this set-valued field point into, written in the
    /// same way.
    pub element_reference: Option<String>,
}

/// A static struct member of a collection.
#[derive(Debug)]
pub struct CompiledStruct {
    pub name: String,
    pub fields: Vec<CompiledField>,
}

/// A keyed collection.
#[derive(Debug)]
pub struct CompiledCollection {
    pub name: String,
    /// The fields that make up a row's key, in order.
    pub key: Vec<String>,
    pub fields: Vec<CompiledField>,
    pub structs: Vec<CompiledStruct>,
    /// The collections nested in each row.
    pub children: Vec<CompiledCollection>,
}

/// A compiled package.
#[derive(Debug)]
pub struct Compiled {
    pub collections: Vec<CompiledCollection>,
}

/// The first collection of this name.
pub open spec fn named(collections: Seq<CompiledCollection>, name: Seq<char>) -> Option<CompiledCollection>
    decreases collections.len(),
{
    if collections.len() == 0 {
        None
    } else if collections[0].name@ == name {
        Some(collections[0])
    } else {
        named(collections.drop_first(), name)
    }
}

/// The collection a path of names leads to, from these collections down.
pub open spec fn at_path(collections: Seq<CompiledCollection>, path: Seq<Seq<char>>) -> Option<CompiledCollection>
    decreases path.len(),
{
    if path.len() == 0 {
        None
    } else {
        match named(collections, path[0]) {
            None => None,
            Some(c) => if path.len() == 1 {
                Some(c)
            } else {
                at_path(c.children@, path.drop_first())
            },
        }
    }
}

/// The first field of this name.
pub open spec fn field_named(fields: Seq<CompiledField>, name: Seq<char>) -> Option<CompiledField>
    decreases fields.len(),
{
    if fields.len() == 0 {
        None
    } else if fields[0].name@ == name {
        Some(fields[0])
    } else {
        field_named(fields.drop_first(), name)
    }
}

/// Whether one of these structs has this name.
pub open spec fn struct_named(structs: Seq<CompiledStruct>, name: Seq<char>) -> bool {
    exists|i: int| 0 <= i < structs.len() && #[trigger] structs[i].name@ == name
}

/// The view of an optional name.
pub open spec fn name_view(name: Option<String>) -> Option<Seq<char>> {
    match name {
        Some(n) => Some(n@),
        None => None,
    }
}

/// Whether an optional name is this one.
pub fn is_named(name: &Option<String>, wanted: &str) -> (r: bool)
    ensures
        r == (name_view(*name) == Some(wanted@)),
{
    match name {
        Some(n) => same_text(n.as_str(), wanted),
        None => false,
    }
}

/// The first collection of this name.
pub fn find_collection<'a>(collections: &'a Vec<CompiledCollection>, name: &str) -> (r: Option<&'a CompiledCollection>)
    ensures
        match r {
            Some(c) => named(collections@, name@) == Some(*c),
            None => named(collections@, name@) is None,
        },
{
    let mut i: usize = 0;
    proof {
        assert(collections@.skip(0) =~= collections@);
    }
    while i < collections.len()
        invariant
            i <= collections@.len(),
            named(collections@, name@) == named(collections@.skip(i as int), name@),
        decreases collections@.len() - i,
    {
        if same_text(collections[i].name.as_str(), name) {
            return Some(&collections[i]);
        }
        proof {
            assert(collections@.skip(i as int).drop_first() =~= collections@.skip(i + 1));
        }
        i = i + 1;
    }
    None
}

/// The collection a path of names leads to.
pub fn find_path<'a>(
    collections: &'a Vec<CompiledCollection>,
    path: &Vec<String>,
) -> (r: Option<&'a CompiledCollection>)
    ensures
        match r {
            Some(c) => at_path(collections@, texts(path@)) == Some(*c),
            None => at_path(collections@, texts(path@)) is None,
        },
{
    if path.len() == 0 {
        return None;
    }
    let mut here: &'a Vec<CompiledCollection> = collections;
    let mut i: usize = 0;
    proof {
        assert(texts(path@).skip(0) =~= texts(path@));
    }
    while i < path.len()
        invariant
            i < path@.len(),
            at_path(collections@, texts(path@)) == at_path(here@, texts(path@).skip(i as int)),
        decreases path@.len() - i,
    {
        proof {
            assert(texts(path@).skip(i as int)[0] == path@[i as int]@);
            assert(texts(path@).skip(i as int).drop_first() =~= texts(path@).skip(i + 1));
        }
        match find_collection(here, path[i].as_str()) {
            None => {
                return None;
            },
            Some(c) => {
                if i == path.len() - 1 {
                    return Some(c);
                }
                here = &c.children;
            },
        }
        i = i + 1;
    }
    None
}

impl Compiled {
    /// The collection a path of names leads to.
    pub open spec fn at(self, path: Seq<Seq<char>>) -> Option<CompiledCollection> {
        at_path(self.collections@, path)
    }

    /// The top-level collection of this name.
    pub open spec fn top(self, name: Seq<char>) -> Option<CompiledCollection> {
        named(self.collections@, name)
    }

    /// The top-level collection of this name.
    pub fn collection(&self, name: &str) -> (r: Option<&CompiledCollection>)
        ensures
            match r {
                Some(c) => self.top(name@) == Some(*c),
                None => self.top(name@) is None,
            },
    {
        find_collection(&self.collections, name)
    }

    /// The collection a path of names leads to.
    pub fn collection_at(&self, path: &Vec<String>) -> (r: Option<&CompiledCollection>)
        ensures
            match r {
                Some(c) => self.at(texts(path@)) == Some(*c),
                None => self.at(texts(path@)) is None,
            },
    {
        find_path(&self.collections, path)
    }
}

impl CompiledCollection {
    /// The nested collection of this name.
    pub fn child(&self, name: &str) -> (r: Option<&CompiledCollection>)
        ensures
            match r {
                Some(c) => named(self.children@, name@) == Some(*c),
                None => named(self.children@, name@) is None,
            },
    {
        find_collection(&self.children, name)
    }

    /// The field of this name.
    pub fn field(&self, name: &str) -> (r: Option<&CompiledField>)
        ensures
            match r {
                Some(f) => field_named(self.fields@, name@) == Some(*f),
                None => field_named(self.fields@, name@) is None,
            },
    {
        let mut i: usize = 0;
        proof {
            assert(self.fields@.skip(0) =~= self.fields@);
        }
        while i < self.fields.len()
            invariant
                i <= self.fields@.len(),
                field_named(self.fields@, name@) == field_named(self.fields@.skip(i as int), name@),
            decreases self.fields@.len() - i,
        {
            if same_text(self.fields[i].name.as_str(), name) {
                return Some(&self.fields[i]);
            }
            proof {
                assert(self.fields@.skip(i as int).drop_first() =~= self.fields@.skip(i + 1));
            }
            i = i + 1;
        }
        None
    }

    /// Whether a static struct member has this name.
    pub fn has_struct(&self, name: &str) -> (r: bool)
        ensures
            r == struct_named(self.structs@, name@),
    {
        let mut i: usize = 0;
        while i < self.structs.len()
            invariant
                i <= self.structs@.len(),
                forall|j: int| 0 <= j < i ==> (#[trigger] self.structs@[j]).name@ != name@,
            decreases self.structs@.len() - i,
        {
            if same_text(self.structs[i].name.as_str(), name) {
                return true;
            }
            i = i + 1;
        }
        false
    }
}

} // verus!
