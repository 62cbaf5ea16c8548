//! Where modules are mounted: a path of collections and row keys that ends in the
//! declaration modules are mounted under.

use crate::module_error::{module_outcome, ModuleError, ModuleErrorView};
use crate::text::{
    after_prefix, concat, concat5, copy_texts, is_empty_text, join, join_texts, law_join_split, same_text, split,
    split_text, strip_prefix, texts,
};
use vstd::prelude::*;

verus! {

/// A place modules are mounted in, such as `/companies/acme/modules`.
#[derive(Debug)]
pub struct ModuleSpace {
    path: String,
    components: Vec<String>,
}

/// The components of a path.
pub open spec fn components_in(path: Seq<char>) -> Seq<Seq<char>> {
    split(path.skip(1), '/')
}

/// Whether a path is one modules can be mounted at: it starts at the root, and no
/// component is empty.
pub open spec fn is_space(path: Seq<char>) -> bool {
    &&& after_prefix(path, "/"@) is Some
    &&& forall|i: int| 0 <= i < components_in(path).len() ==> (#[trigger] components_in(path)[i]).len() > 0
}

/// The space at a path.
pub open spec fn space_at(path: Seq<char>) -> Result<Seq<char>, ModuleErrorView> {
    if is_space(path) {
        Ok(path)
    } else {
        Err(ModuleErrorView::InvalidSpace(path))
    }
}

/// The declared names along a path: every other component, from the first.
pub open spec fn declared_along(path: Seq<char>) -> Seq<Seq<char>> {
    let all = components_in(path);
    Seq::new((all.len() + 1) / 2, |i: int| all[2 * i])
}

/// The collection and key of each row a path passes through, where its components
/// pair up before the last.
pub open spec fn rows_along(path: Seq<char>) -> Option<Seq<(Seq<char>, Seq<char>)>> {
    let all = components_in(path);
    if (all.len() - 1) % 2 == 0 {
        Some(Seq::new(((all.len() - 1) / 2) as nat, |i: int| (all[2 * i], all[2 * i + 1])))
    } else {
        None
    }
}

impl View for ModuleSpace {
    type V = Seq<char>;

    closed spec fn view(&self) -> Seq<char> {
        self.path@
    }
}

/// What pairs of texts denote.
pub open spec fn pair_views(pairs: Seq<(String, String)>) -> Seq<(Seq<char>, Seq<char>)> {
    Seq::new(pairs.len(), |i: int| (pairs[i].0@, pairs[i].1@))
}

/// The components of the space a declaration mounts under the rows of these
/// collections and keys.
pub open spec fn mount_components(rows: Seq<(Seq<char>, Seq<char>)>, declaration: Seq<char>) -> Seq<Seq<char>> {
    Seq::new(
        2 * rows.len() + 1,
        |i: int|
            if i == 2 * rows.len() {
                declaration
            } else if i % 2 == 0 {
                rows[i / 2].0
            } else {
                rows[i / 2].1
            },
    )
}

/// The path of the space a declaration mounts under these rows.
pub open spec fn mount_path(rows: Seq<(Seq<char>, Seq<char>)>, declaration: Seq<char>) -> Seq<char> {
    "/"@ + join(mount_components(rows, declaration), "/"@)
}

/// A step of an address as text: the collection, and the key or why it has no text.
pub struct TextStep {
    pub collection: String,
    pub key: Result<String, String>,
}

/// The first step whose key has no text.
pub open spec fn first_untold(steps: Seq<TextStep>) -> Option<(Seq<char>, Seq<char>)>
    decreases steps.len(),
{
    if steps.len() == 0 {
        None
    } else {
        match steps[0].key {
            Err(why) => Some((steps[0].collection@, why@)),
            Ok(_) => first_untold(steps.drop_first()),
        }
    }
}

/// The collection and key text of each step.
pub open spec fn told(steps: Seq<TextStep>) -> Seq<(Seq<char>, Seq<char>)> {
    Seq::new(
        steps.len(),
        |i: int|
            (
                steps[i].collection@,
                match steps[i].key {
                    Ok(k) => k@,
                    Err(_) => Seq::empty(),
                },
            ),
    )
}

/// The space a declaration mounts under the row at these steps, which `rendered`
/// shows.
pub open spec fn mounted(steps: Seq<TextStep>, rendered: Seq<char>, declaration: Seq<char>) -> Result<
    Seq<char>,
    ModuleErrorView,
> {
    match first_untold(steps) {
        Some((name, why)) => Err(
            ModuleErrorView::InvalidSpace(
                "the row `"@ + rendered + "` has no key text at `"@ + name + ("`: "@ + why),
            ),
        ),
        None => space_at(mount_path(told(steps), declaration)),
    }
}

impl ModuleSpace {
    #[verifier::type_invariant]
    spec fn well_formed(self) -> bool {
        &&& is_space(self.path@)
        &&& texts(self.components@) == components_in(self.path@)
        &&& self.components@.len() >= 1
    }

    /// Read a path as a space.
    pub fn new(path: &str) -> (r: Result<ModuleSpace, ModuleError>)
        ensures
            module_outcome(r) == space_at(path@),
    {
        proof {
            reveal_strlit("/");
        }
        let body = match strip_prefix(path, "/") {
            Some(body) => body,
            None => {
                return Err(ModuleError::InvalidSpace(String::from_str(path)));
            },
        };
        let components = split_text(body.as_str(), '/');
        let mut i: usize = 0;
        while i < components.len()
            invariant
                body@ == path@.skip(1),
                i <= components@.len(),
                texts(components@) == components_in(path@),
                forall|j: int| 0 <= j < i ==> (#[trigger] components@[j])@.len() > 0,
            decreases components@.len() - i,
        {
            if is_empty_text(components[i].as_str()) {
                proof {
                    assert(components_in(path@)[i as int] == components@[i as int]@);
                }
                return Err(ModuleError::InvalidSpace(String::from_str(path)));
            }
            i = i + 1;
        }
        proof {
            assert forall|j: int| 0 <= j < components_in(path@).len() implies (#[trigger] components_in(path@)[j]).len()
                > 0 by {
                assert(components_in(path@)[j] == components@[j]@);
            }
        }
        Ok(ModuleSpace { path: String::from_str(path), components })
    }

    /// The space a declaration mounts under the row at these steps.
    pub fn mounted_at(steps: &Vec<TextStep>, rendered: &str, declaration: &str) -> (r: Result<ModuleSpace, ModuleError>)
        ensures
            module_outcome(r) == mounted(steps@, rendered@, declaration@),
    {
        let mut components: Vec<String> = Vec::new();
        let n: usize = steps.len();
        let ghost rows = told(steps@);
        let ghost want = mount_components(rows, declaration@);
        let mut i: usize = 0;
        proof {
            assert(steps@.skip(0) =~= steps@);
        }
        while i < n
            invariant
                n == steps@.len(),
                i <= n,
                rows == told(steps@),
                want == mount_components(rows, declaration@),
                components@.len() == 2 * i,
                forall|j: int| 0 <= j < 2 * i ==> (#[trigger] components@[j])@ == want[j],
                first_untold(steps@) == first_untold(steps@.skip(i as int)),
            decreases n - i,
        {
            let step = &steps[i];
            match &step.key {
                Err(why) => {
                    let tail = concat("`: ", why.as_str());
                    let message = concat5(
                        "the row `",
                        rendered,
                        "` has no key text at `",
                        step.collection.as_str(),
                        tail.as_str(),
                    );
                    return Err(ModuleError::InvalidSpace(message));
                },
                Ok(key) => {
                    components.push(step.collection.clone());
                    components.push(key.clone());
                    proof {
                        assert(want[2 * i] == rows[i as int].0);
                        assert(want[2 * i + 1] == rows[i as int].1);
                    }
                },
            }
            proof {
                assert(steps@.skip(i as int).drop_first() =~= steps@.skip(i + 1));
            }
            i = i + 1;
        }
        components.push(String::from_str(declaration));
        proof {
            assert(texts(components@) =~= want);
        }
        let body = join_texts(&components, "/");
        let path = concat("/", body.as_str());
        ModuleSpace::new(path.as_str())
    }

    /// The path of the space.
    pub fn as_str(&self) -> (r: &str)
        ensures
            r@ == self@,
    {
        self.path.as_str()
    }

    /// The components of the path, in order.
    pub fn components(&self) -> (r: &Vec<String>)
        ensures
            texts(r@) == components_in(self@),
            r@.len() >= 1,
    {
        proof {
            use_type_invariant(self);
        }
        &self.components
    }

    /// The declared names along the path, without the keys between them.
    pub fn declaration_path(&self) -> (r: Vec<String>)
        ensures
            texts(r@) == declared_along(self@),
    {
        let all = self.components();
        let n: usize = all.len();
        let ghost comps = components_in(self@);
        let mut r: Vec<String> = Vec::new();
        let mut i: usize = 0;
        while i < (n - 1) / 2 + 1
            invariant
                n == all@.len(),
                n >= 1,
                comps == texts(all@),
                i <= (n - 1) / 2 + 1,
                r@.len() == i,
                forall|j: int| 0 <= j < i ==> (#[trigger] r@[j])@ == comps[2 * j],
            decreases (n - 1) / 2 + 1 - i,
        {
            r.push(all[2 * i].clone());
            i = i + 1;
        }
        proof {
            assert(texts(r@) =~= declared_along(self@));
        }
        r
    }

    /// The collection and key of each row that contains the space; none for a path
    /// whose components do not pair up.
    pub fn containing_row_steps(&self) -> (r: Option<Vec<(String, String)>>)
        ensures
            match r {
                Some(rows) => rows_along(self@) == Some(pair_views(rows@)),
                None => rows_along(self@) is None,
            },
    {
        let all = self.components();
        let n: usize = all.len();
        let ghost comps = components_in(self@);
        if (n - 1) % 2 != 0 {
            return None;
        }
        let k: usize = (n - 1) / 2;
        let mut r: Vec<(String, String)> = Vec::new();
        let mut i: usize = 0;
        while i < k
            invariant
                n == all@.len(),
                2 * k + 1 == n,
                comps == texts(all@),
                i <= k,
                r@.len() == i,
                forall|j: int|
                    0 <= j < i ==> (#[trigger] r@[j]).0@ == comps[2 * j] && r@[j].1@ == comps[2 * j + 1],
            decreases k - i,
        {
            r.push((all[2 * i].clone(), all[2 * i + 1].clone()));
            i = i + 1;
        }
        proof {
            assert(pair_views(r@) =~= rows_along(self@)->0);
        }
        Some(r)
    }

    /// Whether two spaces are the same.
    pub fn same(&self, other: &ModuleSpace) -> (r: bool)
        ensures
            r == (self@ == other@),
    {
        same_text(self.path.as_str(), other.path.as_str())
    }

    /// A copy that denotes the same.
    pub fn copy(&self) -> (r: ModuleSpace)
        ensures
            r@ == self@,
    {
        proof {
            use_type_invariant(self);
        }
        let path = self.path.clone();
        let components = copy_texts(&self.components);
        ModuleSpace { path, components }
    }
}

/// A space mounted under a row reads back as the declaration it was mounted for and
/// as that row, where no name or key holds a slash: a key cannot forge a level of
/// the path.
pub proof fn law_mount_reads_back(rows: Seq<(Seq<char>, Seq<char>)>, declaration: Seq<char>)
    requires
        declaration.len() > 0 && !declaration.contains('/'),
        forall|i: int|
            0 <= i < rows.len() ==> (#[trigger] rows[i]).0.len() > 0 && rows[i].1.len() > 0 && !rows[i].0.contains('/')
                && !rows[i].1.contains('/'),
    ensures
        is_space(mount_path(rows, declaration)),
        rows_along(mount_path(rows, declaration)) == Some(rows),
        declared_along(mount_path(rows, declaration)) == Seq::new(rows.len(), |i: int| rows[i].0).push(declaration),
{
    reveal_strlit("/");
    let parts = mount_components(rows, declaration);
    let path = mount_path(rows, declaration);
    assert("/"@ =~= seq!['/']);
    assert forall|i: int| 0 <= i < parts.len() implies !(#[trigger] parts[i]).contains('/') && parts[i].len() > 0 by {
        if i < 2 * rows.len() {
            assert(rows[i / 2].0.len() > 0);
        }
    }
    law_join_split(parts, '/');
    assert(path.skip(1) =~= join(parts, "/"@));
    assert(components_in(path) == parts);
    assert(path.take(1) =~= "/"@);
    assert(rows_along(path)->0 =~= rows) by {
        assert forall|i: int| 0 <= i < rows.len() implies rows_along(path)->0[i] == rows[i] by {
            assert(parts[2 * i] == rows[i].0);
            assert(parts[2 * i + 1] == rows[i].1);
        }
    }
    let names = Seq::new(rows.len(), |i: int| rows[i].0).push(declaration);
    assert forall|i: int| 0 <= i < names.len() implies declared_along(path)[i] == names[i] by {
        if i < rows.len() {
            assert(parts[2 * i] == rows[i].0);
        } else {
            assert(parts[2 * i] == declaration);
        }
    }
    assert(declared_along(path) =~= names);
}

} // verus!
