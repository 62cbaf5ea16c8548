//! Moving a module into a slot of a module space: which space a written destination
//! names, and what is refused rather than guessed.

use crate::lifecycle::{args_view, ArgsView, Argument, ArgumentView, LifecycleOp};
use crate::module_error::{module_error_text, ModuleErrorView};
use crate::program::RowTarget;
use crate::order::Duplicate;
use crate::recorder::{perform, performed, recorded, LifecycleWork, MountedInstance, Recorded};
use crate::rejection::{outcome, refused, Rejection, RejectionReason, RejectionView};
use crate::space::{declared_along, mounted, rows_along, ModuleSpace, TextStep};
use crate::syntax::Expr;
use crate::text::{concat3, concat4, concat5, copy_texts, is_empty_text, join, join_texts, same_text, same_texts, texts};
use crate::value::{Value, ValueView};
use vstd::prelude::*;

verus! {

/// A destination of the shape `container.declaration[key]`.
pub struct SlotSyntax<'a> {
    pub container: &'a Expr,
    pub declaration: &'a String,
    pub key: &'a Expr,
}

/// The container, declaration and key a destination is written with.
pub open spec fn slot_of(dest: Expr) -> Option<(Expr, String, Expr)> {
    match dest {
        Expr::Keys { base, keys } => if keys@.len() == 1 {
            match *base {
                Expr::Field { base: container, member, structural } => if structural {
                    None
                } else {
                    Some((*container, member, keys@[0]))
                },
                _ => None,
            }
        } else {
            None
        },
        _ => None,
    }
}

/// How a slot is written.
pub open spec fn slot_text(container: Expr, declaration: Seq<char>) -> Seq<char> {
    let base = match container {
        Expr::Current => "."@,
        Expr::Root => "/"@,
        _ => ".…."@,
    };
    base + declaration + "[…]"@
}

impl<'a> SlotSyntax<'a> {
    /// Read a destination as a slot.
    pub fn parse(dest: &'a Expr) -> (r: Option<SlotSyntax<'a>>)
        ensures
            match r {
                Some(s) => slot_of(*dest) == Some((*s.container, *s.declaration, *s.key)),
                None => slot_of(*dest) is None,
            },
    {
        match dest {
            Expr::Keys { base, keys } => {
                if keys.len() != 1 {
                    return None;
                }
                match &**base {
                    Expr::Field { base: container, member, structural } => if *structural {
                        None
                    } else {
                        Some(SlotSyntax { container: &**container, declaration: member, key: &keys[0] })
                    },
                    _ => None,
                }
            },
            _ => None,
        }
    }

    /// How the slot is written.
    pub fn render(&self) -> (r: String)
        ensures
            r@ == slot_text(*self.container, self.declaration@),
    {
        let base = match self.container {
            Expr::Current => ".",
            Expr::Root => "/",
            _ => ".….",
        };
        concat3(base, self.declaration.as_str(), "[…]")
    }
}

/// A row that contains a space: where it is, and its address as text.
pub struct SlotRow {
    pub target: RowTarget,
    pub steps: Vec<TextStep>,
    pub rendered: String,
}

impl SlotRow {
    /// Whether there is text for every step of the address.
    pub open spec fn told(self) -> bool {
        self.steps@.len() == self.target@.address.len()
    }
}

/// The declared path of a space of this name in a container; no container is the
/// package root.
pub open spec fn space_path(container: Option<SlotRow>, declaration: Seq<char>) -> Seq<Seq<char>> {
    match container {
        Some(row) => row.target@.path.push(declaration),
        None => seq![declaration],
    }
}

/// What declared paths denote.
pub open spec fn path_views(paths: Seq<Vec<String>>) -> Seq<Seq<Seq<char>>> {
    Seq::new(paths.len(), |i: int| texts(paths[i]@))
}

/// The containers a destination may be read in: `.` is both the root and the row the
/// program runs on, `/` is the root, and any other expression is the row it selects.
pub open spec fn containers(
    container: Expr,
    receiver: Option<SlotRow>,
    selected: Result<Option<SlotRow>, Rejection>,
) -> Result<Seq<Option<SlotRow>>, RejectionView> {
    match container {
        Expr::Current => match receiver {
            Some(row) => Ok(seq![None, Some(row)]),
            None => Ok(seq![None]),
        },
        Expr::Root => Ok(seq![None]),
        _ => match selected {
            Err(e) => Err(e@),
            Ok(None) => Ok(Seq::empty()),
            Ok(Some(row)) => Ok(seq![Some(row)]),
        },
    }
}

/// The readings of a destination that the package declares.
pub open spec fn readings(
    all: Seq<Option<SlotRow>>,
    declaration: Seq<char>,
    declared: Seq<Seq<Seq<char>>>,
) -> Seq<Option<SlotRow>> {
    all.filter(|c: Option<SlotRow>| declared.contains(space_path(c, declaration)))
}

/// How deep the row of a container is.
pub open spec fn container_depth(container: Option<SlotRow>) -> nat {
    match container {
        Some(row) => row.target@.address.len(),
        None => 0,
    }
}

/// The space a reading addresses, as it is first written.
pub open spec fn reading_mounted(container: Option<SlotRow>, declaration: Seq<char>) -> Result<
    Seq<char>,
    ModuleErrorView,
> {
    match container {
        Some(row) => mounted(row.steps@, row.rendered@, declaration),
        None => mounted(Seq::empty(), Seq::empty(), declaration),
    }
}

/// The space a reading addresses: its path must read back as the declaration and the
/// row it was made from.
pub open spec fn reading_space(container: Option<SlotRow>, declaration: Seq<char>) -> Result<Seq<char>, RejectionView> {
    match reading_mounted(container, declaration) {
        Err(e) => Err(refused(RejectionReason::Malformed, module_error_text(e))),
        Ok(space) => if declared_along(space) == space_path(container, declaration) && rows_along(space) is Some
            && rows_along(space)->0.len() == container_depth(container) {
            Ok(space)
        } else {
            Err(
                refused(
                    RejectionReason::Malformed,
                    "the mount `"@ + space + "` does not read back as the declared `$modules` node `"@ + join(
                        space_path(container, declaration),
                        "."@,
                    )
                        + "` under its containing row, so it is refused rather than installed into a space it may not name"@,
                ),
            )
        },
    }
}

/// A borrowed container.
pub open spec fn container_at(c: Option<&SlotRow>) -> Option<SlotRow> {
    match c {
        Some(row) => Some(*row),
        None => None,
    }
}

/// Borrowed containers.
pub open spec fn containers_at(all: Seq<Option<&SlotRow>>) -> Seq<Option<SlotRow>> {
    Seq::new(all.len(), |i: int| container_at(all[i]))
}

fn declared_path(container: Option<&SlotRow>, declaration: &String) -> (r: Vec<String>)
    ensures
        texts(r@) == space_path(container_at(container), declaration@),
{
    let mut path = match container {
        Some(row) => copy_texts(&row.target.path),
        None => Vec::new(),
    };
    let ghost before = texts(path@);
    path.push(declaration.clone());
    proof {
        assert(texts(path@) =~= before.push(declaration@));
        if container is None {
            assert(texts(path@) =~= seq![declaration@]);
        }
    }
    path
}

fn is_declared(declared: &Vec<Vec<String>>, path: &Vec<String>) -> (r: bool)
    ensures
        r == path_views(declared@).contains(texts(path@)),
{
    let mut i: usize = 0;
    while i < declared.len()
        invariant
            i <= declared@.len(),
            forall|j: int| 0 <= j < i ==> texts((#[trigger] declared@[j])@) != texts(path@),
        decreases declared@.len() - i,
    {
        if same_texts(&declared[i], path) {
            proof {
                assert(path_views(declared@)[i as int] == texts(path@));
            }
            return true;
        }
        i = i + 1;
    }
    proof {
        if path_views(declared@).contains(texts(path@)) {
            let j = choose|j: int| 0 <= j < path_views(declared@).len() && path_views(declared@)[j] == texts(path@);
            assert(texts(declared@[j]@) == texts(path@));
        }
    }
    false
}

/// Find the readings of a destination that the package declares.
pub fn space_candidates<'a>(
    slot: &SlotSyntax,
    receiver: &'a Option<SlotRow>,
    selected: &'a Result<Option<SlotRow>, Rejection>,
    declared: &Vec<Vec<String>>,
) -> (r: Result<Vec<Option<&'a SlotRow>>, Rejection>)
    ensures
        match (r, containers(*slot.container, *receiver, *selected)) {
            (Ok(found), Ok(all)) => containers_at(found@) == readings(all, slot.declaration@, path_views(declared@)),
            (Err(e), Err(x)) => e@ == x,
            _ => false,
        },
{
    let mut all: Vec<Option<&'a SlotRow>> = Vec::new();
    match slot.container {
        Expr::Current => {
            all.push(None);
            if let Some(row) = receiver {
                all.push(Some(row));
            }
        },
        Expr::Root => {
            all.push(None);
        },
        _ => match selected {
            Err(e) => {
                return Err(e.duplicate());
            },
            Ok(None) => {},
            Ok(Some(row)) => {
                all.push(Some(row));
            },
        },
    }
    let ghost whole = containers_at(all@);
    proof {
        assert(whole =~= containers(*slot.container, *receiver, *selected)->Ok_0);
    }
    let ghost keep = |c: Option<SlotRow>| path_views(declared@).contains(space_path(c, slot.declaration@));
    let mut found: Vec<Option<&'a SlotRow>> = Vec::new();
    let mut i: usize = 0;
    proof {
        reveal(Seq::filter);
        assert(containers_at(found@) =~= whole.take(0).filter(keep));
    }
    while i < all.len()
        invariant
            whole == containers_at(all@),
            keep == (|c: Option<SlotRow>| path_views(declared@).contains(space_path(c, slot.declaration@))),
            i <= all@.len(),
            containers_at(found@) == whole.take(i as int).filter(keep),
        decreases all@.len() - i,
    {
        let ghost done = containers_at(found@);
        let container = all[i];
        let path = declared_path(container, slot.declaration);
        proof {
            reveal(Seq::filter);
            assert(whole.take(i + 1).drop_last() =~= whole.take(i as int));
            assert(whole.take(i + 1).last() == container_at(container));
        }
        if is_declared(declared, &path) {
            found.push(container);
            proof {
                assert(containers_at(found@) =~= done.push(container_at(container)));
            }
        }
        i = i + 1;
    }
    proof {
        assert(whole.take(i as int) =~= whole);
    }
    Ok(found)
}

/// Find the space a reading addresses.
pub fn mount(container: Option<&SlotRow>, declaration: &String) -> (r: Result<ModuleSpace, Rejection>)
    requires
        container matches Some(row) ==> row.told(),
    ensures
        outcome(r) == reading_space(container_at(container), declaration@),
{
    let written = match container {
        Some(row) => ModuleSpace::mounted_at(&row.steps, row.rendered.as_str(), declaration.as_str()),
        None => {
            let steps: Vec<TextStep> = Vec::new();
            proof {
                reveal_strlit("");
                assert(""@ =~= Seq::<char>::empty());
                assert(steps@ =~= Seq::empty());
            }
            ModuleSpace::mounted_at(&steps, "", declaration.as_str())
        },
    };
    let space = match written {
        Ok(space) => space,
        Err(e) => {
            let text = e.text();
            return Err(Rejection::new(RejectionReason::Malformed, text.as_str()));
        },
    };
    let path = declared_path(container, declaration);
    let depth: usize = match container {
        Some(row) => row.steps.len(),
        None => 0,
    };
    let along = space.declaration_path();
    let reads_back = match space.containing_row_steps() {
        Some(rows) => rows.len() == depth,
        None => false,
    };
    if same_texts(&along, &path) && reads_back {
        return Ok(space);
    }
    let named = join_texts(&path, ".");
    let message = concat5(
        "the mount `",
        space.as_str(),
        "` does not read back as the declared `$modules` node `",
        named.as_str(),
        "` under its containing row, so it is refused rather than installed into a space it may not name",
    );
    Err(Rejection::new(RejectionReason::Malformed, message.as_str()))
}

/// The declared spaces of this name, as dotted paths, in order.
pub open spec fn spaces_named(declared: Seq<Seq<Seq<char>>>, name: Seq<char>) -> Seq<Seq<char>>
    decreases declared.len(),
{
    if declared.len() == 0 {
        Seq::empty()
    } else {
        let before = spaces_named(declared.drop_last(), name);
        let path = declared.last();
        if path.len() > 0 && path.last() == name {
            before.push(join(path, "."@))
        } else {
            before
        }
    }
}

/// The refusal of a module moved where no space is declared.
pub open spec fn no_space(slot: Option<(Expr, String, Expr)>, declared: Seq<Seq<Seq<char>>>) -> RejectionView {
    match slot {
        None => refused(
            RejectionReason::Malformed,
            "a `module` value is installed by moving it into a slot of a declared `$modules` space — `<-` writes `.<space>[<name>]`. This destination is not a keyed slot, so the move would stage nothing; refused."@,
        ),
        Some((container, declaration, _)) => {
            let named = spaces_named(declared, declaration@);
            let place = if named.len() == 0 {
                "this package declares no `$modules` space named `"@ + declaration@ + "`"@
            } else {
                "this package declares `"@ + declaration@ + "` as a `$modules` space at "@ + join(named, ", "@)
            };
            refused(
                RejectionReason::Malformed,
                "`"@ + slot_text(container, declaration@)
                    + "` does not resolve to a declared `$modules` space here, so moving a `module` into it would stage nothing. "@
                    + place + "."@,
            )
        },
    }
}

/// How a slot is written, where there is one.
pub open spec fn written(slot: Option<(Expr, String, Expr)>) -> Seq<char> {
    match slot {
        Some((container, declaration, _)) => slot_text(container, declaration@),
        None => ".…[…]"@,
    }
}

/// The refusal of another value moved into a module slot.
pub open spec fn no_module(slot: Option<(Expr, String, Expr)>) -> RejectionView {
    refused(
        RejectionReason::TypeError,
        "`"@ + written(slot)
            + "` is a `$modules` space, whose members are `module` values; the moved source is not one — build one with `unpack(@package)`."@,
    )
}

/// How a reading is shown: the space it addresses, or the declared path.
pub open spec fn reading_text(container: Option<SlotRow>, declaration: Seq<char>) -> Seq<char> {
    match reading_space(container, declaration) {
        Ok(space) => space,
        Err(_) => join(space_path(container, declaration), "."@),
    }
}

/// The refusal of a destination with several readings.
pub open spec fn several_spaces(all: Seq<Option<SlotRow>>, container: Expr, declaration: Seq<char>) -> RejectionView {
    let shown = Seq::new(all.len(), |i: int| reading_text(all[i], declaration));
    refused(
        RejectionReason::Malformed,
        "`"@ + slot_text(container, declaration) + "` names more than one declared `$modules` space here — "@ + join(
            shown,
            " and "@,
        ) + (
        " — and nothing in the statement says which. Refused rather than installed into a guess: address the package-root space as `/"@
            + declaration + "[…]`, or the row-scoped one through its containing row (`.<collection>[<key>]."@ + declaration
            + "[…]`)."@),
    )
}

/// What a move comes to before it is carried out: nothing for an ordinary move; the
/// reading a module is installed in, where there is exactly one; a refusal otherwise.
pub open spec fn move_decided(
    dest: Expr,
    moves_module: bool,
    receiver: Option<SlotRow>,
    selected: Result<Option<SlotRow>, Rejection>,
    declared: Seq<Seq<Seq<char>>>,
) -> Option<Result<Option<SlotRow>, RejectionView>> {
    if dest is Name {
        None
    } else {
        match slot_of(dest) {
            None => if moves_module {
                Some(Err(no_space(None, declared)))
            } else {
                None
            },
            Some((container, declaration, key)) => match containers(container, receiver, selected) {
                Err(e) => Some(Err(e)),
                Ok(all) => {
                    let found = readings(all, declaration@, declared);
                    let slot = Some((container, declaration, key));
                    if found.len() == 0 {
                        if moves_module {
                            Some(Err(no_space(slot, declared)))
                        } else {
                            None
                        }
                    } else if found.len() == 1 {
                        if moves_module {
                            Some(Ok(found[0]))
                        } else {
                            Some(Err(no_module(slot)))
                        }
                    } else {
                        Some(Err(several_spaces(found, container, declaration@)))
                    }
                },
            },
        }
    }
}

fn no_such_space(slot: &Option<SlotSyntax>, declared: &Vec<Vec<String>>) -> (r: Rejection)
    ensures
        r@ == no_space(
            match slot {
                Some(s) => Some((*s.container, *s.declaration, *s.key)),
                None => None,
            },
            path_views(declared@),
        ),
{
    let s = match slot {
        None => {
            return Rejection::new(
                RejectionReason::Malformed,
                "a `module` value is installed by moving it into a slot of a declared `$modules` space — `<-` writes `.<space>[<name>]`. This destination is not a keyed slot, so the move would stage nothing; refused.",
            );
        },
        Some(s) => s,
    };
    let mut named: Vec<String> = Vec::new();
    let ghost all = path_views(declared@);
    let mut i: usize = 0;
    proof {
        assert(all.take(0) =~= Seq::empty());
        assert(texts(named@) =~= Seq::empty());
    }
    while i < declared.len()
        invariant
            all == path_views(declared@),
            i <= declared@.len(),
            texts(named@) == spaces_named(all.take(i as int), s.declaration@),
        decreases declared@.len() - i,
    {
        let ghost done = texts(named@);
        proof {
            assert(all.take(i + 1).drop_last() =~= all.take(i as int));
            assert(all.take(i + 1).last() == texts(declared@[i as int]@));
        }
        let path = &declared[i];
        if path.len() > 0 && same_text(path[path.len() - 1].as_str(), s.declaration.as_str()) {
            named.push(join_texts(path, "."));
            proof {
                assert(texts(named@) =~= done.push(join(texts(path@), "."@)));
            }
        }
        i = i + 1;
    }
    proof {
        assert(all.take(i as int) =~= all);
        assert(texts(named@).len() == named@.len());
    }
    let place = if named.len() == 0 {
        concat3("this package declares no `$modules` space named `", s.declaration.as_str(), "`")
    } else {
        let listed = join_texts(&named, ", ");
        concat4("this package declares `", s.declaration.as_str(), "` as a `$modules` space at ", listed.as_str())
    };
    let shown = s.render();
    let message = concat5(
        "`",
        shown.as_str(),
        "` does not resolve to a declared `$modules` space here, so moving a `module` into it would stage nothing. ",
        place.as_str(),
        ".",
    );
    Rejection::new(RejectionReason::Malformed, message.as_str())
}

fn not_a_module(slot: &SlotSyntax) -> (r: Rejection)
    ensures
        r@ == no_module(Some((*slot.container, *slot.declaration, *slot.key))),
{
    let shown = slot.render();
    let message = concat3(
        "`",
        shown.as_str(),
        "` is a `$modules` space, whose members are `module` values; the moved source is not one — build one with `unpack(@package)`.",
    );
    Rejection::new(RejectionReason::TypeError, message.as_str())
}

fn ambiguous(found: &Vec<Option<&SlotRow>>, slot: &SlotSyntax) -> (r: Rejection)
    requires
        forall|i: int| 0 <= i < found@.len() ==> (#[trigger] found@[i] matches Some(row) ==> row.told()),
    ensures
        r@ == several_spaces(containers_at(found@), *slot.container, slot.declaration@),
{
    let ghost all = containers_at(found@);
    let ghost want = Seq::new(all.len(), |i: int| reading_text(all[i], slot.declaration@));
    let mut shown: Vec<String> = Vec::new();
    let mut i: usize = 0;
    while i < found.len()
        invariant
            all == containers_at(found@),
            want == Seq::new(all.len(), |i: int| reading_text(all[i], slot.declaration@)),
            forall|i: int| 0 <= i < found@.len() ==> (#[trigger] found@[i] matches Some(row) ==> row.told()),
            i <= found@.len(),
            shown@.len() == i,
            forall|j: int| 0 <= j < i ==> (#[trigger] shown@[j])@ == want[j],
        decreases found@.len() - i,
    {
        proof {
            assert(all[i as int] == container_at(found@[i as int]));
        }
        let text = match mount(found[i], slot.declaration) {
            Ok(space) => String::from_str(space.as_str()),
            Err(_) => {
                let path = declared_path(found[i], slot.declaration);
                join_texts(&path, ".")
            },
        };
        shown.push(text);
        i = i + 1;
    }
    proof {
        assert(texts(shown@) =~= want);
    }
    let mounts = join_texts(&shown, " and ");
    let base = slot.render();
    let tail = concat5(
        " — and nothing in the statement says which. Refused rather than installed into a guess: address the package-root space as `/",
        slot.declaration.as_str(),
        "[…]`, or the row-scoped one through its containing row (`.<collection>[<key>].",
        slot.declaration.as_str(),
        "[…]`).",
    );
    let message = concat5(
        "`",
        base.as_str(),
        "` names more than one declared `$modules` space here — ",
        mounts.as_str(),
        tail.as_str(),
    );
    Rejection::new(RejectionReason::Malformed, message.as_str())
}

/// Decide what a move comes to.
pub fn module_move<'a>(
    dest: &Expr,
    moves_module: bool,
    receiver: &'a Option<SlotRow>,
    selected: &'a Result<Option<SlotRow>, Rejection>,
    declared: &Vec<Vec<String>>,
) -> (r: Option<Result<Option<&'a SlotRow>, Rejection>>)
    requires
        receiver matches Some(row) ==> row.told(),
        selected matches Ok(Some(row)) ==> row.told(),
    ensures
        match (r, move_decided(*dest, moves_module, *receiver, *selected, path_views(declared@))) {
            (None, None) => true,
            (Some(Ok(c)), Some(Ok(x))) => container_at(c) == x,
            (Some(Err(e)), Some(Err(x))) => e@ == x,
            _ => false,
        },
{
    if let Expr::Name(_) = dest {
        return None;
    }
    let slot = match SlotSyntax::parse(dest) {
        Some(slot) => slot,
        None => {
            if moves_module {
                return Some(Err(no_such_space(&None, declared)));
            }
            return None;
        },
    };
    let found = match space_candidates(&slot, receiver, selected, declared) {
        Ok(found) => found,
        Err(e) => {
            return Some(Err(e));
        },
    };
    let n: usize = found.len();
    proof {
        assert(containers_at(found@).len() == n);
    }
    if n == 0 {
        if moves_module {
            return Some(Err(no_such_space(&Some(slot), declared)));
        }
        return None;
    }
    if n == 1 {
        if moves_module {
            proof {
                assert(containers_at(found@)[0] == container_at(found@[0]));
            }
            return Some(Ok(found[0]));
        }
        return Some(Err(not_a_module(&slot)));
    }
    proof {
        let all = containers(*slot.container, *receiver, *selected)->Ok_0;
        let keep = |c: Option<SlotRow>| path_views(declared@).contains(space_path(c, slot.declaration@));
        assert forall|i: int| 0 <= i < found@.len() implies (#[trigger] found@[i] matches Some(row) ==> row.told()) by {
            let got = all.filter(keep);
            assert(got == containers_at(found@));
            assert(got[i] == container_at(found@[i]));
            assert(got.contains(got[i]));
            all.lemma_filter_contains_rev(keep, got[i]);
        }
    }
    Some(Err(ambiguous(&found, &slot)))
}

/// The name a slot key gives an instance: a text that is not empty.
pub open spec fn instance_named(key: ValueView) -> Result<Seq<char>, RejectionView> {
    match key {
        ValueView::Text(t) => if t.len() > 0 {
            Ok(t)
        } else {
            Err(
                refused(
                    RejectionReason::Malformed,
                    "a module instance name is a NON-EMPTY text value; the empty name addresses no slot"@,
                ),
            )
        },
        _ => Err(
            refused(
                RejectionReason::TypeError,
                "a module instance name is a `text` value; this slot key is not one"@,
            ),
        ),
    }
}

/// Find the name a slot key gives an instance.
pub fn instance_name(key: Value) -> (r: Result<String, Rejection>)
    ensures
        outcome(r) == instance_named(key@),
{
    match key {
        Value::Text(t) => if is_empty_text(t.as_str()) {
            Err(
                Rejection::new(
                    RejectionReason::Malformed,
                    "a module instance name is a NON-EMPTY text value; the empty name addresses no slot",
                ),
            )
        } else {
            Ok(t)
        },
        _ => Err(
            Rejection::new(
                RejectionReason::TypeError,
                "a module instance name is a `text` value; this slot key is not one",
            ),
        ),
    }
}

/// What an installation by a move hands to the lifecycle: the space the reading
/// addresses, the name of the instance, and the moved module.
pub open spec fn install_args(
    container: Option<SlotRow>,
    declaration: Seq<char>,
    current: Result<(), RejectionView>,
    key: Result<ValueView, RejectionView>,
    source: Result<ValueView, RejectionView>,
    lent: bool,
) -> Result<ArgsView, RejectionView> {
    match reading_space(container, declaration) {
        Err(e) => Err(e),
        Ok(space) => match (current, key) {
            (Err(e), _) => Err(e),
            (Ok(_), Err(e)) => Err(e),
            (Ok(_), Ok(k)) => match instance_named(k) {
                Err(e) => Err(e),
                Ok(name) => match source {
                    Err(e) => Err(e),
                    Ok(v) => if !(v is Pending || v is Mounted) {
                        Err(
                            refused(
                                RejectionReason::TypeError,
                                "`<-` into `"@ + space
                                    + "` moves a `module` value, but the source did not evaluate to one"@,
                            ),
                        )
                    } else if !lent {
                        Err(
                            refused(
                                RejectionReason::Malformed,
                                "`<-` into `"@ + space
                                    + "` carries a module instance through its lifecycle and is host-privileged: writing into a module collection is the host/root-scope transition's authority, and this caller is not lent it"@,
                            ),
                        )
                    } else {
                        Ok(
                            seq![
                                ("space"@, ArgumentView::Value(ValueView::Text(space))),
                                ("name"@, ArgumentView::Value(ValueView::Text(name))),
                                ("module"@, ArgumentView::Value(v)),
                            ],
                        )
                    },
                },
            },
        },
    }
}

/// Install a moved module in the space a reading addresses.
pub fn install_into(
    container: Option<&SlotRow>,
    declaration: &String,
    current: Result<(), Rejection>,
    key: Result<Value, Rejection>,
    source: Result<Value, Rejection>,
    lent: bool,
    instances: &Vec<MountedInstance>,
    work: LifecycleWork,
) -> (r: Result<Recorded, Rejection>)
    requires
        container matches Some(row) ==> row.told(),
    ensures
        recorded(r) == match install_args(
            container_at(container),
            declaration@,
            match current {
                Ok(_) => Ok(()),
                Err(e) => Err(e@),
            },
            outcome(key),
            outcome(source),
            lent,
        ) {
            Err(e) => Err(e),
            Ok(args) => performed(LifecycleOp::InstallModule, args, instances@, work),
        },
{
    let space = mount(container, declaration)?;
    if let Err(e) = current {
        return Err(e);
    }
    let name = instance_name(key?)?;
    let value = source?;
    let is_module = match &value {
        Value::Pending(_) => true,
        Value::Mounted(_) => true,
        _ => false,
    };
    if !is_module {
        let message = concat3(
            "`<-` into `",
            space.as_str(),
            "` moves a `module` value, but the source did not evaluate to one",
        );
        return Err(Rejection::new(RejectionReason::TypeError, message.as_str()));
    }
    if !lent {
        let message = concat3(
            "`<-` into `",
            space.as_str(),
            "` carries a module instance through its lifecycle and is host-privileged: writing into a module collection is the host/root-scope transition's authority, and this caller is not lent it",
        );
        return Err(Rejection::new(RejectionReason::Malformed, message.as_str()));
    }
    let mut args: Vec<(String, Argument)> = Vec::new();
    args.push((String::from_str("space"), Argument::Value(Value::Text(String::from_str(space.as_str())))));
    args.push((String::from_str("name"), Argument::Value(Value::Text(name))));
    args.push((String::from_str("module"), Argument::Value(value)));
    proof {
        assert(args_view(args@) =~= seq![
            ("space"@, ArgumentView::Value(ValueView::Text(space@))),
            ("name"@, ArgumentView::Value(ValueView::Text(name@))),
            ("module"@, ArgumentView::Value(value@)),
        ]);
    }
    perform(LifecycleOp::InstallModule, &args, instances, work)
}

/// A module is only ever installed where the package declares a space, and where the
/// destination has one reading.
pub proof fn law_declared_space(
    dest: Expr,
    moves_module: bool,
    receiver: Option<SlotRow>,
    selected: Result<Option<SlotRow>, Rejection>,
    declared: Seq<Seq<Seq<char>>>,
)
    ensures
        move_decided(dest, moves_module, receiver, selected, declared) matches Some(Ok(c)) ==> {
            &&& moves_module
            &&& slot_of(dest) matches Some((_, declaration, _)) && declared.contains(space_path(c, declaration@))
        },
{
    broadcast use vstd::seq_lib::group_filter_ensures;

    if let Some(Ok(c)) = move_decided(dest, moves_module, receiver, selected, declared) {
        let (container, declaration, _) = slot_of(dest)->0;
        let all = containers(container, receiver, selected)->Ok_0;
        let keep = |c: Option<SlotRow>| declared.contains(space_path(c, declaration@));
        assert(keep(all.filter(keep)[0]));
    }
}

/// The space a reading addresses reads back as the declared path and the row it was
/// made from.
pub proof fn law_reading_space(container: Option<SlotRow>, declaration: Seq<char>)
    ensures
        reading_space(container, declaration) matches Ok(space) ==> {
            &&& declared_along(space) == space_path(container, declaration)
            &&& rows_along(space) matches Some(rows) && rows.len() == container_depth(container)
        },
{
}

/// `.name` that names both a space of the package root and one of the row the program
/// runs on is refused, never resolved to either.
pub proof fn law_ambiguous(
    dest: Expr,
    moves_module: bool,
    row: SlotRow,
    selected: Result<Option<SlotRow>, Rejection>,
    declared: Seq<Seq<Seq<char>>>,
)
    requires
        slot_of(dest) matches Some((container, declaration, _)) && container is Current && declared.contains(
            space_path(None, declaration@),
        ) && declared.contains(space_path(Some(row), declaration@)),
    ensures
        move_decided(dest, moves_module, Some(row), selected, declared) matches Some(Err(_)),
{
    let (container, declaration, _) = slot_of(dest)->0;
    let all = containers(container, Some(row), selected)->Ok_0;
    let keep = |c: Option<SlotRow>| declared.contains(space_path(c, declaration@));
    reveal_with_fuel(Seq::filter, 3);
    assert(all.drop_last() =~= seq![None]);
    assert(all.drop_last().drop_last() =~= Seq::empty());
    assert(all.filter(keep).len() == 2);
}

} // verus!
