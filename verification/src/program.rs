//! The state a mutation program works on, and how a row is put in its place.

use crate::address::{below, law_reroot, reroot, rerooted, CollectionPath, KeyValue, RowAddress, StepView};
use crate::inbound::{law_rows_stay, referrers, refs_moved, rewrite_inbound_refs_across};
use crate::model::Compiled;
use crate::order::Duplicate;
use crate::rejection::{outcome, refused, refused_at, Rejection, RejectionReason, RejectionView};
use crate::state::{address_views, descendants, Fields, FieldsView, Prospective, StateView};
use crate::table::{ascending, lemma_ascending_distinct};
use crate::text::{concat3, copy_texts, join, join_texts, texts};
use crate::value::{copy_value, views, Value, ValueView};
use vstd::prelude::*;

verus! {

/// A row a program selects: where it lives, and the declared path of its
/// collection.
#[derive(Debug)]
pub struct RowTarget {
    pub address: RowAddress,
    pub path: Vec<String>,
}

/// What a [`RowTarget`] denotes.
#[verifier::ext_equal]
pub struct TargetView {
    pub address: Seq<StepView>,
    pub path: Seq<Seq<char>>,
}

impl View for RowTarget {
    type V = TargetView;

    open spec fn view(&self) -> TargetView {
        TargetView { address: self.address@, path: texts(self.path@) }
    }
}

impl Duplicate for RowTarget {
    fn duplicate(&self) -> (r: Self) {
        RowTarget { address: self.address.duplicate(), path: copy_texts(&self.path) }
    }
}

/// A collection a program names: where its rows live, and its declared path.
#[derive(Debug)]
pub struct CollectionLoc {
    pub store_path: CollectionPath,
    pub decl: Vec<String>,
}

/// A mutation program under way: the state it builds, the row it runs on, the rows it
/// has touched, and the extracts of what it has erased, in order.
pub struct Interp<'a> {
    pub compiled: &'a Compiled,
    pub prospective: Prospective,
    pub receiver: Option<RowTarget>,
    pub touched: Vec<RowAddress>,
    pub extracts: Vec<Value>,
}

/// What a program under way denotes.
#[verifier::ext_equal]
pub struct ProgramView {
    pub state: StateView,
    pub receiver: Option<TargetView>,
    pub touched: Seq<Seq<StepView>>,
    pub extracts: Seq<ValueView>,
    /// How many generations inserted rows have drawn.
    pub drawn: nat,
}

impl<'a> View for Interp<'a> {
    type V = ProgramView;

    open spec fn view(&self) -> ProgramView {
        ProgramView {
            state: self.prospective@,
            receiver: match self.receiver {
                Some(t) => Some(t@),
                None => None,
            },
            touched: address_views(self.touched@),
            extracts: views(self.extracts@),
            drawn: self.prospective.drawn(),
        }
    }
}

/// A program that has drawn more generations, and is otherwise as it was.
pub open spec fn with_drawn(p: ProgramView, n: nat) -> ProgramView {
    ProgramView { drawn: p.drawn + n, ..p }
}

/// The key a row's fields give it, in the order of the key fields.
pub open spec fn key_in(names: Seq<Seq<char>>, row: FieldsView) -> Option<Seq<ValueView>> {
    if names.len() > 0 && (forall|i: int| 0 <= i < names.len() ==> row.contains_key(#[trigger] names[i])) {
        Some(Seq::new(names.len(), |i: int| row[names[i]]))
    } else {
        None
    }
}

/// The key of a row from its fields.
pub fn key_of(key_fields: &Vec<String>, fields: &Fields) -> (r: Option<KeyValue>)
    ensures
        match r {
            Some(key) => key_in(texts(key_fields@), fields@) == Some(key@),
            None => key_in(texts(key_fields@), fields@) is None,
        },
{
    let ghost names = texts(key_fields@);
    let mut components: Vec<Value> = Vec::new();
    let mut i: usize = 0;
    while i < key_fields.len()
        invariant
            names == texts(key_fields@),
            i <= key_fields@.len(),
            components@.len() == i,
            forall|j: int|
                0 <= j < i ==> fields@.contains_key(#[trigger] names[j]) && components@[j]@ == fields@[names[j]],
        decreases key_fields@.len() - i,
    {
        match fields.get(&key_fields[i]) {
            Some(value) => components.push(copy_value(value)),
            None => {
                proof {
                    assert(!fields@.contains_key(names[i as int]));
                }
                return None;
            },
        }
        i = i + 1;
    }
    proof {
        if names.len() > 0 {
            assert(views(components@) =~= key_in(names, fields@)->0);
        }
    }
    KeyValue::of_components(components)
}

/// The message about a collection no package declares.
pub open spec fn unknown_collection(path: Seq<Seq<char>>) -> RejectionView {
    refused(RejectionReason::Malformed, "unknown collection `"@ + join(path, "/"@) + "`"@)
}

/// Refuse a collection no package declares.
pub(crate) fn undeclared(path: &Vec<String>) -> (r: Rejection)
    ensures
        r@ == unknown_collection(texts(path@)),
{
    let name = join_texts(path, "/");
    Rejection::new(RejectionReason::Malformed, concat3("unknown collection `", name.as_str(), "`").as_str())
}

/// The message about a row without its key.
pub open spec fn missing_key() -> RejectionView {
    refused(RejectionReason::Malformed, "the row is missing a key field"@)
}

/// The address a row's fields give it in the collection `at`, declared at `path`.
pub open spec fn keyed_address(
    compiled: Compiled,
    at: (Seq<StepView>, Seq<char>),
    path: Seq<Seq<char>>,
    row: FieldsView,
) -> Result<Seq<StepView>, RejectionView> {
    match compiled.at(path) {
        None => Err(unknown_collection(path)),
        Some(c) => match key_in(texts(c.key@), row) {
            None => Err(missing_key()),
            Some(key) => Ok(at.0.push(StepView { name: at.1, key })),
        },
    }
}

/// A list of touched rows with one more; a row is listed once.
pub open spec fn marked(touched: Seq<Seq<StepView>>, address: Seq<StepView>) -> Seq<Seq<StepView>> {
    if touched.contains(address) {
        touched
    } else {
        touched.push(address)
    }
}

/// A list of touched rows with more of them, in order.
pub open spec fn marked_all(touched: Seq<Seq<StepView>>, addresses: Seq<Seq<StepView>>) -> Seq<Seq<StepView>>
    decreases addresses.len(),
{
    if addresses.len() == 0 {
        touched
    } else {
        marked(marked_all(touched, addresses.drop_last()), addresses.last())
    }
}

/// The addresses of a subtree moved under another ancestor.
pub open spec fn moved(subtree: Seq<Seq<StepView>>, ancestor: Seq<StepView>, depth: nat) -> Seq<Seq<StepView>> {
    Seq::new(subtree.len(), |i: int| rerooted(ancestor, subtree[i], depth))
}

/// The first address of a row that the state already holds.
pub open spec fn first_held(addresses: Seq<Seq<StepView>>, state: StateView) -> Option<Seq<StepView>>
    decreases addresses.len(),
{
    if addresses.len() == 0 {
        None
    } else if state.contains_key(addresses[0]) {
        Some(addresses[0])
    } else {
        first_held(addresses.drop_first(), state)
    }
}

/// The state after the row at `old` and its whole subtree have moved to `new`, with
/// these fields in the row itself.
pub open spec fn subtree_moved(
    state: StateView,
    old_at: Seq<StepView>,
    new_at: Seq<StepView>,
    row: FieldsView,
) -> StateView {
    Map::new(
        |a: Seq<StepView>|
            a == new_at || below(new_at, a) && state.contains_key(rerooted(old_at, a, new_at.len()))
                || state.contains_key(a) && a != old_at && !below(old_at, a),
        |a: Seq<StepView>|
            if a == new_at {
                row
            } else if below(new_at, a) && state.contains_key(rerooted(old_at, a, new_at.len())) {
                state[rerooted(old_at, a, new_at.len())]
            } else {
                state[a]
            },
    )
}

/// A program after the fields of the row at `address`, in the collection declared
/// at `path`, have become `row`. Where that changes its key, the row moves with its
/// whole subtree, and references to it follow.
pub open spec fn placed(
    compiled: Compiled,
    p: ProgramView,
    address: Seq<StepView>,
    path: Seq<Seq<char>>,
    row: FieldsView,
) -> Result<ProgramView, RejectionView> {
    match keyed_address(compiled, (address.drop_last(), address.last().name), path, row) {
        Err(e) => Err(e),
        Ok(new_at) => if new_at == address {
            Ok(
                ProgramView {
                    state: p.state.insert(address, row),
                    receiver: p.receiver,
                    touched: marked(p.touched, address),
                    extracts: p.extracts,
                    drawn: p.drawn,
                },
            )
        } else if p.state.contains_key(new_at) {
            Err(refused_at(RejectionReason::DuplicateKey, "rekey target already exists"@, new_at))
        } else {
            let subtree = descendants(p.state, address);
            match first_held(moved(subtree, new_at, address.len()), p.state) {
                Some(held) => Err(
                    refused_at(RejectionReason::DuplicateKey, "rekey descendant target already exists"@, held),
                ),
                None => {
                    let state = subtree_moved(p.state, address, new_at, row);
                    let receiver = match p.receiver {
                        Some(t) if t.address == address => Some(TargetView { address: new_at, path: t.path }),
                        other => other,
                    };
                    let touched = marked_all(p.touched, moved(subtree, new_at, address.len()));
                    if address.len() == 1 && path.len() > 0 {
                        let old_key = address.last().key;
                        let new_key = new_at.last().key;
                        Ok(
                            ProgramView {
                                state: refs_moved(compiled, state, path[0], old_key, new_key),
                                receiver,
                                touched: marked(
                                    marked_all(touched, referrers(compiled, state, path[0], old_key, new_key)),
                                    new_at,
                                ),
                                extracts: p.extracts,
                                drawn: p.drawn,
                            },
                        )
                    } else {
                        Ok(
                            ProgramView {
                                state,
                                receiver,
                                touched: marked(touched, new_at),
                                extracts: p.extracts,
                                drawn: p.drawn,
                            },
                        )
                    }
                },
            }
        },
    }
}

/// Whether a list of addresses holds one.
pub fn holds_address(addresses: &Vec<RowAddress>, address: &RowAddress) -> (r: bool)
    ensures
        r == address_views(addresses@).contains(address@),
{
    let mut i: usize = 0;
    while i < addresses.len()
        invariant
            i <= addresses@.len(),
            forall|j: int| 0 <= j < i ==> (#[trigger] addresses@[j])@ != address@,
        decreases addresses@.len() - i,
    {
        if addresses[i].same(address) {
            proof {
                assert(address_views(addresses@)[i as int] == address@);
            }
            return true;
        }
        i = i + 1;
    }
    proof {
        assert forall|j: int| 0 <= j < addresses@.len() implies address_views(addresses@)[j] != address@ by {
            assert(addresses@[j]@ != address@);
        }
    }
    false
}

/// List a row as touched.
pub fn mark(touched: &mut Vec<RowAddress>, address: RowAddress)
    ensures
        address_views(final(touched)@) == marked(address_views(old(touched)@), address@),
{
    if !holds_address(touched, &address) {
        let ghost before = address_views(touched@);
        let ghost a = address@;
        touched.push(address);
        proof {
            assert(address_views(touched@) =~= before.push(a));
        }
    }
}

/// List rows as touched, in order.
pub fn mark_all(touched: &mut Vec<RowAddress>, addresses: Vec<RowAddress>)
    ensures
        address_views(final(touched)@) == marked_all(address_views(old(touched)@), address_views(addresses@)),
{
    let ghost start = address_views(touched@);
    let ghost all = address_views(addresses@);
    let mut i: usize = 0;
    proof {
        assert(all.take(0) =~= Seq::<Seq<StepView>>::empty());
    }
    while i < addresses.len()
        invariant
            all == address_views(addresses@),
            i <= addresses@.len(),
            address_views(touched@) == marked_all(start, all.take(i as int)),
        decreases addresses@.len() - i,
    {
        mark(touched, addresses[i].duplicate());
        proof {
            assert(all.take(i + 1).drop_last() =~= all.take(i as int));
            assert(all.take(i + 1).last() == all[i as int]);
        }
        i = i + 1;
    }
    proof {
        assert(all.take(i as int) =~= all);
    }
}

/// The address a row's fields give it in the collection `at`, declared at `path`.
pub fn key_address(
    compiled: &Compiled,
    at: &CollectionPath,
    path: &Vec<String>,
    fields: &Fields,
) -> (r: Result<RowAddress, Rejection>)
    ensures
        outcome(r) == keyed_address(*compiled, at@, texts(path@), fields@),
{
    let collection = match compiled.collection_at(path) {
        Some(c) => c,
        None => {
            return Err(undeclared(path));
        },
    };
    match key_of(&collection.key, fields) {
        None => Err(Rejection::new(RejectionReason::Malformed, "the row is missing a key field")),
        Some(key) => Ok(at.row(key)),
    }
}

/// Move a subtree under another ancestor, unless the state already holds a row at
/// one of the addresses it would move to.
fn reroot_subtree(prospective: &Prospective, subtree: &Vec<RowAddress>, new_at: &RowAddress, depth: usize) -> (r:
    Result<Vec<RowAddress>, RowAddress>)
    ensures
        match r {
            Ok(targets) => first_held(moved(address_views(subtree@), new_at@, depth as nat), prospective@) is None
                && address_views(targets@) == moved(address_views(subtree@), new_at@, depth as nat) && (forall|i: int|
                0 <= i < targets@.len() ==> !prospective@.contains_key((#[trigger] targets@[i])@)),
            Err(held) => first_held(moved(address_views(subtree@), new_at@, depth as nat), prospective@) == Some(held@),
        },
{
    let ghost all = moved(address_views(subtree@), new_at@, depth as nat);
    let mut targets: Vec<RowAddress> = Vec::new();
    let mut i: usize = 0;
    proof {
        assert(all.skip(0) =~= all);
    }
    while i < subtree.len()
        invariant
            all == moved(address_views(subtree@), new_at@, depth as nat),
            i <= subtree@.len(),
            targets@.len() == i,
            forall|j: int|
                0 <= j < i ==> (#[trigger] targets@[j])@ == all[j] && !prospective@.contains_key(targets@[j]@),
            first_held(all, prospective@) == first_held(all.skip(i as int), prospective@),
        decreases subtree@.len() - i,
    {
        let target = reroot(new_at, &subtree[i], depth);
        proof {
            assert(all.skip(i as int)[0] == target@);
            assert(all.skip(i as int).drop_first() =~= all.skip(i + 1));
        }
        if prospective.contains(&target) {
            return Err(target);
        }
        targets.push(target);
        i = i + 1;
    }
    proof {
        assert(address_views(targets@) =~= all);
    }
    Ok(targets)
}

/// Two addresses in one collection are apart: nothing lies below both.
proof fn lemma_apart(x: Seq<StepView>, y: Seq<StepView>, a: Seq<StepView>)
    requires
        x.len() == y.len(),
        x != y,
        below(x, a),
    ensures
        !below(y, a),
        a != y,
        a != x,
{
}

/// Move a row and its subtree to another address.
fn move_subtree(
    prospective: &mut Prospective,
    address: &RowAddress,
    new_at: &RowAddress,
    subtree: &Vec<RowAddress>,
    targets: &Vec<RowAddress>,
    fields: Fields,
)
    requires
        address@.len() == new_at@.len(),
        address@ != new_at@,
        !old(prospective)@.contains_key(new_at@),
        ascending::<RowAddress>(address_views(subtree@)),
        forall|a: Seq<StepView>| #[trigger]
            address_views(subtree@).contains(a) <==> old(prospective)@.contains_key(a) && below(address@, a),
        address_views(targets@) == moved(address_views(subtree@), new_at@, address@.len()),
        forall|i: int| 0 <= i < targets@.len() ==> !old(prospective)@.contains_key((#[trigger] targets@[i])@),
    ensures
        final(prospective)@ == subtree_moved(old(prospective)@, address@, new_at@, fields@),
        final(prospective).drawn() == old(prospective).drawn(),
{
    let ghost start = prospective@;
    let ghost goal = subtree_moved(start, address@, new_at@, fields@);
    let ghost from = address_views(subtree@);
    let ghost to = address_views(targets@);
    let ghost x = address@;
    let ghost y = new_at@;
    let ghost d = address@.len();
    proof {
        assert(to.len() == from.len());
        assert forall|j: int| 0 <= j < from.len() implies start.contains_key(#[trigger] from[j]) && below(x, from[j])
            && below(y, to[j]) && rerooted(x, to[j], d) == from[j] && !start.contains_key(to[j]) && to[j] == rerooted(
            y,
            from[j],
            d,
        ) by {
            assert(from.contains(from[j]));
            law_reroot(x, y, from[j]);
            assert(to[j] == targets@[j]@);
            assert(to[j].len() == from[j].len());
        }
    }
    let mut i: usize = 0;
    while i < subtree.len()
        invariant
            i <= subtree@.len(),
            subtree@.len() == targets@.len(),
            from == address_views(subtree@),
            to == address_views(targets@),
            ascending::<RowAddress>(from),
            x == address@,
            y == new_at@,
            x.len() == y.len(),
            x != y,
            d == x.len(),
            forall|j: int|
                0 <= j < from.len() ==> start.contains_key(#[trigger] from[j]) && below(x, from[j]) && below(y, to[j])
                    && rerooted(x, to[j], d) == from[j] && !start.contains_key(to[j]),
            prospective.drawn() == old(prospective).drawn(),
            forall|a: Seq<StepView>| #[trigger]
                prospective@.contains_key(a) <==> (start.contains_key(a) && !from.take(i as int).contains(a))
                    || to.take(i as int).contains(a),
            forall|a: Seq<StepView>|
                start.contains_key(a) && #[trigger] prospective@.contains_key(a) ==> prospective@[a] == start[a],
            forall|j: int| 0 <= j < i ==> prospective@[#[trigger] to[j]] == start[from[j]],
        decreases subtree@.len() - i,
    {
        let ghost before = prospective@;
        let ghost s = from[i as int];
        let ghost t = to[i as int];
        proof {
            assert(!from.take(i as int).contains(s)) by {
                if from.take(i as int).contains(s) {
                    let q = choose|q: int| 0 <= q < i && from.take(i as int)[q] == s;
                    lemma_ascending_distinct::<RowAddress>(from, q, i as int);
                }
            }
            assert(!to.take(i as int).contains(s)) by {
                if to.take(i as int).contains(s) {
                    let q = choose|q: int| 0 <= q < i && to.take(i as int)[q] == s;
                    lemma_apart(x, y, s);
                    assert(below(y, to[q]));
                }
            }
            assert(before.contains_key(s));
        }
        if let Some(sub) = prospective.get(&subtree[i]) {
            let copy = sub.duplicate();
            prospective.remove(&subtree[i]);
            prospective.insert(targets[i].duplicate(), copy);
        }
        proof {
            let f0 = from.take(i as int);
            let f1 = from.take(i + 1);
            let t0 = to.take(i as int);
            let t1 = to.take(i + 1);
            assert(f1 =~= f0.push(s));
            assert(t1 =~= t0.push(t));
            assert(s != t);
            assert forall|a: Seq<StepView>| #[trigger] f1.contains(a) <==> f0.contains(a) || a == s by {
                if f0.contains(a) {
                    let q = choose|q: int| 0 <= q < f0.len() && f0[q] == a;
                    assert(f1[q] == a);
                }
                if f1.contains(a) && a != s {
                    let q = choose|q: int| 0 <= q < f1.len() && f1[q] == a;
                    assert(f0[q] == a);
                }
                assert(f1[i as int] == s);
            }
            assert forall|a: Seq<StepView>| #[trigger] t1.contains(a) <==> t0.contains(a) || a == t by {
                if t0.contains(a) {
                    let q = choose|q: int| 0 <= q < t0.len() && t0[q] == a;
                    assert(t1[q] == a);
                }
                if t1.contains(a) && a != t {
                    let q = choose|q: int| 0 <= q < t1.len() && t1[q] == a;
                    assert(t0[q] == a);
                }
                assert(t1[i as int] == t);
            }
            assert(prospective@ == before.remove(s).insert(t, start[s]));
            assert forall|j: int| 0 <= j < i + 1 implies prospective@[#[trigger] to[j]] == start[from[j]] by {
                if j < i {
                    assert(t0[j] == to[j]);
                    assert(t0.contains(to[j]));
                    if to[j] == t {
                        assert(from[j] == from[i as int]);
                        lemma_ascending_distinct::<RowAddress>(from, j, i as int);
                    }
                    if to[j] == s {
                        lemma_apart(x, y, s);
                    }
                }
            }
        }
        i = i + 1;
    }
    let ghost before = prospective@;
    prospective.remove(address);
    prospective.insert(new_at.duplicate(), fields);
    proof {
        assert(from.take(i as int) =~= from);
        assert(to.take(i as int) =~= to);
        assert forall|a: Seq<StepView>| prospective@.contains_key(a) <==> goal.contains_key(a) by {
            if a != y && below(y, a) && start.contains_key(rerooted(x, a, d)) {
                let o = rerooted(x, a, d);
                assert(o.take(x.len() as int) =~= x);
                assert(below(x, o));
                assert(from.contains(o));
                let q = choose|q: int| 0 <= q < from.len() && from[q] == o;
                law_reroot(y, x, a);
                assert(to[q] == a);
                assert(to.contains(a));
            }
            if to.contains(a) {
                let q = choose|q: int| 0 <= q < to.len() && to[q] == a;
                assert(start.contains_key(from[q]));
                lemma_apart(y, x, a);
            }
        }
        assert forall|a: Seq<StepView>| goal.contains_key(a) implies prospective@[a] == goal[a] by {
            if a != y {
                if below(y, a) && start.contains_key(rerooted(x, a, d)) {
                    let o = rerooted(x, a, d);
                    assert(o.take(x.len() as int) =~= x);
                    assert(below(x, o));
                    assert(from.contains(o));
                    let q = choose|q: int| 0 <= q < from.len() && from[q] == o;
                    law_reroot(y, x, a);
                    assert(to[q] == a);
                } else {
                    assert(before.contains_key(a));
                }
            }
        }
        assert(prospective@ =~= goal);
    }
}

impl<'a> Interp<'a> {
    /// Put the fields of the row at `address` in place. A row whose key changes
    /// moves with its whole subtree, and references to it follow. A refused move
    /// changes nothing.
    pub fn place(&mut self, address: &RowAddress, path: &Vec<String>, fields: Fields) -> (r: Result<(), Rejection>)
        ensures
            final(self).compiled == old(self).compiled,
            final(self).prospective.drawn() == old(self).prospective.drawn(),
            match (r, placed(*old(self).compiled, old(self)@, address@, texts(path@), fields@)) {
                (Ok(_), Ok(p)) => final(self)@ == p,
                (Err(e), Err(x)) => e@ == x && final(self)@ == old(self)@,
                _ => false,
            },
    {
        let depth: usize = address.depth();
        let at = address.collection();
        let new_at = match key_address(self.compiled, &at, path, &fields) {
            Ok(a) => a,
            Err(e) => {
                return Err(e);
            },
        };
        if new_at.same(address) {
            self.prospective.replace(address, fields);
            mark(&mut self.touched, address.duplicate());
            return Ok(());
        }
        if self.prospective.contains(&new_at) {
            return Err(Rejection::at(RejectionReason::DuplicateKey, "rekey target already exists", &new_at));
        }
        let subtree = self.prospective.addresses_below(address);
        let targets = match reroot_subtree(&self.prospective, &subtree, &new_at, depth) {
            Ok(targets) => targets,
            Err(held) => {
                return Err(
                    Rejection::at(RejectionReason::DuplicateKey, "rekey descendant target already exists", &held),
                );
            },
        };
        move_subtree(&mut self.prospective, address, &new_at, &subtree, &targets, fields);
        mark_all(&mut self.touched, targets);
        let moves = match &self.receiver {
            Some(receiver) => receiver.address.same(address),
            None => false,
        };
        if moves {
            let path_of = match &self.receiver {
                Some(receiver) => copy_texts(&receiver.path),
                None => Vec::new(),
            };
            self.receiver = Some(RowTarget { address: new_at.duplicate(), path: path_of });
        }
        if depth == 1 && path.len() > 0 {
            let old_steps = address.steps();
            let new_steps = new_at.steps();
            let rewritten = rewrite_inbound_refs_across(
                self.compiled,
                &mut self.prospective,
                path[0].as_str(),
                &old_steps[0].key,
                &new_steps[0].key,
            );
            proof {
                assert(address@[0] == old_steps@[0]@);
                assert(new_at@[0] == new_steps@[0]@);
                assert(texts(path@)[0] == path@[0]@);
            }
            mark_all(&mut self.touched, rewritten);
        }
        mark(&mut self.touched, new_at);
        Ok(())
    }
}

/// When a row's key changes, nothing is left at the old address or below it, the row is
/// at the new address, and every row of its subtree is below that.
pub proof fn law_rekey_leaves_nothing(
    compiled: Compiled,
    p: ProgramView,
    address: Seq<StepView>,
    path: Seq<Seq<char>>,
    row: FieldsView,
    new_at: Seq<StepView>,
)
    requires
        address.len() > 0,
        keyed_address(compiled, (address.drop_last(), address.last().name), path, row) == Ok::<
            Seq<StepView>,
            RejectionView,
        >(new_at),
        new_at != address,
        placed(compiled, p, address, path, row) is Ok,
    ensures
        ({
            let after = placed(compiled, p, address, path, row)->Ok_0.state;
            &&& !after.contains_key(address)
            &&& after.contains_key(new_at)
            &&& forall|a: Seq<StepView>| #[trigger] below(address, a) ==> !after.contains_key(a)
            &&& forall|a: Seq<StepView>|
                #![trigger p.state.contains_key(a)]
                p.state.contains_key(a) && below(address, a) ==> after.contains_key(
                    rerooted(new_at, a, address.len()),
                )
            &&& forall|a: Seq<StepView>|
                #![trigger p.state.contains_key(a)]
                p.state.contains_key(a) && a != address && !below(address, a) ==> after.contains_key(a)
        }),
{
    let state = subtree_moved(p.state, address, new_at, row);
    let after = placed(compiled, p, address, path, row)->Ok_0.state;
    if address.len() == 1 && path.len() > 0 {
        law_rows_stay(compiled, state, path[0], address.last().key, new_at.last().key);
    }
    assert(after.dom() =~= state.dom());
    assert(new_at.len() == address.len());
    assert(!below(address, new_at));
    assert forall|a: Seq<StepView>| #[trigger] below(address, a) implies !after.contains_key(a) by {
        if below(new_at, a) {
            assert(a.take(address.len() as int) =~= address);
            assert(a.take(address.len() as int) =~= new_at);
        }
        assert(!state.dom().contains(a));
    }
    assert(!state.dom().contains(address));
    assert(state.dom().contains(new_at));
    assert forall|a: Seq<StepView>|
        #![trigger p.state.contains_key(a)]
        p.state.contains_key(a) && below(address, a) implies after.contains_key(rerooted(new_at, a, address.len())) by {
        law_reroot(address, new_at, a);
        let there = rerooted(new_at, a, address.len());
        assert(below(new_at, there));
        assert(state.dom().contains(there));
    }
    assert forall|a: Seq<StepView>|
        #![trigger p.state.contains_key(a)]
        p.state.contains_key(a) && a != address && !below(address, a) implies after.contains_key(a) by {
        assert(state.dom().contains(a));
    }
}

} // verus!
