//! Redirecting the references of a state by several moves at once: each reference is
//! followed once, from where its row was to where it is.

use crate::address::{names_of, RowAddress, StepView};
use crate::inbound::Move;
use crate::members::{canonical, canonical_members};
use crate::model::{name_view, Compiled, CompiledField};
use crate::order::Duplicate;
use crate::refs::{identity, redirected, rewrite_ref_value};
use crate::state::{address_views, Fields, FieldsView, Prospective, StateView};
use crate::table::{ascending, lemma_ascending_distinct};
use crate::text::{copy_texts, join, join_texts, same_text, texts};
use crate::value::{copy_value, copy_values, lemma_denoted, views, Value, ValueView};
use vstd::prelude::*;

verus! {

/// The key fields along a declared path, from the top-level collection down.
pub open spec fn key_names(compiled: Compiled, path: Seq<Seq<char>>) -> Seq<Seq<char>>
    decreases path.len(),
{
    if path.len() == 0 {
        Seq::empty()
    } else {
        key_names(compiled, path.drop_last()) + match compiled.at(path) {
            Some(c) => texts(c.key@),
            None => Seq::empty(),
        }
    }
}

/// The key components along an address, from the top-level row down.
pub open spec fn key_components(at: Seq<StepView>) -> Seq<ValueView>
    decreases at.len(),
{
    if at.len() == 0 {
        Seq::empty()
    } else {
        key_components(at.drop_last()) + at.last().key
    }
}

/// The move of a row from one address to another. A row is referenced by the declared
/// path of its collection, and by the keys of its ancestors and then its own.
pub open spec fn moved_between(compiled: Compiled, from: Seq<StepView>, to: Seq<StepView>) -> Move {
    let names = key_names(compiled, names_of(from));
    Move {
        target: join(names_of(from), "/"@),
        names,
        before: identity(names.len(), key_components(from)),
        after: identity(names.len(), key_components(to)),
    }
}

/// A move, as plain values.
#[derive(Debug)]
pub struct Redirect {
    pub target: String,
    pub names: Vec<String>,
    pub before: Value,
    pub after: Value,
}

impl View for Redirect {
    type V = Move;

    open spec fn view(&self) -> Move {
        Move { target: self.target@, names: texts(self.names@), before: self.before@, after: self.after@ }
    }
}

/// What moves denote.
pub open spec fn move_views(moves: Seq<Redirect>) -> Seq<Move> {
    Seq::new(moves.len(), |i: int| moves[i]@)
}

/// Whether a value in a field that points into `target` references the row of a move.
pub open spec fn hit_by(value: ValueView, target: Seq<char>, m: Move) -> bool {
    m.target == target && redirected(value, m.names, m.before, m.after) is Some
}

/// What a value in a field that points into `target` becomes by the first move of the
/// row it references; none where it references no row that moves.
pub open spec fn followed_once(value: ValueView, target: Seq<char>, moves: Seq<Move>) -> Option<ValueView>
    decreases moves.len(),
{
    if moves.len() == 0 {
        None
    } else if hit_by(value, target, moves[0]) {
        redirected(value, moves[0].names, moves[0].before, moves[0].after)
    } else {
        followed_once(value, target, moves.drop_first())
    }
}

/// A value by all moves together.
pub open spec fn settled_value(value: ValueView, target: Seq<char>, moves: Seq<Move>) -> ValueView {
    match followed_once(value, target, moves) {
        Some(v) => v,
        None => value,
    }
}

/// Whether some member references a row that moves.
pub open spec fn some_followed(members: Seq<ValueView>, target: Seq<char>, moves: Seq<Move>) -> bool {
    exists|i: int| 0 <= i < members.len() && followed_once(#[trigger] members[i], target, moves) is Some
}

/// What a field holds by all moves together.
pub open spec fn settled_in(field: CompiledField, value: ValueView, moves: Seq<Move>) -> ValueView {
    match (name_view(field.reference), name_view(field.element_reference), value) {
        (_, Some(target), ValueView::Members(members)) => if some_followed(members, target, moves) {
            ValueView::Members(
                canonical(Seq::new(members.len(), |i: int| settled_value(members[i], target, moves)).to_set()),
            )
        } else {
            value
        },
        (Some(target), _, _) => settled_value(value, target, moves),
        _ => value,
    }
}

/// A row by all moves together. Every field is read from the row as it was.
pub open spec fn settled_row(fields: Seq<CompiledField>, row: FieldsView, moves: Seq<Move>) -> FieldsView
    decreases fields.len(),
{
    if fields.len() == 0 {
        row
    } else {
        let rest = settled_row(fields.drop_last(), row, moves);
        let f = fields.last();
        if row.contains_key(f.name@) {
            rest.insert(f.name@, settled_in(f, row[f.name@], moves))
        } else {
            rest
        }
    }
}

/// A state by all moves together.
pub open spec fn settled_refs(compiled: Compiled, state: StateView, moves: Seq<Move>) -> StateView {
    Map::new(
        |a: Seq<StepView>| state.contains_key(a),
        |a: Seq<StepView>|
            match compiled.at(names_of(a)) {
                Some(c) => settled_row(c.fields@, state[a], moves),
                None => state[a],
            },
    )
}

fn all_key_names(compiled: &Compiled, path: &Vec<String>) -> (r: Vec<String>)
    ensures
        texts(r@) == key_names(*compiled, texts(path@)),
{
    let ghost whole = texts(path@);
    let mut r: Vec<String> = Vec::new();
    let mut prefix: Vec<String> = Vec::new();
    let mut i: usize = 0;
    proof {
        assert(texts(r@) =~= Seq::empty());
        assert(texts(prefix@) =~= whole.take(0));
    }
    while i < path.len()
        invariant
            whole == texts(path@),
            i <= path@.len(),
            texts(prefix@) == whole.take(i as int),
            texts(r@) == key_names(*compiled, whole.take(i as int)),
        decreases path@.len() - i,
    {
        let ghost before = texts(r@);
        prefix.push(path[i].clone());
        proof {
            assert(texts(prefix@) =~= whole.take(i + 1));
            assert(whole.take(i + 1).drop_last() =~= whole.take(i as int));
        }
        if let Some(c) = compiled.collection_at(&prefix) {
            let mut own = copy_texts(&c.key);
            let ghost added = texts(own@);
            let ghost names = r@;
            let ghost more = own@;
            r.append(&mut own);
            proof {
                assert(r@ =~= names + more);
                assert(texts(r@) =~= before + added);
            }
        } else {
            proof {
                assert(before + Seq::<Seq<char>>::empty() =~= before);
            }
        }
        i = i + 1;
    }
    proof {
        assert(whole.take(i as int) =~= whole);
    }
    r
}

fn all_key_components(at: &RowAddress) -> (r: Vec<Value>)
    ensures
        views(r@) == key_components(at@),
{
    let steps = at.steps();
    let ghost whole = at@;
    let mut r: Vec<Value> = Vec::new();
    let mut i: usize = 0;
    proof {
        assert(views(r@) =~= Seq::empty());
        assert(whole.take(0) =~= Seq::<StepView>::empty());
    }
    while i < steps.len()
        invariant
            whole == at@,
            whole.len() == steps@.len(),
            forall|j: int| 0 <= j < whole.len() ==> whole[j] == (#[trigger] steps@[j])@,
            i <= steps@.len(),
            views(r@) == key_components(whole.take(i as int)),
        decreases steps@.len() - i,
    {
        let ghost before = views(r@);
        let ghost held = r@;
        let mut own = copy_values(steps[i].key.components());
        let ghost more = own@;
        r.append(&mut own);
        proof {
            assert(r@ =~= held + more);
            assert(views(r@) =~= before + views(more));
            assert(whole.take(i + 1).drop_last() =~= whole.take(i as int));
            assert(whole.take(i + 1).last() == steps@[i as int]@);
        }
        i = i + 1;
    }
    proof {
        assert(whole.take(i as int) =~= whole);
    }
    r
}

fn identity_of(names: &Vec<String>, components: Vec<Value>) -> (r: Value)
    ensures
        r@ == identity(names@.len(), views(components@)),
{
    let r = if names.len() == 1 {
        if components.len() > 0 {
            copy_value(&components[0])
        } else {
            Value::Absent
        }
    } else {
        Value::Composite(components)
    };
    proof {
        lemma_denoted(r);
    }
    r
}

/// The move of a row from one address to another.
pub fn redirect(compiled: &Compiled, from: &RowAddress, to: &RowAddress) -> (r: Redirect)
    ensures
        r@ == moved_between(*compiled, from@, to@),
{
    let path = from.declaration();
    let names = all_key_names(compiled, &path);
    let before = identity_of(&names, all_key_components(from));
    let after = identity_of(&names, all_key_components(to));
    proof {
        assert(texts(names@).len() == names@.len());
    }
    Redirect { target: join_texts(&path, "/"), names, before, after }
}

/// Follow a value once, where it references a row that moves.
fn follow(value: &Value, target: &str, moves: &Vec<Redirect>) -> (r: Option<Value>)
    ensures
        match (r, followed_once(value@, target@, move_views(moves@))) {
            (Some(v), Some(x)) => v@ == x,
            (None, None) => true,
            _ => false,
        },
{
    let ghost all = move_views(moves@);
    let mut i: usize = 0;
    proof {
        assert(all.skip(0) =~= all);
    }
    while i < moves.len()
        invariant
            all == move_views(moves@),
            i <= moves@.len(),
            followed_once(value@, target@, all) == followed_once(value@, target@, all.skip(i as int)),
        decreases moves@.len() - i,
    {
        proof {
            assert(all.skip(i as int)[0] == moves@[i as int]@);
            assert(all.skip(i as int).drop_first() =~= all.skip(i + 1));
        }
        if same_text(moves[i].target.as_str(), target) {
            if let Some(v) = rewrite_ref_value(value, &moves[i].names, &moves[i].before, &moves[i].after) {
                return Some(v);
            }
        }
        i = i + 1;
    }
    None
}

fn follow_members(members: &Vec<Value>, target: &str, moves: &Vec<Redirect>) -> (r: Option<Value>)
    ensures
        match r {
            Some(v) => some_followed(views(members@), target@, move_views(moves@)) && v@ == ValueView::Members(
                canonical(
                    Seq::new(
                        members@.len(),
                        |i: int| settled_value(views(members@)[i], target@, move_views(moves@)),
                    ).to_set(),
                ),
            ),
            None => !some_followed(views(members@), target@, move_views(moves@)),
        },
{
    let ghost held = views(members@);
    let ghost all = move_views(moves@);
    let mut rebuilt: Vec<Value> = Vec::new();
    let mut changed = false;
    let mut i: usize = 0;
    while i < members.len()
        invariant
            held == views(members@),
            all == move_views(moves@),
            changed ==> some_followed(held, target@, all),
            !changed ==> forall|j: int| 0 <= j < i ==> followed_once(#[trigger] held[j], target@, all) is None,
            i <= members@.len(),
            rebuilt@.len() == i,
            forall|j: int| 0 <= j < i ==> (#[trigger] rebuilt@[j])@ == settled_value(held[j], target@, all),
        decreases members@.len() - i,
    {
        match follow(&members[i], target, moves) {
            Some(v) => {
                proof {
                    assert(followed_once(held[i as int], target@, all) is Some);
                }
                rebuilt.push(v);
                changed = true;
            },
            None => {
                rebuilt.push(copy_value(&members[i]));
            },
        }
        i = i + 1;
    }
    if !changed {
        return None;
    }
    proof {
        assert(views(rebuilt@) =~= Seq::new(members@.len(), |i: int| settled_value(held[i], target@, all)));
    }
    let r = Value::Members(canonical_members(&rebuilt));
    proof {
        lemma_denoted(r);
    }
    Some(r)
}

fn follow_field(field: &CompiledField, value: &Value, moves: &Vec<Redirect>) -> (r: Value)
    ensures
        r@ == settled_in(*field, value@, move_views(moves@)),
{
    proof {
        lemma_denoted(*value);
    }
    if let Some(target) = &field.element_reference {
        if let Value::Members(members) = value {
            proof {
                assert(value@->Members_0 == views(members@));
            }
            return match follow_members(members, target.as_str(), moves) {
                Some(v) => v,
                None => copy_value(value),
            };
        }
    }
    if let Some(target) = &field.reference {
        if let Some(v) = follow(value, target.as_str(), moves) {
            return v;
        }
    }
    copy_value(value)
}

fn follow_row(declared: &Vec<CompiledField>, row: &Fields, moves: &Vec<Redirect>) -> (r: Fields)
    ensures
        r@ == settled_row(declared@, row@, move_views(moves@)),
{
    let mut r = row.duplicate();
    let mut i: usize = 0;
    proof {
        assert(declared@.take(0) =~= Seq::<CompiledField>::empty());
    }
    while i < declared.len()
        invariant
            i <= declared@.len(),
            r@ == settled_row(declared@.take(i as int), row@, move_views(moves@)),
        decreases declared@.len() - i,
    {
        proof {
            assert(declared@.take(i + 1).drop_last() =~= declared@.take(i as int));
            assert(declared@.take(i + 1).last() == declared@[i as int]);
        }
        if let Some(value) = row.get(&declared[i].name) {
            r.insert(declared[i].name.clone(), follow_field(&declared[i], value, moves));
        }
        i = i + 1;
    }
    proof {
        assert(declared@.take(i as int) =~= declared@);
    }
    r
}

/// Redirect the references of a state by all moves together.
pub fn redirect_all(compiled: &Compiled, prospective: &mut Prospective, moves: &Vec<Redirect>)
    ensures
        final(prospective)@ == settled_refs(*compiled, old(prospective)@, move_views(moves@)),
        final(prospective).drawn() == old(prospective).drawn(),
{
    let ghost start = prospective@;
    let ghost goal = settled_refs(*compiled, start, move_views(moves@));
    let candidates = prospective.addresses();
    let ghost all = address_views(candidates@);
    let mut i: usize = 0;
    while i < candidates.len()
        invariant
            i <= candidates@.len(),
            all == address_views(candidates@),
            ascending::<RowAddress>(all),
            all.to_set() == start.dom(),
            goal == settled_refs(*compiled, start, move_views(moves@)),
            prospective.drawn() == old(prospective).drawn(),
            prospective@.dom() == start.dom(),
            forall|k: int| 0 <= k < i ==> prospective@[#[trigger] all[k]] == goal[all[k]],
            forall|k: int| i <= k < all.len() ==> prospective@[#[trigger] all[k]] == start[all[k]],
        decreases candidates@.len() - i,
    {
        let address = &candidates[i];
        let ghost a = all[i as int];
        proof {
            assert(all.contains(a));
            assert(all.to_set().contains(a));
            assert forall|k: int| 0 <= k < all.len() && k != i implies #[trigger] all[k] != a by {
                if all[k] == a {
                    lemma_ascending_distinct::<RowAddress>(all, k, i as int);
                }
            }
        }
        let declaration = address.declaration();
        if let Some(c) = compiled.collection_at(&declaration) {
            if let Some(existing) = prospective.get(address) {
                let fields = follow_row(&c.fields, existing, moves);
                prospective.replace(address, fields);
                proof {
                    assert(prospective@.dom() =~= start.dom());
                }
            }
        }
        i = i + 1;
    }
    proof {
        assert(prospective@ =~= goal) by {
            assert forall|a: Seq<StepView>| start.contains_key(a) implies prospective@[a] == goal[a] by {
                assert(all.to_set().contains(a));
                let k = choose|k: int| 0 <= k < all.len() && all[k] == a;
            }
        }
    }
}

/// A value that references the row of one move, and of no earlier one, follows that
/// move, and no later one takes it further: two rows may exchange their keys.
pub proof fn law_followed_by_its_row(value: ValueView, target: Seq<char>, moves: Seq<Move>, n: int)
    requires
        0 <= n < moves.len(),
        hit_by(value, target, moves[n]),
        forall|i: int| 0 <= i < n ==> !hit_by(value, target, #[trigger] moves[i]),
    ensures
        settled_value(value, target, moves) == redirected(
            value,
            moves[n].names,
            moves[n].before,
            moves[n].after,
        )->0,
    decreases n,
{
    if n > 0 {
        let rest = moves.drop_first();
        assert(rest[n - 1] == moves[n]);
        assert(!hit_by(value, target, moves[0]));
        assert forall|i: int| 0 <= i < n - 1 implies !hit_by(value, target, #[trigger] rest[i]) by {
            assert(rest[i] == moves[i + 1]);
        }
        law_followed_by_its_row(value, target, rest, n - 1);
    }
}

/// A value that references no row that moves stays.
pub proof fn law_unmoved_reference(value: ValueView, target: Seq<char>, moves: Seq<Move>)
    requires
        forall|i: int| 0 <= i < moves.len() ==> !hit_by(value, target, #[trigger] moves[i]),
    ensures
        settled_value(value, target, moves) == value,
    decreases moves.len(),
{
    if moves.len() > 0 {
        let rest = moves.drop_first();
        assert(!hit_by(value, target, moves[0]));
        assert forall|i: int| 0 <= i < rest.len() implies !hit_by(value, target, #[trigger] rest[i]) by {
            assert(rest[i] == moves[i + 1]);
        }
        law_unmoved_reference(value, target, rest);
    }
}

} // verus!
