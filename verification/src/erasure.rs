//! Erasure: a deletion that captures what every removed row held.

use crate::cell::{lemma_cell, Cell, CellView};
use crate::deletion::{refs_to, DeletedRow, PlannedDeletion};
use crate::execution::{keys_selected, loc_name, name_of, row_refs, selection_key_values};
use crate::interp::{ref_views, RowRef, RowRefView};
use crate::materialize::{stored_form, struct_of};
use crate::model::Compiled;
use crate::order::Duplicate;
use crate::program::{Interp, ProgramView};
use crate::rejection::{outcome, refused, Rejection, RejectionReason, RejectionView};
use crate::state::StateView;
use crate::target::{located, receiver_gone, Place};
use crate::text::{concat5, lemma_cut};
use crate::value::{copy_value, views, Value, ValueView};
use vstd::prelude::*;

verus! {

/// The keys of the rows an erasure names: those of the selected rows, or a scalar as
/// a key itself.
pub open spec fn keys_erased(cell: CellView) -> Seq<ValueView> {
    match cell {
        CellView::Scalar(v) => seq![v],
        _ => keys_selected(cell),
    }
}

/// The rows an erasure names, with its selector evaluated.
pub open spec fn erase_named(
    compiled: Compiled,
    p: ProgramView,
    selector: Option<(Place, Result<Cell, Rejection>)>,
) -> Result<Seq<RowRefView>, RejectionView> {
    match selector {
        None => Err(refused(RejectionReason::Malformed, "`erase` requires a row selector"@)),
        Some((base, selection)) => match located(compiled, p, base) {
            Err(e) => Err(e),
            Ok(None) => Err(refused(RejectionReason::Malformed, "`erase` targets a top-level collection row"@)),
            Ok(Some(loc)) => match receiver_gone(p) {
                Some(e) => Err(e),
                None => match outcome(selection) {
                    Err(e) => Err(e),
                    Ok(cell) => Ok(refs_to(loc_name(loc), keys_erased(cell))),
                },
            },
        },
    }
}

/// What an erasure captures: every row of the planned closure that exists, with all
/// it holds.
pub open spec fn payloads(state: StateView, deletes: Seq<DeletedRow>) -> Seq<(RowRefView, ValueView)>
    decreases deletes.len(),
{
    if deletes.len() == 0 {
        Seq::empty()
    } else {
        let before = payloads(state, deletes.drop_last());
        let d = deletes.last();
        match d.address {
            Some(address) if state.contains_key(address@) => before.push((d.row@, stored_form(state[address@]))),
            _ => before,
        }
    }
}

/// What captured rows denote.
pub open spec fn captured_views(captured: Seq<(RowRef, Value)>) -> Seq<(RowRefView, ValueView)> {
    Seq::new(captured.len(), |i: int| (captured[i].0@, captured[i].1@))
}

impl<'a> Interp<'a> {
    /// The rows an erasure names, whose deletion the caller plans.
    pub fn exec_erase(&self, selector: &Option<(Place, Result<Cell, Rejection>)>) -> (r: Result<
        Vec<RowRef>,
        Rejection,
    >)
        ensures
            match (r, erase_named(*self.compiled, self@, *selector)) {
                (Ok(refs), Ok(s)) => ref_views(refs@) == s,
                (Err(e), Err(x)) => e@ == x,
                _ => false,
            },
    {
        match selector {
            None => Err(Rejection::new(RejectionReason::Malformed, "`erase` requires a row selector")),
            Some((base, selection)) => {
                let loc = match self.collection_ref(base) {
                    Err(e) => {
                        return Err(e);
                    },
                    Ok(None) => {
                        return Err(
                            Rejection::new(
                                RejectionReason::Malformed,
                                "`erase` targets a top-level collection row",
                            ),
                        );
                    },
                    Ok(Some(loc)) => loc,
                };
                if let Err(e) = self.current() {
                    return Err(e);
                }
                let cell = match selection {
                    Err(e) => {
                        return Err(e.duplicate());
                    },
                    Ok(cell) => cell,
                };
                proof {
                    lemma_cell(*cell);
                }
                let keys = match cell {
                    Cell::Scalar(v) => {
                        let mut one: Vec<Value> = Vec::new();
                        one.push(copy_value(v));
                        proof {
                            assert(views(one@) =~= keys_erased(cell@));
                        }
                        one
                    },
                    _ => selection_key_values(cell),
                };
                let name = name_of(&loc);
                Ok(row_refs(name.as_str(), &keys))
            },
        }
    }

    /// Capture what every row of a planned closure holds, before it is removed.
    pub fn capture(&self, plan: &PlannedDeletion) -> (r: Vec<(RowRef, Value)>)
        ensures
            captured_views(r@) == payloads(self@.state, plan.deletes@),
    {
        let mut captured: Vec<(RowRef, Value)> = Vec::new();
        let mut i: usize = 0;
        proof {
            assert(plan.deletes@.take(0) =~= Seq::<DeletedRow>::empty());
            assert(captured_views(captured@) =~= Seq::<(RowRefView, ValueView)>::empty());
        }
        while i < plan.deletes.len()
            invariant
                i <= plan.deletes@.len(),
                captured_views(captured@) == payloads(self@.state, plan.deletes@.take(i as int)),
            decreases plan.deletes@.len() - i,
        {
            let ghost prior = captured_views(captured@);
            proof {
                assert(plan.deletes@.take(i + 1).drop_last() =~= plan.deletes@.take(i as int));
                assert(plan.deletes@.take(i + 1).last() == plan.deletes@[i as int]);
            }
            let d = &plan.deletes[i];
            if let Some(address) = &d.address {
                if let Some(fields) = self.prospective.get(address) {
                    let row = RowRef { collection: d.row.collection.clone(), key: copy_value(&d.row.key) };
                    captured.push((row, struct_of(fields)));
                    proof {
                        assert(captured_views(captured@) =~= prior.push(
                            (d.row@, stored_form(self@.state[address@])),
                        ));
                    }
                }
            }
            i = i + 1;
        }
        proof {
            assert(plan.deletes@.take(i as int) =~= plan.deletes@);
        }
        captured
    }
}

/// The identity of one captured row: its collection, its key, and what it held, each
/// as text, set apart by a separator.
pub open spec fn occurrence(collection: Seq<char>, key: Seq<char>, payload: Seq<char>) -> Seq<char> {
    collection + seq!['\u{1f}'] + key + seq!['\u{1f}'] + payload
}

/// The identity of one captured row, from the canonical texts of its key and of what
/// it held.
pub fn occurrence_id(collection: &str, key: &str, payload: &str) -> (r: String)
    ensures
        r@ == occurrence(collection@, key@, payload@),
{
    proof {
        reveal_strlit("\u{1f}");
        assert("\u{1f}"@ =~= seq!['\u{1f}']);
    }
    concat5(collection, "\u{1f}", key, "\u{1f}", payload)
}

/// Two captured rows have one identity only where their collections, their keys, and
/// what they held are the same, as long as the separator stands in no name and no key.
pub proof fn law_occurrences_apart(
    collection: Seq<char>,
    key: Seq<char>,
    payload: Seq<char>,
    other_collection: Seq<char>,
    other_key: Seq<char>,
    other_payload: Seq<char>,
)
    requires
        !collection.contains('\u{1f}'),
        !key.contains('\u{1f}'),
        !other_collection.contains('\u{1f}'),
        !other_key.contains('\u{1f}'),
        occurrence(collection, key, payload) == occurrence(other_collection, other_key, other_payload),
    ensures
        collection == other_collection,
        key == other_key,
        payload == other_payload,
{
    let a = occurrence(collection, key, payload);
    let rest = key + seq!['\u{1f}'] + payload;
    let other_rest = other_key + seq!['\u{1f}'] + other_payload;
    assert(a =~= collection + seq!['\u{1f}'] + rest);
    assert(occurrence(other_collection, other_key, other_payload) =~= other_collection + seq!['\u{1f}'] + other_rest);
    lemma_cut(collection, '\u{1f}', rest);
    lemma_cut(other_collection, '\u{1f}', other_rest);
    lemma_cut(key, '\u{1f}', payload);
    lemma_cut(other_key, '\u{1f}', other_payload);
}

/// What the erasures of a program answered: the response of a returned one, and every
/// extract in the order of execution.
#[derive(Debug)]
pub struct Extracts {
    pub returned: Option<Value>,
    pub exports: Vec<Value>,
}

impl Extracts {
    /// No erasure yet.
    pub fn new() -> (r: Extracts)
        ensures
            r.returned is None,
            r.exports@.len() == 0,
    {
        Extracts { returned: None, exports: Vec::new() }
    }

    /// Record an erasure by the content hash of its extract. Only the hash is kept:
    /// what was erased is not in the answer.
    pub fn record(&mut self, hash: String, is_response: bool)
        ensures
            views(final(self).exports@) == views(old(self).exports@).push(ValueView::Text(hash@)),
            if is_response {
                final(self).returned matches Some(v) && v@ == ValueView::Text(hash@)
            } else {
                final(self).returned == old(self).returned
            },
    {
        let ghost prior = views(self.exports@);
        if is_response {
            self.returned = Some(Value::Text(hash.clone()));
        }
        self.exports.push(Value::Text(hash));
        proof {
            assert(views(self.exports@) =~= prior.push(ValueView::Text(hash@)));
        }
    }
}

} // verus!
