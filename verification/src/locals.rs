//! The locals of a program: a bound row is read where it now stands, a bound value as
//! it was.

use crate::cell::{cell_views, copy_cell, lemma_cell, Cell, CellView};
use crate::materialize::{row_shown, shapes_ok, within, Read, ReadView};
use crate::program::RowTarget;
use vstd::prelude::*;

verus! {

/// What a local is bound to.
#[derive(Debug)]
pub enum LocalBind {
    /// A row, and which shape it is read in, where the package declares its path.
    Row(RowTarget, Option<usize>),
    Value(Cell),
}

/// The cell a local reads as; none where its row, or the row's path, is gone.
pub open spec fn local_shown(read: ReadView, bind: LocalBind, limit: nat) -> Option<CellView> {
    match bind {
        LocalBind::Value(cell) => Some(cell@),
        LocalBind::Row(target, Some(shape)) => if read.state.contains_key(target@.address) {
            Some(
                CellView::Row(
                    Box::new(
                        row_shown(
                            read,
                            target@.address,
                            shape as int,
                            seq![target@.address.last().key],
                            target@.address.len(),
                            limit,
                        ),
                    ),
                ),
            )
        } else {
            None
        },
        LocalBind::Row(_, None) => None,
    }
}

/// The locals a later statement sees, in order.
pub open spec fn locals_shown(read: ReadView, locals: Seq<(String, LocalBind)>, limit: nat) -> Seq<
    (Seq<char>, CellView),
>
    decreases locals.len(),
{
    if locals.len() == 0 {
        Seq::empty()
    } else {
        let before = locals_shown(read, locals.drop_last(), limit);
        match local_shown(read, locals.last().1, limit) {
            Some(cell) => before.push((locals.last().0@, cell)),
            None => before,
        }
    }
}

/// Whether the shapes of the bound rows are among the shapes of a read.
pub open spec fn locals_ok(locals: Seq<(String, LocalBind)>, shapes: nat) -> bool {
    forall|i: int|
        0 <= i < locals.len() ==> ((#[trigger] locals[i]).1 matches LocalBind::Row(_, Some(shape)) ==> shape < shapes)
}

/// Read one local.
fn local_cell(read: &Read, bind: &LocalBind) -> (r: Option<Cell>)
    requires
        shapes_ok(read.shapes@),
        bind matches LocalBind::Row(_, Some(shape)) ==> shape < read.shapes@.len(),
    ensures
        forall|limit: nat| #[trigger]
            within(read.state@, limit) ==> match (r, local_shown(read@, *bind, limit)) {
                (Some(cell), Some(shown)) => cell@ == shown,
                (None, None) => true,
                _ => false,
            },
{
    match bind {
        LocalBind::Value(cell) => Some(copy_cell(cell)),
        LocalBind::Row(_, None) => None,
        LocalBind::Row(target, Some(shape)) => match read.materialize_row(&target.address, *shape) {
            None => None,
            Some(row) => {
                let cell = Cell::Row(Box::new(row));
                proof {
                    lemma_cell(cell);
                }
                Some(cell)
            },
        },
    }
}

/// Read the locals a later statement sees.
pub fn local_bindings(read: &Read, locals: &Vec<(String, LocalBind)>) -> (r: Vec<(String, Cell)>)
    requires
        shapes_ok(read.shapes@),
        locals_ok(locals@, read.shapes@.len()),
    ensures
        forall|limit: nat| #[trigger]
            within(read.state@, limit) ==> cell_views(r@) == locals_shown(read@, locals@, limit),
{
    let mut cells: Vec<(String, Cell)> = Vec::new();
    let mut i: usize = 0;
    proof {
        assert(locals@.take(0) =~= Seq::<(String, LocalBind)>::empty());
        assert(cell_views(cells@) =~= Seq::<(Seq<char>, CellView)>::empty());
    }
    while i < locals.len()
        invariant
            shapes_ok(read.shapes@),
            locals_ok(locals@, read.shapes@.len()),
            i <= locals@.len(),
            forall|limit: nat| #[trigger]
                within(read.state@, limit) ==> cell_views(cells@) == locals_shown(
                    read@,
                    locals@.take(i as int),
                    limit,
                ),
        decreases locals@.len() - i,
    {
        let ghost prior = cell_views(cells@);
        proof {
            assert(locals@.take(i + 1).drop_last() =~= locals@.take(i as int));
            assert(locals@.take(i + 1).last() == locals@[i as int]);
        }
        let shown = local_cell(read, &locals[i].1);
        match shown {
            Some(cell) => {
                let ghost seen = cell@;
                cells.push((locals[i].0.clone(), cell));
                proof {
                    assert(cell_views(cells@) =~= prior.push((locals@[i as int].0@, seen)));
                }
            },
            None => {},
        }
        i = i + 1;
    }
    proof {
        assert(locals@.take(i as int) =~= locals@);
    }
    cells
}

/// A bound value reads the same whatever the program writes; a bound row whose row is
/// gone is not seen.
pub proof fn law_locals(read: ReadView, later: ReadView, bind: LocalBind, limit: nat)
    ensures
        bind is Value ==> local_shown(read, bind, limit) == local_shown(later, bind, limit),
        bind matches LocalBind::Row(target, _) ==> !later.state.contains_key(target@.address) ==> local_shown(
            later,
            bind,
            limit,
        ) is None,
{
}

} // verus!
