//! Live view patches: the ordered difference between two results of a view.
//!
//! A patch is a row of operations on the current result of a view. Positions are
//! those of the result as it stands when an operation is applied.

use crate::cell::RowId;
use crate::order::Duplicate;
use crate::value::{copy_value, same_value, Value, ValueView};
use vstd::prelude::*;

verus! {

/// What the identity of a row denotes.
pub type IdView = Seq<Seq<ValueView>>;

/// One row of a view result: its identity and the value it exposes.
#[derive(Debug)]
pub struct ViewRow {
    pub id: RowId,
    pub value: Value,
}

/// What a [`ViewRow`] denotes.
#[verifier::ext_equal]
pub struct ViewRowView {
    pub id: IdView,
    pub value: ValueView,
}

impl View for ViewRow {
    type V = ViewRowView;

    open spec fn view(&self) -> ViewRowView {
        ViewRowView { id: self.id@, value: self.value@ }
    }
}

impl Duplicate for ViewRow {
    fn duplicate(&self) -> (r: Self) {
        ViewRow { id: self.id.duplicate(), value: copy_value(&self.value) }
    }
}

/// What rows of a result denote.
pub open spec fn result_view(rows: Seq<ViewRow>) -> Seq<ViewRowView> {
    Seq::new(rows.len(), |i: int| rows[i]@)
}

/// One operation of a patch.
#[derive(Debug)]
pub enum PatchOp {
    /// A new row enters at a position.
    Insert { at: usize, row: ViewRow },
    /// A row leaves.
    Remove { id: RowId },
    /// A row changes its position; its value stays.
    Move { id: RowId, to: usize },
    /// The value of a row changes; its position stays.
    Update { row: ViewRow },
    /// The exposed key of a row changes; its identity, value and position stay. A
    /// difference never holds one: the identity of a row is its key, so a row with
    /// another key is another row.
    Rekey { id: RowId, key: Value },
}

/// What a [`PatchOp`] denotes.
#[verifier::ext_equal]
pub enum OpView {
    Insert { at: int, row: ViewRowView },
    Remove { id: IdView },
    Move { id: IdView, to: int },
    Update { row: ViewRowView },
    Rekey { id: IdView, key: ValueView },
}

impl View for PatchOp {
    type V = OpView;

    open spec fn view(&self) -> OpView {
        match self {
            PatchOp::Insert { at, row } => OpView::Insert { at: *at as int, row: row@ },
            PatchOp::Remove { id } => OpView::Remove { id: id@ },
            PatchOp::Move { id, to } => OpView::Move { id: id@, to: *to as int },
            PatchOp::Update { row } => OpView::Update { row: row@ },
            PatchOp::Rekey { id, key } => OpView::Rekey { id: id@, key: key@ },
        }
    }
}

/// What the operations of a patch denote.
pub open spec fn op_views(ops: Seq<PatchOp>) -> Seq<OpView> {
    Seq::new(ops.len(), |i: int| ops[i]@)
}

/// The row an operation is about.
pub open spec fn op_id(op: OpView) -> IdView {
    match op {
        OpView::Insert { row, .. } => row.id,
        OpView::Remove { id } => id,
        OpView::Move { id, .. } => id,
        OpView::Update { row } => row.id,
        OpView::Rekey { id, .. } => id,
    }
}

impl PatchOp {
    /// The row the operation is about.
    pub fn id(&self) -> (r: &RowId)
        ensures
            r@ == op_id(self@),
    {
        match self {
            PatchOp::Insert { row, .. } => &row.id,
            PatchOp::Remove { id } => id,
            PatchOp::Move { id, .. } => id,
            PatchOp::Update { row } => &row.id,
            PatchOp::Rekey { id, .. } => id,
        }
    }
}

/// The identities of the rows of a result.
pub open spec fn ids_of(rows: Seq<ViewRowView>) -> Seq<IdView> {
    Seq::new(rows.len(), |i: int| rows[i].id)
}

/// Whether no identity comes twice.
pub open spec fn distinct(rows: Seq<ViewRowView>) -> bool {
    forall|i: int, j: int| 0 <= i < j < rows.len() ==> (#[trigger] rows[i]).id != (#[trigger] rows[j]).id
}

/// A result after an operation of a patch is applied to it.
pub open spec fn applied(rows: Seq<ViewRowView>, op: OpView) -> Seq<ViewRowView> {
    let at = ids_of(rows).index_of_first(op_id(op));
    match op {
        OpView::Insert { at, row } => rows.insert(at, row),
        OpView::Remove { .. } => match at {
            Some(i) => rows.remove(i),
            None => rows,
        },
        OpView::Move { to, .. } => match at {
            Some(i) => rows.remove(i).insert(to, rows[i]),
            None => rows,
        },
        OpView::Update { row } => match at {
            Some(i) => rows.update(i, row),
            None => rows,
        },
        OpView::Rekey { .. } => rows,
    }
}

/// A result after the operations of a patch are applied to it in order.
pub open spec fn applied_all(rows: Seq<ViewRowView>, ops: Seq<OpView>) -> Seq<ViewRowView>
    decreases ops.len(),
{
    if ops.len() == 0 {
        rows
    } else {
        applied(applied_all(rows, ops.drop_last()), ops.last())
    }
}

/// The last row of this identity.
pub open spec fn row_of(rows: Seq<ViewRowView>, id: IdView) -> Option<ViewRowView>
    decreases rows.len(),
{
    if rows.len() == 0 {
        None
    } else if rows.last().id == id {
        Some(rows.last())
    } else {
        row_of(rows.drop_last(), id)
    }
}

/// What happens to one row of the result before: it leaves, or takes its new value.
pub open spec fn settling_step(row: ViewRowView, next: Seq<ViewRowView>) -> Seq<OpView> {
    match row_of(next, row.id) {
        None => seq![OpView::Remove { id: row.id }],
        Some(after) => if row.value == after.value {
            Seq::empty()
        } else {
            seq![OpView::Update { row: after }]
        },
    }
}

/// The operations that drop the rows that left and give the others their new values.
pub open spec fn settling(prev: Seq<ViewRowView>, next: Seq<ViewRowView>) -> Seq<OpView>
    decreases prev.len(),
{
    if prev.len() == 0 {
        Seq::empty()
    } else {
        settling(prev.drop_last(), next) + settling_step(prev.last(), next)
    }
}

/// The rows that stay, in their old order and with their new values.
pub open spec fn staying(prev: Seq<ViewRowView>, next: Seq<ViewRowView>) -> Seq<ViewRowView>
    decreases prev.len(),
{
    if prev.len() == 0 {
        Seq::empty()
    } else {
        match row_of(next, prev.last().id) {
            None => staying(prev.drop_last(), next),
            Some(after) => staying(prev.drop_last(), next).push(after),
        }
    }
}

/// The operations that put the rows of a result in their places, from a position on.
pub open spec fn placing(ids: Seq<IdView>, next: Seq<ViewRowView>, i: int) -> Seq<OpView>
    decreases next.len() - i,
{
    if i < 0 || i >= next.len() {
        Seq::empty()
    } else {
        let target = next[i];
        if i < ids.len() && ids[i] == target.id {
            placing(ids, next, i + 1)
        } else {
            match ids.index_of_first(target.id) {
                Some(j) => seq![OpView::Move { id: target.id, to: i }] + placing(
                    ids.remove(j).insert(i, target.id),
                    next,
                    i + 1,
                ),
                None => seq![OpView::Insert { at: i, row: target }] + placing(ids.insert(i, target.id), next, i + 1),
            }
        }
    }
}

/// The patch from one result to the next.
pub open spec fn difference(prev: Seq<ViewRowView>, next: Seq<ViewRowView>) -> Seq<OpView> {
    settling(prev, next) + placing(ids_of(staying(prev, next)), next, 0)
}

pub fn same_id(a: &RowId, b: &RowId) -> (r: bool)
    ensures
        r == (a@ == b@),
{
    if a.keys.len() != b.keys.len() {
        proof {
            assert(a@.len() != b@.len());
        }
        return false;
    }
    let mut i: usize = 0;
    while i < a.keys.len()
        invariant
            a.keys@.len() == b.keys@.len(),
            i <= a.keys@.len(),
            forall|j: int| 0 <= j < i ==> (#[trigger] a@[j]) == b@[j],
        decreases a.keys@.len() - i,
    {
        if !a.keys[i].same(&b.keys[i]) {
            proof {
                assert(a@[i as int] != b@[i as int]);
            }
            return false;
        }
        i = i + 1;
    }
    proof {
        assert(a@ =~= b@);
    }
    true
}

fn find_row<'a>(rows: &'a Vec<ViewRow>, id: &RowId) -> (r: Option<&'a ViewRow>)
    ensures
        match r {
            Some(row) => row_of(result_view(rows@), id@) == Some(row@),
            None => row_of(result_view(rows@), id@) is None,
        },
{
    let ghost all = result_view(rows@);
    let mut i: usize = rows.len();
    proof {
        assert(all.take(i as int) =~= all);
    }
    while i > 0
        invariant
            all == result_view(rows@),
            i <= rows@.len(),
            row_of(all, id@) == row_of(all.take(i as int), id@),
        decreases i,
    {
        proof {
            assert(all.take(i as int).drop_last() =~= all.take(i - 1));
            assert(all.take(i as int).last() == rows@[i - 1]@);
        }
        i = i - 1;
        if same_id(&rows[i].id, id) {
            return Some(&rows[i]);
        }
    }
    None
}

/// What a row of identities denotes.
spec fn id_views(ids: Seq<RowId>) -> Seq<IdView> {
    Seq::new(ids.len(), |i: int| ids[i]@)
}

fn find_id(ids: &Vec<RowId>, id: &RowId) -> (r: Option<usize>)
    ensures
        match r {
            Some(i) => i < ids@.len() && id_views(ids@).index_of_first(id@) == Some(i as int),
            None => id_views(ids@).index_of_first(id@) is None,
        },
{
    let ghost all = id_views(ids@);
    proof {
        all.index_of_first_ensures(id@);
    }
    let mut i: usize = 0;
    while i < ids.len()
        invariant
            all == id_views(ids@),
            i <= ids@.len(),
            forall|j: int| 0 <= j < i ==> #[trigger] all[j] != id@,
        decreases ids@.len() - i,
    {
        if same_id(&ids[i], id) {
            proof {
                all.index_of_first_ensures(id@);
                assert(all[i as int] == id@);
            }
            return Some(i);
        }
        i = i + 1;
    }
    proof {
        all.index_of_first_ensures(id@);
    }
    None
}

/// The patch that carries one result of a view to the next: first the rows that left
/// are removed and the others take their new values, then each row is put in its
/// place from the front.
pub fn diff(prev: &Vec<ViewRow>, next: &Vec<ViewRow>) -> (r: Vec<PatchOp>)
    requires
        distinct(result_view(next@)),
    ensures
        op_views(r@) == difference(result_view(prev@), result_view(next@)),
        distinct(result_view(prev@)) ==> applied_all(result_view(prev@), op_views(r@)) == result_view(next@),
{
    let ghost before = result_view(prev@);
    let ghost after = result_view(next@);
    let mut ops: Vec<PatchOp> = Vec::new();
    let mut working: Vec<RowId> = Vec::new();
    let mut i: usize = 0;
    proof {
        assert(before.take(0) =~= Seq::<ViewRowView>::empty());
        assert(op_views(ops@) =~= Seq::<OpView>::empty());
        assert(id_views(working@) =~= ids_of(Seq::<ViewRowView>::empty()));
    }
    while i < prev.len()
        invariant
            before == result_view(prev@),
            after == result_view(next@),
            i <= prev@.len(),
            op_views(ops@) == settling(before.take(i as int), after),
            id_views(working@) == ids_of(staying(before.take(i as int), after)),
        decreases prev@.len() - i,
    {
        let ghost done = op_views(ops@);
        let ghost kept = id_views(working@);
        proof {
            assert(before.take(i + 1).drop_last() =~= before.take(i as int));
            assert(before.take(i + 1).last() == prev@[i as int]@);
        }
        match find_row(next, &prev[i].id) {
            None => {
                ops.push(PatchOp::Remove { id: prev[i].id.duplicate() });
                proof {
                    assert(op_views(ops@) =~= done + settling_step(before[i as int], after));
                }
            },
            Some(row) => {
                proof {
                    lemma_row_of(after, before[i as int].id);
                }
                working.push(prev[i].id.duplicate());
                proof {
                    assert(id_views(working@) =~= kept.push(row@.id));
                    assert(id_views(working@) =~= ids_of(staying(before.take(i + 1), after)));
                }
                if !same_value(&prev[i].value, &row.value) {
                    ops.push(PatchOp::Update { row: row.duplicate() });
                }
                proof {
                    assert(op_views(ops@) =~= done + settling_step(before[i as int], after));
                }
            },
        }
        i = i + 1;
    }
    proof {
        assert(before.take(i as int) =~= before);
    }
    let ghost first = op_views(ops@);
    let ghost start = id_views(working@);
    let mut k: usize = 0;
    proof {
        assert(first + placing(start, after, 0) =~= op_views(ops@) + placing(id_views(working@), after, 0));
    }
    while k < next.len()
        invariant
            after == result_view(next@),
            distinct(after),
            k <= next@.len(),
            k <= working@.len(),
            forall|j: int| 0 <= j < k ==> (#[trigger] working@[j])@ == after[j].id,
            first + placing(start, after, 0) == op_views(ops@) + placing(id_views(working@), after, k as int),
        decreases next@.len() - k,
    {
        let ghost ids = id_views(working@);
        let ghost done = op_views(ops@);
        let target = &next[k];
        let placed = k < working.len() && same_id(&working[k], &target.id);
        if !placed {
            proof {
                ids.index_of_first_ensures(target.id@);
            }
            match find_id(&working, &target.id) {
                Some(current) => {
                    proof {
                        if current < k {
                            assert(working@[current as int]@ == after[current as int].id);
                            assert(after[current as int].id != after[k as int].id);
                        }
                    }
                    let id = working.remove(current);
                    working.insert(k, id);
                    ops.push(PatchOp::Move { id: target.id.duplicate(), to: k });
                    proof {
                        assert(id_views(working@) =~= ids.remove(current as int).insert(k as int, target@.id));
                        let op = OpView::Move { id: target@.id, to: k as int };
                        assert(op_views(ops@) =~= done.push(op));
                        assert(op_views(ops@) + placing(id_views(working@), after, k + 1) =~= done + (seq![op]
                            + placing(id_views(working@), after, k + 1)));
                    }
                },
                None => {
                    working.insert(k, target.id.duplicate());
                    ops.push(PatchOp::Insert { at: k, row: target.duplicate() });
                    proof {
                        assert(id_views(working@) =~= ids.insert(k as int, target@.id));
                        let op = OpView::Insert { at: k as int, row: target@ };
                        assert(op_views(ops@) =~= done.push(op));
                        assert(op_views(ops@) + placing(id_views(working@), after, k + 1) =~= done + (seq![op]
                            + placing(id_views(working@), after, k + 1)));
                    }
                },
            }
        }
        k = k + 1;
    }
    proof {
        assert(op_views(ops@) + placing(id_views(working@), after, k as int) =~= op_views(ops@));
        if distinct(before) {
            law_patch(before, after);
        }
    }
    ops
}

proof fn lemma_row_of(rows: Seq<ViewRowView>, id: IdView)
    ensures
        match row_of(rows, id) {
            Some(row) => row.id == id && rows.contains(row),
            None => forall|i: int| 0 <= i < rows.len() ==> (#[trigger] rows[i]).id != id,
        },
    decreases rows.len(),
{
    if rows.len() > 0 {
        if rows.last().id == id {
            assert(rows[rows.len() - 1] == rows.last());
        } else {
            let shorter = rows.drop_last();
            lemma_row_of(shorter, id);
            match row_of(shorter, id) {
                Some(row) => {
                    let i = choose|i: int| 0 <= i < shorter.len() && shorter[i] == row;
                    assert(rows[i] == row);
                },
                None => {
                    assert forall|i: int| 0 <= i < rows.len() implies (#[trigger] rows[i]).id != id by {
                        if i < shorter.len() {
                            assert(shorter[i] == rows[i]);
                        }
                    }
                },
            }
        }
    }
}

proof fn lemma_applied_all(rows: Seq<ViewRowView>, a: Seq<OpView>, b: Seq<OpView>)
    ensures
        applied_all(rows, a + b) == applied_all(applied_all(rows, a), b),
    decreases b.len(),
{
    if b.len() == 0 {
        assert(a + b =~= a);
    } else {
        assert((a + b).drop_last() =~= a + b.drop_last());
        lemma_applied_all(rows, a, b.drop_last());
    }
}

proof fn lemma_one(rows: Seq<ViewRowView>, op: OpView)
    ensures
        applied_all(rows, seq![op]) == applied(rows, op),
{
    assert(seq![op].drop_last() =~= Seq::<OpView>::empty());
    assert(applied_all(rows, seq![op].drop_last()) == rows);
}

proof fn lemma_place(rows: Seq<ViewRowView>, i: int)
    requires
        distinct(rows),
        0 <= i < rows.len(),
    ensures
        ids_of(rows).index_of_first(rows[i].id) == Some(i),
{
    let ids = ids_of(rows);
    ids.index_of_first_ensures(rows[i].id);
    assert(ids[i] == rows[i].id);
    assert(ids.contains(rows[i].id));
    let j = ids.index_of_first(rows[i].id)->0;
    assert(rows[j].id == rows[i].id);
}

/// Every row that stays is a row of the next result, and no identity comes twice.
proof fn lemma_staying(prev: Seq<ViewRowView>, next: Seq<ViewRowView>)
    requires
        distinct(prev),
    ensures
        distinct(staying(prev, next)),
        forall|i: int|
            0 <= i < staying(prev, next).len() ==> next.contains(#[trigger] staying(prev, next)[i]),
        forall|i: int|
            0 <= i < staying(prev, next).len() ==> ids_of(prev).contains((#[trigger] staying(prev, next)[i]).id),
    decreases prev.len(),
{
    if prev.len() > 0 {
        let shorter = prev.drop_last();
        lemma_staying(shorter, next);
        let kept = staying(shorter, next);
        let all = staying(prev, next);
        lemma_row_of(next, prev.last().id);
        assert forall|i: int| 0 <= i < all.len() implies ids_of(prev).contains((#[trigger] all[i]).id) by {
            if i < kept.len() {
                assert(all[i] == kept[i]);
                let q = choose|q: int| 0 <= q < shorter.len() && ids_of(shorter)[q] == kept[i].id;
                assert(ids_of(prev)[q] == kept[i].id);
            } else {
                assert(ids_of(prev)[prev.len() - 1] == all[i].id);
            }
        }
        assert forall|i: int, j: int| 0 <= i < j < all.len() implies (#[trigger] all[i]).id != (
        #[trigger] all[j]).id by {
            assert(all[i] == kept[i]);
            if j < kept.len() {
                assert(all[j] == kept[j]);
            } else {
                let q = choose|q: int| 0 <= q < shorter.len() && ids_of(shorter)[q] == kept[i].id;
                assert(prev[q].id == kept[i].id);
                assert(prev[q].id != prev[prev.len() - 1].id);
            }
        }
        assert forall|i: int| 0 <= i < all.len() implies next.contains(#[trigger] all[i]) by {
            if i < kept.len() {
                assert(all[i] == kept[i]);
            }
        }
    }
}

proof fn lemma_settling(prev: Seq<ViewRowView>, next: Seq<ViewRowView>, n: int)
    requires
        distinct(prev),
        0 <= n <= prev.len(),
    ensures
        applied_all(prev, settling(prev.take(n), next)) == staying(prev.take(n), next) + prev.skip(n),
    decreases n,
{
    if n == 0 {
        assert(prev.take(0) =~= Seq::<ViewRowView>::empty());
        assert(Seq::<ViewRowView>::empty() + prev.skip(0) =~= prev);
    } else {
        lemma_settling(prev, next, n - 1);
        assert(prev.take(n).drop_last() =~= prev.take(n - 1));
        assert(prev.take(n).last() == prev[n - 1]);
        let row = prev[n - 1];
        let kept = staying(prev.take(n - 1), next);
        let rows = kept + prev.skip(n - 1);
        assert(distinct(prev.take(n - 1)));
        lemma_staying(prev.take(n - 1), next);
        lemma_applied_all(prev, settling(prev.take(n - 1), next), settling_step(row, next));
        assert(rows[kept.len() as int] == row);
        assert(distinct(rows)) by {
            assert forall|i: int, j: int| 0 <= i < j < rows.len() implies (#[trigger] rows[i]).id != (
            #[trigger] rows[j]).id by {
                if j < kept.len() {
                    assert(rows[i] == kept[i] && rows[j] == kept[j]);
                } else {
                    let b = n - 1 + (j - kept.len());
                    assert(rows[j] == prev[b]);
                    if i < kept.len() {
                        assert(rows[i] == kept[i]);
                        let names = ids_of(prev.take(n - 1));
                        let q = choose|q: int| 0 <= q < names.len() && names[q] == kept[i].id;
                        assert(prev[q].id == kept[i].id);
                    } else {
                        assert(rows[i] == prev[n - 1 + (i - kept.len())]);
                    }
                }
            }
        }
        lemma_place(rows, kept.len() as int);
        lemma_row_of(next, row.id);
        match row_of(next, row.id) {
            None => {
                lemma_one(rows, OpView::Remove { id: row.id });
                assert(rows.remove(kept.len() as int) =~= kept + prev.skip(n));
            },
            Some(after) => {
                if row.value == after.value {
                    assert(applied_all(rows, Seq::<OpView>::empty()) == rows);
                    assert(after == row);
                    assert(rows =~= kept.push(after) + prev.skip(n));
                } else {
                    lemma_one(rows, OpView::Update { row: after });
                    assert(rows.update(kept.len() as int, after) =~= kept.push(after) + prev.skip(n));
                }
            },
        }
    }
}

proof fn lemma_placing(rows: Seq<ViewRowView>, next: Seq<ViewRowView>, i: int)
    requires
        distinct(rows),
        distinct(next),
        0 <= i <= next.len(),
        i <= rows.len(),
        rows.take(i) == next.take(i),
        forall|j: int| 0 <= j < rows.len() ==> next.contains(#[trigger] rows[j]),
    ensures
        applied_all(rows, placing(ids_of(rows), next, i)) == next,
    decreases next.len() - i,
{
    let ids = ids_of(rows);
    assert forall|j: int| 0 <= j < i implies #[trigger] rows[j] == next[j] by {
        assert(rows.take(i)[j] == next.take(i)[j]);
    }
    if i == next.len() {
        if rows.len() > i {
            let k = choose|k: int| 0 <= k < next.len() && next[k] == rows[i];
            assert(rows[k] == next[k]);
            assert(false);
        }
        assert(rows =~= next);
    } else {
        let target = next[i];
        ids.index_of_first_ensures(target.id);
        if i < ids.len() && ids[i] == target.id {
            let k = choose|k: int| 0 <= k < next.len() && next[k] == rows[i];
            assert(next[k].id == next[i].id);
            assert(k == i);
            assert(rows.take(i + 1) =~= next.take(i + 1));
            lemma_placing(rows, next, i + 1);
        } else {
            let (op, after) = match ids.index_of_first(target.id) {
                Some(j) => (OpView::Move { id: target.id, to: i }, rows.remove(j).insert(i, rows[j])),
                None => (OpView::Insert { at: i, row: target }, rows.insert(i, target)),
            };
            match ids.index_of_first(target.id) {
                Some(j) => {
                    if j < i {
                        assert(rows[j] == next[j]);
                        assert(false);
                    }
                    let k = choose|k: int| 0 <= k < next.len() && next[k] == rows[j];
                    assert(next[k].id == next[i].id);
                    assert(rows[j] == target);
                    assert(ids_of(after) =~= ids.remove(j).insert(i, target.id));
                    assert forall|p: int| 0 <= p < after.len() implies next.contains(#[trigger] after[p]) by {
                        if p < i {
                            assert(after[p] == rows[p]);
                        } else if p == i {
                            assert(after[p] == rows[j]);
                        } else if p <= j {
                            assert(after[p] == rows[p - 1]);
                        } else {
                            assert(after[p] == rows[p]);
                        }
                    }
                    assert(distinct(after)) by {
                        assert forall|p: int, q: int| 0 <= p < q < after.len() implies (#[trigger] after[p]).id != (
                        #[trigger] after[q]).id by {
                            let a = if p < i || p > j {
                                p
                            } else if p == i {
                                j
                            } else {
                                p - 1
                            };
                            let b = if q < i || q > j {
                                q
                            } else if q == i {
                                j
                            } else {
                                q - 1
                            };
                            assert(after[p] == rows[a]);
                            assert(after[q] == rows[b]);
                        }
                    }
                },
                None => {
                    assert(ids_of(after) =~= ids.insert(i, target.id));
                    assert forall|p: int| 0 <= p < after.len() implies next.contains(#[trigger] after[p]) by {
                        if p < i {
                            assert(after[p] == rows[p]);
                        } else if p == i {
                            assert(next[i] == target);
                        } else {
                            assert(after[p] == rows[p - 1]);
                        }
                    }
                    assert(distinct(after)) by {
                        assert forall|p: int, q: int| 0 <= p < q < after.len() implies (#[trigger] after[p]).id != (
                        #[trigger] after[q]).id by {
                            if p != i {
                                let a = if p < i {
                                    p
                                } else {
                                    p - 1
                                };
                                assert(after[p] == rows[a]);
                                assert(ids[a] == rows[a].id);
                            }
                            if q != i {
                                let b = if q < i {
                                    q
                                } else {
                                    q - 1
                                };
                                assert(after[q] == rows[b]);
                                assert(ids[b] == rows[b].id);
                            }
                        }
                    }
                },
            }
            assert(after.take(i + 1) =~= next.take(i + 1));
            lemma_placing(after, next, i + 1);
            lemma_one(rows, op);
            lemma_applied_all(rows, seq![op], placing(ids_of(after), next, i + 1));
        }
    }
}

/// Applying the patch from one result to the next gives the next result exactly: the
/// same rows, the same values, in the same order.
pub proof fn law_patch(prev: Seq<ViewRowView>, next: Seq<ViewRowView>)
    requires
        distinct(prev),
        distinct(next),
    ensures
        applied_all(prev, difference(prev, next)) == next,
{
    lemma_settling(prev, next, prev.len() as int);
    assert(prev.take(prev.len() as int) =~= prev);
    let kept = staying(prev, next);
    assert(kept + prev.skip(prev.len() as int) =~= kept);
    lemma_staying(prev, next);
    assert(kept.take(0) =~= next.take(0));
    lemma_placing(kept, next, 0);
    lemma_applied_all(prev, settling(prev, next), placing(ids_of(kept), next, 0));
}

/// The patch between equal results is empty.
pub proof fn law_no_change(rows: Seq<ViewRowView>)
    requires
        distinct(rows),
    ensures
        difference(rows, rows) == Seq::<OpView>::empty(),
{
    lemma_unchanged(rows, rows.len() as int);
    assert(rows.take(rows.len() as int) =~= rows);
    lemma_in_place(rows, 0);
    assert(difference(rows, rows) =~= Seq::<OpView>::empty());
}

proof fn lemma_unchanged(rows: Seq<ViewRowView>, n: int)
    requires
        distinct(rows),
        0 <= n <= rows.len(),
    ensures
        settling(rows.take(n), rows) == Seq::<OpView>::empty(),
        staying(rows.take(n), rows) == rows.take(n),
    decreases n,
{
    if n > 0 {
        lemma_unchanged(rows, n - 1);
        assert(rows.take(n).drop_last() =~= rows.take(n - 1));
        assert(rows.take(n).last() == rows[n - 1]);
        lemma_row_of(rows, rows[n - 1].id);
        let after = row_of(rows, rows[n - 1].id)->0;
        let k = choose|k: int| 0 <= k < rows.len() && rows[k] == after;
        assert(rows[k].id == rows[n - 1].id);
        assert(k == n - 1);
        assert(rows.take(n) =~= rows.take(n - 1).push(rows[n - 1]));
        assert(settling(rows.take(n), rows) =~= Seq::<OpView>::empty());
    } else {
        assert(rows.take(0) =~= Seq::<ViewRowView>::empty());
    }
}

proof fn lemma_in_place(rows: Seq<ViewRowView>, i: int)
    requires
        0 <= i <= rows.len(),
    ensures
        placing(ids_of(rows), rows, i) == Seq::<OpView>::empty(),
    decreases rows.len() - i,
{
    if i < rows.len() {
        lemma_in_place(rows, i + 1);
    }
}

} // verus!
