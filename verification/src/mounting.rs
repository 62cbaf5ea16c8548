//! The rows of module collections: one for each mounted instance, folded into the row
//! that contains its collection.

use crate::address::{AddressStep, CollectionPath, KeyValue, RowAddress, StepView};
use crate::cell::{
    cell_named, cell_views, copy_row, copy_rows, lemma_cell, lemma_row, row_views, Cell, CellView, Row, RowId, RowView,
};
use crate::module_error::{ModuleError, ModuleErrorView};
use crate::pools::{cells_with, set_cell};
use crate::text::{is_empty_text, same_text, texts};
use crate::value::{copy_value, copy_values, lemma_denoted, same_value, views, Value, ValueView};
use vstd::prelude::*;

verus! {

/// The instance an entry of a module collection names: the lone text its key is.
pub open spec fn instance_of(at: Seq<StepView>) -> Option<Seq<char>> {
    if at.len() > 0 && at.last().key.len() == 1 {
        match at.last().key[0] {
            ValueView::Text(t) => Some(t),
            _ => None,
        }
    } else {
        None
    }
}

/// Find the instance an entry names.
pub fn entry_instance(at: &RowAddress) -> (r: Option<&String>)
    ensures
        match r {
            Some(t) => instance_of(at@) == Some(t@),
            None => instance_of(at@) is None,
        },
{
    let steps = at.steps();
    let n: usize = steps.len();
    let step = &steps[n - 1];
    let components = step.key.components();
    proof {
        assert(at@.last() == step@);
        assert(views(components@) == step.key@);
    }
    if components.len() != 1 {
        return None;
    }
    proof {
        assert(step.key@[0] == components@[0]@);
    }
    match &components[0] {
        Value::Text(t) => Some(t),
        _ => None,
    }
}

/// Find the instance an entry names, which must not be empty.
pub fn require_instance_name(at: &RowAddress) -> (r: Result<&String, ModuleError>)
    ensures
        match (r, instance_of(at@)) {
            (Ok(t), Some(x)) => t@ == x && x.len() > 0,
            (Err(e), Some(x)) => e@ == ModuleErrorView::EmptyName && x.len() == 0,
            (Err(e), None) => e@ == ModuleErrorView::EmptyName,
            (Ok(_), None) => false,
        },
{
    match entry_instance(at) {
        Some(t) => if is_empty_text(t.as_str()) {
            Err(ModuleError::EmptyName)
        } else {
            Ok(t)
        },
        None => Err(ModuleError::EmptyName),
    }
}

/// The address of the entry of this name in a module collection.
pub fn entry(collection: &CollectionPath, name: &str) -> (r: RowAddress)
    ensures
        r@ == collection@.0.push(StepView { name: collection@.1, key: seq![ValueView::Text(name@)] }),
{
    collection.row(KeyValue::single(Value::Text(String::from_str(name))))
}

/// The address of the entry of another name in the same module collection.
pub fn sibling_named(at: &RowAddress, name: &str) -> (r: RowAddress)
    ensures
        r@ == at@.update(at@.len() - 1, StepView { key: seq![ValueView::Text(name@)], ..at@.last() }),
{
    let _depth: usize = at.depth();
    let r = entry(&at.collection(), name);
    proof {
        assert(r@ =~= at@.update(at@.len() - 1, StepView { key: seq![ValueView::Text(name@)], ..at@.last() }));
    }
    r
}

/// The key a row shows for a step: its lone component, or all of them together.
pub open spec fn shown_key(key: Seq<ValueView>) -> ValueView {
    if key.len() == 1 {
        key[0]
    } else {
        ValueView::Composite(key)
    }
}

/// Find the key a row shows for a step.
pub fn step_key_value(step: &AddressStep) -> (r: Value)
    ensures
        r@ == shown_key(step@.key),
{
    broadcast use lemma_denoted;

    let components = step.key.components();
    proof {
        assert(views(components@) == step.key@);
    }
    if components.len() == 1 {
        proof {
            assert(step.key@[0] == components@[0]@);
        }
        copy_value(&components[0])
    } else {
        Value::Composite(copy_values(components))
    }
}

/// A mounted instance: the entry it is mounted at, how that address is written, and
/// the rows each of its interfaces shows.
pub struct MountedEntry {
    pub at: RowAddress,
    pub rendered: String,
    pub interfaces: Vec<(String, Vec<Row>)>,
}

/// Whether an instance is an entry of the module collection a path declares, under
/// the rows with these keys.
pub open spec fn entry_at(at: Seq<StepView>, path: Seq<Seq<char>>, keys: Seq<ValueView>) -> bool {
    &&& at.len() == path.len()
    &&& at.len() == keys.len() + 1
    &&& forall|i: int| 0 <= i < at.len() ==> (#[trigger] at[i]).name == path[i]
    &&& forall|i: int| 0 <= i < keys.len() ==> shown_key((#[trigger] at[i]).key) == keys[i]
}

/// The name of the instance, or nothing.
pub open spec fn instance_or_none(at: Seq<StepView>) -> Seq<char> {
    match instance_of(at) {
        Some(t) => t,
        None => Seq::empty(),
    }
}

/// The cells the interfaces of an instance show.
pub open spec fn interface_cells(interfaces: Seq<(String, Vec<Row>)>) -> Seq<(Seq<char>, CellView)> {
    Seq::new(interfaces.len(), |i: int| (interfaces[i].0@, CellView::Collection(row_views(interfaces[i].1@))))
}

/// The row of a mounted instance: its name, its handle, and a cell for each interface.
pub open spec fn entry_shown(e: MountedEntry) -> RowView {
    let name = instance_or_none(e.at@);
    RowView {
        id: seq![seq![ValueView::Text(name)]],
        key: ValueView::Text(name),
        cells: seq![
            ("$key"@, CellView::Scalar(ValueView::Text(name))),
            ("$value"@, CellView::Scalar(ValueView::Mounted(e.rendered@))),
        ] + interface_cells(e.interfaces@),
    }
}

/// The rows of the module collection a path declares, under the rows with these keys.
pub open spec fn entries_shown(entries: Seq<MountedEntry>, path: Seq<Seq<char>>, keys: Seq<ValueView>) -> Seq<RowView>
    decreases entries.len(),
{
    if entries.len() == 0 {
        Seq::empty()
    } else {
        let before = entries_shown(entries.drop_last(), path, keys);
        if entry_at(entries.last().at@, path, keys) {
            before.push(entry_shown(entries.last()))
        } else {
            before
        }
    }
}

/// A row with one cell replaced or added.
pub open spec fn with_cell(row: RowView, name: Seq<char>, cell: CellView) -> RowView {
    RowView { cells: cells_with(row.cells, name, cell), ..row }
}

/// A row with the module collection a path declares folded in, from `depth` on; the
/// keys are those of the rows above.
pub open spec fn folded_row(
    entries: Seq<MountedEntry>,
    row: RowView,
    path: Seq<Seq<char>>,
    depth: nat,
    keys: Seq<ValueView>,
) -> RowView
    decreases path.len() - depth, 0int,
{
    if depth >= path.len() {
        row
    } else if depth + 1 == path.len() {
        with_cell(row, path[depth as int], CellView::Collection(entries_shown(entries, path, keys)))
    } else {
        match cell_named(row.cells, path[depth as int]) {
            Some(CellView::Collection(rows)) => with_cell(
                row,
                path[depth as int],
                CellView::Collection(folded_rows(entries, rows, path, depth + 1, keys)),
            ),
            _ => row,
        }
    }
}

/// Rows with the module collection folded in, each under its own key too.
pub open spec fn folded_rows(
    entries: Seq<MountedEntry>,
    rows: Seq<RowView>,
    path: Seq<Seq<char>>,
    depth: nat,
    keys: Seq<ValueView>,
) -> Seq<RowView>
    decreases path.len() - depth, 1int,
{
    Seq::new(rows.len(), |i: int| folded_row(entries, rows[i], path, depth, keys.push(rows[i].key)))
}

/// The root with the module collections of the first `n` paths folded in.
pub open spec fn folded(entries: Seq<MountedEntry>, root: RowView, paths: Seq<Vec<String>>, n: nat) -> RowView
    decreases n,
{
    if n == 0 {
        root
    } else {
        folded_row(
            entries,
            folded(entries, root, paths, (n - 1) as nat),
            texts(paths[n - 1]@),
            0,
            Seq::empty(),
        )
    }
}

fn entry_is_at(e: &MountedEntry, path: &Vec<String>, keys: &Vec<Value>) -> (r: bool)
    ensures
        r == entry_at(e.at@, texts(path@), views(keys@)),
{
    let steps = e.at.steps();
    let ghost at = e.at@;
    let ghost names = texts(path@);
    let ghost shown = views(keys@);
    proof {
        assert(names.len() == path@.len());
        assert(shown.len() == keys@.len());
    }
    if steps.len() != path.len() || steps.len() - 1 != keys.len() {
        return false;
    }
    let mut i: usize = 0;
    while i < steps.len()
        invariant
            at == step_seq(steps@),
            names == texts(path@),
            shown == views(keys@),
            steps@.len() == path@.len(),
            steps@.len() == keys@.len() + 1,
            i <= steps@.len(),
            forall|j: int| 0 <= j < i ==> (#[trigger] at[j]).name == names[j],
            forall|j: int| 0 <= j < i && j < keys@.len() ==> shown_key((#[trigger] at[j]).key) == shown[j],
            at == e.at@,
        decreases steps@.len() - i,
    {
        proof {
            assert(at[i as int] == steps@[i as int]@);
            assert(names[i as int] == path@[i as int]@);
        }
        if !same_text(steps[i].name.as_str(), path[i].as_str()) {
            return false;
        }
        if i < keys.len() {
            let key = step_key_value(&steps[i]);
            proof {
                assert(shown[i as int] == keys@[i as int]@);
            }
            if !same_value(&key, &keys[i]) {
                return false;
            }
        }
        i = i + 1;
    }
    true
}

/// What steps denote.
spec fn step_seq(steps: Seq<AddressStep>) -> Seq<StepView> {
    Seq::new(steps.len(), |i: int| steps[i]@)
}

fn entry_row(e: &MountedEntry) -> (r: Row)
    ensures
        r@ == entry_shown(*e),
{
    let name = match entry_instance(&e.at) {
        Some(t) => t.clone(),
        None => {
            proof {
                reveal_strlit("");
                assert(""@ =~= Seq::<char>::empty());
            }
            String::from_str("")
        },
    };
    let mut cells: Vec<(String, Cell)> = Vec::new();
    cells.push((String::from_str("$key"), Cell::Scalar(Value::Text(name.clone()))));
    cells.push((String::from_str("$value"), Cell::Scalar(Value::Mounted(e.rendered.clone()))));
    let ghost head = seq![
        ("$key"@, CellView::Scalar(ValueView::Text(name@))),
        ("$value"@, CellView::Scalar(ValueView::Mounted(e.rendered@))),
    ];
    let ghost more = interface_cells(e.interfaces@);
    let mut i: usize = 0;
    proof {
        assert(cell_views(cells@) =~= head + more.take(0));
    }
    while i < e.interfaces.len()
        invariant
            more == interface_cells(e.interfaces@),
            i <= e.interfaces@.len(),
            cell_views(cells@) == head + more.take(i as int),
        decreases e.interfaces@.len() - i,
    {
        let ghost done = cell_views(cells@);
        let cell = Cell::Collection(copy_rows(&e.interfaces[i].1));
        proof {
            lemma_cell(cell);
        }
        cells.push((e.interfaces[i].0.clone(), cell));
        proof {
            assert(cell_views(cells@) =~= done.push(more[i as int]));
            assert(more.take(i + 1) =~= more.take(i as int).push(more[i as int]));
            assert(head + more.take(i + 1) =~= (head + more.take(i as int)).push(more[i as int]));
        }
        i = i + 1;
    }
    let mut keys: Vec<KeyValue> = Vec::new();
    keys.push(KeyValue::single(Value::Text(name.clone())));
    let id = RowId { keys };
    proof {
        assert(id@ =~= seq![seq![ValueView::Text(name@)]]);
        assert(more.take(i as int) =~= more);
    }
    let r = Row { id, key: Value::Text(name), cells };
    proof {
        lemma_row(r);
    }
    r
}

/// Put a cell in a row.
pub(crate) fn put_cell(row: Row, name: &str, cell: Cell) -> (r: Row)
    ensures
        r@ == with_cell(row@, name@, cell@),
{
    proof {
        lemma_row(row);
    }
    let Row { id, key, cells } = row;
    let mut changed = cells;
    set_cell(&mut changed, name, cell);
    let r = Row { id, key, cells: changed };
    proof {
        lemma_row(r);
    }
    r
}

/// The mounted instances a read of the root sees.
pub struct MountedModules {
    pub entries: Vec<MountedEntry>,
}

impl MountedModules {
    /// Record a mounted instance.
    pub fn push(&mut self, at: RowAddress, rendered: String, interfaces: Vec<(String, Vec<Row>)>)
        ensures
            final(self).entries@ == old(self).entries@.push(MountedEntry { at, rendered, interfaces }),
    {
        self.entries.push(MountedEntry { at, rendered, interfaces });
    }

    fn entry_rows(&self, path: &Vec<String>, keys: &Vec<Value>) -> (r: Vec<Row>)
        ensures
            row_views(r@) == entries_shown(self.entries@, texts(path@), views(keys@)),
    {
        let ghost all = self.entries@;
        let mut r: Vec<Row> = Vec::new();
        let mut i: usize = 0;
        proof {
            assert(all.take(0) =~= Seq::empty());
            assert(row_views(r@) =~= Seq::empty());
        }
        while i < self.entries.len()
            invariant
                all == self.entries@,
                i <= self.entries@.len(),
                row_views(r@) == entries_shown(all.take(i as int), texts(path@), views(keys@)),
            decreases self.entries@.len() - i,
        {
            let ghost done = row_views(r@);
            proof {
                assert(all.take(i + 1).drop_last() =~= all.take(i as int));
                assert(all.take(i + 1).last() == all[i as int]);
            }
            if entry_is_at(&self.entries[i], path, keys) {
                let row = entry_row(&self.entries[i]);
                r.push(row);
                proof {
                    assert(row_views(r@) =~= done.push(row@));
                }
            }
            i = i + 1;
        }
        proof {
            assert(all.take(i as int) =~= all);
        }
        r
    }

    fn inject(&self, row: Row, path: &Vec<String>, depth: usize, keys: &Vec<Value>) -> (r: Row)
        requires
            depth <= path@.len(),
        ensures
            r@ == folded_row(self.entries@, row@, texts(path@), depth as nat, views(keys@)),
        decreases path@.len() - depth,
    {
        let ghost names = texts(path@);
        let levels: usize = path.len();
        if depth >= levels {
            return row;
        }
        proof {
            assert(names[depth as int] == path@[depth as int]@);
        }
        if depth == levels - 1 {
            let cell = Cell::Collection(self.entry_rows(path, keys));
            proof {
                lemma_cell(cell);
            }
            return put_cell(row, path[depth].as_str(), cell);
        }
        let injected = match row.cell(path[depth].as_str()) {
            Some(cell) => {
                proof {
                    lemma_cell(*cell);
                }
                match cell {
                    Cell::Collection(rows) => {
                        let ghost shown = row_views(rows@);
                        let ghost want = folded_rows(self.entries@, shown, names, (depth + 1) as nat, views(keys@));
                        let mut done: Vec<Row> = Vec::new();
                        let mut i: usize = 0;
                        while i < rows.len()
                            invariant
                                levels == path@.len(),
                                depth < levels,
                                names == texts(path@),
                                shown == row_views(rows@),
                                want == folded_rows(self.entries@, shown, names, (depth + 1) as nat, views(keys@)),
                                i <= rows@.len(),
                                done@.len() == i,
                                forall|j: int| 0 <= j < i ==> (#[trigger] done@[j])@ == want[j],
                            decreases rows@.len() - i,
                        {
                            let mut deeper = copy_values(keys);
                            let ghost above = views(keys@);
                            deeper.push(copy_value(&rows[i].key));
                            proof {
                                lemma_row(rows@[i as int]);
                                assert(shown[i as int] == rows@[i as int]@);
                                assert(views(deeper@) =~= above.push(shown[i as int].key));
                            }
                            let nested = copy_row(&rows[i]);
                            done.push(self.inject(nested, path, depth + 1, &deeper));
                            i = i + 1;
                        }
                        let collection = Cell::Collection(done);
                        proof {
                            assert(row_views(done@) =~= want);
                            lemma_cell(collection);
                        }
                        Some(collection)
                    },
                    _ => None,
                }
            },
            None => None,
        };
        match injected {
            Some(collection) => put_cell(row, path[depth].as_str(), collection),
            None => row,
        }
    }

    /// Fold the module collections of every path into the root row.
    pub fn fold_into(&self, root: Row, paths: &Vec<Vec<String>>) -> (r: Row)
        ensures
            r@ == folded(self.entries@, root@, paths@, paths@.len()),
    {
        let ghost start = root@;
        let mut row = root;
        let keys: Vec<Value> = Vec::new();
        let mut i: usize = 0;
        proof {
            assert(views(keys@) =~= Seq::empty());
        }
        while i < paths.len()
            invariant
                i <= paths@.len(),
                views(keys@) == Seq::<ValueView>::empty(),
                start == root@,
                row@ == folded(self.entries@, start, paths@, i as nat),
            decreases paths@.len() - i,
        {
            row = self.inject(row, &paths[i], 0, &keys);
            i = i + 1;
        }
        row
    }
}

/// An instance shows under one path and one row only: the collection names and the
/// containing keys of its address fix both.
pub proof fn law_entry_place(
    at: Seq<StepView>,
    path: Seq<Seq<char>>,
    keys: Seq<ValueView>,
    other_path: Seq<Seq<char>>,
    other_keys: Seq<ValueView>,
)
    requires
        entry_at(at, path, keys),
        entry_at(at, other_path, other_keys),
    ensures
        path == other_path,
        keys == other_keys,
{
    assert forall|i: int| 0 <= i < path.len() implies path[i] == other_path[i] by {
        assert(at[i].name == path[i]);
    }
    assert(path =~= other_path);
    assert forall|i: int| 0 <= i < keys.len() implies keys[i] == other_keys[i] by {
        assert(shown_key(at[i].key) == keys[i]);
    }
    assert(keys =~= other_keys);
}

} // verus!
