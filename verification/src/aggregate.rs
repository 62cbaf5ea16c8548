//! What every enabled instance exposes, gathered by space and folded into the rows a
//! read of the root sees.

use crate::address::KeyValue;
use crate::cell::{
    cell_named, cell_views, copy_row, copy_rows, lemma_cell, lemma_row, row_views, Cell, CellView, Row, RowId, RowView,
};
use crate::hosting::{child_views, ChildView, InterfaceRead, ModuleHost};
use crate::module_error::{ModuleError, ModuleErrorView};
use crate::mounting::{put_cell, with_cell};
use crate::order::Duplicate;
use crate::table::Table;
use crate::text::{concat, concat5, same_text, texts};
use crate::value::{Value, ValueView};
use vstd::prelude::*;

verus! {

/// An enabled instance, with the rows each of its interfaces shows.
pub struct AggregatedInstance {
    pub name: String,
    pub interfaces: Vec<(String, Vec<Row>)>,
}

/// What an [`AggregatedInstance`] denotes.
#[verifier::ext_equal]
pub struct InstanceView {
    pub name: Seq<char>,
    pub interfaces: Seq<(Seq<char>, Seq<RowView>)>,
}

/// What interfaces and their rows denote.
pub open spec fn interface_rows(interfaces: Seq<(String, Vec<Row>)>) -> Seq<(Seq<char>, Seq<RowView>)> {
    Seq::new(interfaces.len(), |i: int| (interfaces[i].0@, row_views(interfaces[i].1@)))
}

impl View for AggregatedInstance {
    type V = InstanceView;

    open spec fn view(&self) -> InstanceView {
        InstanceView { name: self.name@, interfaces: interface_rows(self.interfaces@) }
    }
}

/// Every enabled instance with the space it is in, in the order they were installed.
pub struct ModuleAggregate {
    pub instances: Vec<(String, AggregatedInstance)>,
}

/// What gathered instances denote.
pub open spec fn placed_views(instances: Seq<(String, AggregatedInstance)>) -> Seq<(Seq<char>, InstanceView)> {
    Seq::new(instances.len(), |i: int| (instances[i].0@, instances[i].1@))
}

impl View for ModuleAggregate {
    type V = Seq<(Seq<char>, InstanceView)>;

    open spec fn view(&self) -> Seq<(Seq<char>, InstanceView)> {
        placed_views(self.instances@)
    }
}

/// What the first `n` interfaces of an instance show; one without a view shows
/// nothing.
pub open spec fn shown_by(reads: Seq<(String, InterfaceRead)>, n: nat) -> Result<
    Seq<(Seq<char>, Seq<RowView>)>,
    ModuleErrorView,
>
    decreases n,
{
    if n == 0 {
        Ok(Seq::empty())
    } else {
        match shown_by(reads, (n - 1) as nat) {
            Err(e) => Err(e),
            Ok(done) => match reads[n - 1].1 {
                Err(e) => Err(ModuleErrorView::Engine(e@)),
                Ok(None) => Ok(done),
                Ok(Some(rows)) => Ok(done.push((reads[n - 1].0@, row_views(rows@)))),
            },
        }
    }
}

/// What the first `n` instances expose: a disabled one exposes nothing.
pub open spec fn gathered<E>(children: Seq<ChildView<E>>, reads: Seq<Vec<(String, InterfaceRead)>>, n: nat) -> Result<
    Seq<(Seq<char>, InstanceView)>,
    ModuleErrorView,
>
    decreases n,
{
    if n == 0 {
        Ok(Seq::empty())
    } else {
        let child = children[n - 1];
        match gathered(children, reads, (n - 1) as nat) {
            Err(e) => Err(e),
            Ok(done) => if !child.enabled {
                Ok(done)
            } else {
                match shown_by(reads[n - 1]@, reads[n - 1]@.len()) {
                    Err(e) => Err(e),
                    Ok(interfaces) => Ok(done.push((child.space, InstanceView { name: child.name, interfaces }))),
                }
            },
        }
    }
}

proof fn lemma_shown_failure(reads: Seq<(String, InterfaceRead)>, n: nat, m: nat)
    requires
        n <= m,
        shown_by(reads, n) is Err,
    ensures
        shown_by(reads, m) == shown_by(reads, n),
    decreases m,
{
    if n < m {
        lemma_shown_failure(reads, n, (m - 1) as nat);
    }
}

proof fn lemma_gathered_failure<E>(
    children: Seq<ChildView<E>>,
    reads: Seq<Vec<(String, InterfaceRead)>>,
    n: nat,
    m: nat,
)
    requires
        n <= m,
        gathered(children, reads, n) is Err,
    ensures
        gathered(children, reads, m) == gathered(children, reads, n),
    decreases m,
{
    if n < m {
        lemma_gathered_failure(children, reads, n, (m - 1) as nat);
    }
}

fn read_interfaces(reads: &Vec<(String, InterfaceRead)>) -> (r: Result<Vec<(String, Vec<Row>)>, ModuleError>)
    ensures
        match (r, shown_by(reads@, reads@.len())) {
            (Ok(v), Ok(x)) => interface_rows(v@) == x,
            (Err(e), Err(x)) => e@ == x,
            _ => false,
        },
{
    let n: usize = reads.len();
    let mut r: Vec<(String, Vec<Row>)> = Vec::new();
    let mut i: usize = 0;
    proof {
        assert(interface_rows(r@) =~= Seq::empty());
    }
    while i < n
        invariant
            n == reads@.len(),
            i <= n,
            shown_by(reads@, i as nat) == Ok::<Seq<(Seq<char>, Seq<RowView>)>, ModuleErrorView>(interface_rows(r@)),
        decreases n - i,
    {
        let ghost done = interface_rows(r@);
        match &reads[i].1 {
            Err(e) => {
                proof {
                    lemma_shown_failure(reads@, (i + 1) as nat, n as nat);
                }
                return Err(ModuleError::Engine(e.duplicate()));
            },
            Ok(None) => {},
            Ok(Some(rows)) => {
                r.push((reads[i].0.clone(), copy_rows(rows)));
                proof {
                    assert(interface_rows(r@) =~= done.push((reads@[i as int].0@, row_views(rows@))));
                }
            },
        }
        i = i + 1;
    }
    Ok(r)
}

impl<E> ModuleHost<E> {
    /// Gather what every enabled instance exposes, given what reading each of its
    /// interfaces came to.
    pub fn aggregate_snapshot(&self, reads: &Vec<Vec<(String, InterfaceRead)>>) -> (r: Result<ModuleAggregate, ModuleError>)
        requires
            reads@.len() == self@.children.len(),
        ensures
            match (r, gathered(self@.children, reads@, self@.children.len())) {
                (Ok(a), Ok(x)) => a@ == x,
                (Err(e), Err(x)) => e@ == x,
                _ => false,
            },
    {
        let ghost all = self@.children;
        let n: usize = self.children.len();
        let mut instances: Vec<(String, AggregatedInstance)> = Vec::new();
        let mut i: usize = 0;
        proof {
            assert(placed_views(instances@) =~= Seq::empty());
        }
        while i < n
            invariant
                n == self.children@.len(),
                all == self@.children,
                all == child_views(self.children@),
                reads@.len() == n,
                i <= n,
                gathered(all, reads@, i as nat) == Ok::<Seq<(Seq<char>, InstanceView)>, ModuleErrorView>(
                    placed_views(instances@),
                ),
            decreases n - i,
        {
            let child = &self.children[i];
            proof {
                assert(all[i as int] == child@);
            }
            if child.enabled {
                match read_interfaces(&reads[i]) {
                    Err(e) => {
                        proof {
                            lemma_gathered_failure(all, reads@, (i + 1) as nat, n as nat);
                        }
                        return Err(e);
                    },
                    Ok(interfaces) => {
                        let ghost done = placed_views(instances@);
                        let instance = AggregatedInstance { name: child.name.clone(), interfaces };
                        instances.push((String::from_str(child.space.as_str()), instance));
                        proof {
                            assert(placed_views(instances@) =~= done.push((child@.space, instance@)));
                        }
                    },
                }
            }
            i = i + 1;
        }
        Ok(ModuleAggregate { instances })
    }
}

/// The cells the interfaces of an instance show.
pub open spec fn exposed_cells(interfaces: Seq<(Seq<char>, Seq<RowView>)>) -> Seq<(Seq<char>, CellView)> {
    Seq::new(interfaces.len(), |i: int| (interfaces[i].0, CellView::Collection(interfaces[i].1)))
}

/// The row of an instance: keyed by its name, with a cell for each interface.
pub open spec fn instance_shown(i: InstanceView) -> RowView {
    RowView {
        id: seq![seq![ValueView::Text(i.name)]],
        key: ValueView::Text(i.name),
        cells: exposed_cells(i.interfaces),
    }
}

/// The rows of the instances in the space at a path.
pub open spec fn space_shown(instances: Seq<(Seq<char>, InstanceView)>, space: Seq<char>) -> Seq<RowView>
    decreases instances.len(),
{
    if instances.len() == 0 {
        Seq::empty()
    } else {
        let before = space_shown(instances.drop_last(), space);
        if instances.last().0 == space {
            before.push(instance_shown(instances.last().1))
        } else {
            before
        }
    }
}

/// A row of a collection with the space it contains folded in; a row whose key has no
/// text contains none.
pub open spec fn row_with_space(
    instances: Seq<(Seq<char>, InstanceView)>,
    row: RowView,
    collection: Seq<char>,
    member: Seq<char>,
    key_texts: Map<ValueView, Seq<char>>,
) -> RowView {
    if key_texts.contains_key(row.key) {
        with_cell(
            row,
            member,
            CellView::Collection(
                space_shown(instances, "/"@ + collection + "/"@ + key_texts[row.key] + ("/"@ + member)),
            ),
        )
    } else {
        row
    }
}

/// The root with the spaces a path declares folded in: one of the root, or one of each
/// row of a collection. A path through more collections is left as it is.
pub open spec fn space_folded(
    instances: Seq<(Seq<char>, InstanceView)>,
    root: RowView,
    path: Seq<Seq<char>>,
    key_texts: Map<ValueView, Seq<char>>,
) -> RowView {
    if path.len() == 1 {
        with_cell(root, path[0], CellView::Collection(space_shown(instances, "/"@ + path[0])))
    } else if path.len() == 2 {
        match cell_named(root.cells, path[0]) {
            Some(CellView::Collection(rows)) => with_cell(
                root,
                path[0],
                CellView::Collection(
                    Seq::new(
                        rows.len(),
                        |i: int| row_with_space(instances, rows[i], path[0], path[1], key_texts),
                    ),
                ),
            ),
            _ => root,
        }
    } else {
        root
    }
}

/// The root with the spaces of the first `n` paths folded in.
pub open spec fn spaces_folded(
    instances: Seq<(Seq<char>, InstanceView)>,
    root: RowView,
    paths: Seq<Vec<String>>,
    key_texts: Map<ValueView, Seq<char>>,
    n: nat,
) -> RowView
    decreases n,
{
    if n == 0 {
        root
    } else {
        space_folded(
            instances,
            spaces_folded(instances, root, paths, key_texts, (n - 1) as nat),
            texts(paths[n - 1]@),
            key_texts,
        )
    }
}

fn instance_row(instance: &AggregatedInstance) -> (r: Row)
    ensures
        r@ == instance_shown(instance@),
{
    let ghost want = exposed_cells(instance@.interfaces);
    let mut cells: Vec<(String, Cell)> = Vec::new();
    let mut i: usize = 0;
    while i < instance.interfaces.len()
        invariant
            want == exposed_cells(interface_rows(instance.interfaces@)),
            i <= instance.interfaces@.len(),
            cells@.len() == i,
            forall|j: int| 0 <= j < i ==> (#[trigger] cells@[j]).0@ == want[j].0 && cells@[j].1@ == want[j].1,
        decreases instance.interfaces@.len() - i,
    {
        let cell = Cell::Collection(copy_rows(&instance.interfaces[i].1));
        proof {
            lemma_cell(cell);
        }
        cells.push((instance.interfaces[i].0.clone(), cell));
        i = i + 1;
    }
    let mut keys: Vec<KeyValue> = Vec::new();
    keys.push(KeyValue::single(Value::Text(instance.name.clone())));
    let id = RowId { keys };
    proof {
        assert(id@ =~= seq![seq![ValueView::Text(instance.name@)]]);
        assert(cell_views(cells@) =~= want);
    }
    let r = Row { id, key: Value::Text(instance.name.clone()), cells };
    proof {
        lemma_row(r);
    }
    r
}

impl ModuleAggregate {
    fn space_cell(&self, space: &str) -> (r: Cell)
        ensures
            r@ == CellView::Collection(space_shown(self@, space@)),
    {
        let ghost all = self@;
        let mut rows: Vec<Row> = Vec::new();
        let mut i: usize = 0;
        proof {
            assert(all.take(0) =~= Seq::empty());
            assert(row_views(rows@) =~= Seq::empty());
        }
        while i < self.instances.len()
            invariant
                all == placed_views(self.instances@),
                i <= self.instances@.len(),
                row_views(rows@) == space_shown(all.take(i as int), space@),
            decreases self.instances@.len() - i,
        {
            let ghost done = row_views(rows@);
            proof {
                assert(all.take(i + 1).drop_last() =~= all.take(i as int));
                assert(all.take(i + 1).last() == all[i as int]);
            }
            if same_text(self.instances[i].0.as_str(), space) {
                let row = instance_row(&self.instances[i].1);
                rows.push(row);
                proof {
                    assert(row_views(rows@) =~= done.push(row@));
                }
            }
            i = i + 1;
        }
        let r = Cell::Collection(rows);
        proof {
            assert(all.take(i as int) =~= all);
            lemma_cell(r);
        }
        r
    }

    fn inject_row(&self, row: Row, collection: &str, member: &str, key_texts: &Table<Value, String>) -> (r: Row)
        ensures
            r@ == row_with_space(self@, row@, collection@, member@, key_texts@),
    {
        proof {
            lemma_row(row);
        }
        let place = match key_texts.get(&row.key) {
            None => {
                return row;
            },
            Some(key) => {
                let tail = concat("/", member);
                concat5("/", collection, "/", key.as_str(), tail.as_str())
            },
        };
        let cell = self.space_cell(place.as_str());
        put_cell(row, member, cell)
    }

    fn inject_space(&self, root: Row, path: &Vec<String>, key_texts: &Table<Value, String>) -> (r: Row)
        ensures
            r@ == space_folded(self@, root@, texts(path@), key_texts@),
    {
        let ghost names = texts(path@);
        proof {
            assert(names.len() == path@.len());
        }
        if path.len() == 1 {
            let place = concat("/", path[0].as_str());
            let cell = self.space_cell(place.as_str());
            return put_cell(root, path[0].as_str(), cell);
        }
        if path.len() != 2 {
            return root;
        }
        let injected = match root.cell(path[0].as_str()) {
            Some(cell) => {
                proof {
                    lemma_cell(*cell);
                }
                match cell {
                    Cell::Collection(rows) => {
                        let ghost shown = row_views(rows@);
                        let ghost want = Seq::new(
                            shown.len(),
                            |i: int| row_with_space(self@, shown[i], names[0], names[1], key_texts@),
                        );
                        let mut done: Vec<Row> = Vec::new();
                        let mut i: usize = 0;
                        while i < rows.len()
                            invariant
                                path@.len() == 2,
                                names == texts(path@),
                                shown == row_views(rows@),
                                want == Seq::new(
                                    shown.len(),
                                    |i: int| row_with_space(self@, shown[i], names[0], names[1], key_texts@),
                                ),
                                i <= rows@.len(),
                                done@.len() == i,
                                forall|j: int| 0 <= j < i ==> (#[trigger] done@[j])@ == want[j],
                            decreases rows@.len() - i,
                        {
                            let nested = copy_row(&rows[i]);
                            done.push(self.inject_row(nested, path[0].as_str(), path[1].as_str(), key_texts));
                            i = i + 1;
                        }
                        let collection = Cell::Collection(done);
                        proof {
                            assert(row_views(done@) =~= want);
                            lemma_cell(collection);
                        }
                        Some(collection)
                    },
                    _ => None,
                }
            },
            None => None,
        };
        match injected {
            Some(collection) => put_cell(root, path[0].as_str(), collection),
            None => root,
        }
    }

    /// Fold what is gathered into the root row, at every declared path, given the text
    /// of each row key that has one.
    pub fn fold_into(&self, root: Row, paths: &Vec<Vec<String>>, key_texts: &Table<Value, String>) -> (r: Row)
        ensures
            r@ == spaces_folded(self@, root@, paths@, key_texts@, paths@.len()),
    {
        let ghost start = root@;
        let mut row = root;
        let mut i: usize = 0;
        while i < paths.len()
            invariant
                i <= paths@.len(),
                start == root@,
                row@ == spaces_folded(self@, start, paths@, key_texts@, i as nat),
            decreases paths@.len() - i,
        {
            row = self.inject_space(row, &paths[i], key_texts);
            i = i + 1;
        }
        row
    }
}

/// Every gathered instance is an enabled one, in its own space under its own name.
pub proof fn law_only_enabled<E>(
    children: Seq<ChildView<E>>,
    reads: Seq<Vec<(String, InterfaceRead)>>,
    n: nat,
    j: int,
)
    requires
        n <= children.len(),
        gathered(children, reads, n) is Ok,
        0 <= j < gathered(children, reads, n)->Ok_0.len(),
    ensures
        exists|i: int|
            0 <= i < n && (#[trigger] children[i]).enabled && gathered(children, reads, n)->Ok_0[j].0
                == children[i].space && gathered(children, reads, n)->Ok_0[j].1.name == children[i].name,
    decreases n,
{
    if n > 0 {
        let before = gathered(children, reads, (n - 1) as nat)->Ok_0;
        if j < before.len() {
            law_only_enabled(children, reads, (n - 1) as nat, j);
            let i = choose|i: int|
                0 <= i < n - 1 && (#[trigger] children[i]).enabled && before[j].0 == children[i].space
                    && before[j].1.name == children[i].name;
            assert(children[i].enabled);
        } else {
            assert(children[n - 1].enabled);
        }
    }
}

} // verus!
