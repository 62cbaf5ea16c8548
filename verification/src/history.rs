//! Merging two continuations of one history point.

use crate::address::{RowAddress, StepView};
use crate::interp::identity_at;
use crate::model::{name_view, Compiled};
use crate::order::{Duplicate, Key};
use crate::refs::key_identity;
use crate::state::{same_fields, Fields, FieldsView, StateView};
use crate::table::{ascending, lemma_sorted, lemma_sorted_exists, sorted, Table};
use crate::text::same_text;
use crate::value::{copy_value, same_value, Value, ValueView};
use vstd::prelude::*;

verus! {

/// How an incoming artifact relates to local retained history.
#[derive(Debug, Clone, Copy, PartialEq, Eq, Structural)]
pub enum ImportRelation {
    /// The incoming point is the local point.
    SamePoint,
    /// The local point precedes the incoming point.
    FastForward,
    /// The incoming point precedes the local point.
    Rollback,
    /// A shared point is followed by divergence.
    Merge,
    /// No shared point is known.
    Unrelated,
}

/// What an import came to.
#[derive(Debug, Clone, Copy, PartialEq, Eq, Structural)]
pub struct ImportReport {
    pub relation: ImportRelation,
    /// Whether the movement was made.
    pub applied: bool,
}

/// Whether a relation is a movement to another point of one history.
pub open spec fn is_movement(relation: ImportRelation) -> bool {
    relation == ImportRelation::FastForward || relation == ImportRelation::Rollback
}

/// Decide an import under a policy: only a movement the policy permits is made.
pub fn import_decision(relation: ImportRelation, policy: &Vec<ImportRelation>) -> (r: ImportReport)
    ensures
        r.relation == relation,
        r.applied == (is_movement(relation) && policy@.contains(relation)),
{
    let movement = relation == ImportRelation::FastForward || relation == ImportRelation::Rollback;
    let mut permitted = false;
    let mut i: usize = 0;
    while i < policy.len()
        invariant
            i <= policy@.len(),
            permitted ==> policy@.contains(relation),
            !permitted ==> forall|j: int| 0 <= j < i ==> #[trigger] policy@[j] != relation,
        decreases policy@.len() - i,
    {
        if policy[i] == relation {
            permitted = true;
        }
        i = i + 1;
    }
    ImportReport { relation, applied: movement && permitted }
}

/// Why a coordinate could not be merged.
#[derive(Debug, Clone, Copy, PartialEq, Eq, Structural)]
pub enum ConflictKind {
    /// Both sides changed one field to different values.
    IncompatibleValue,
    /// One side deleted a row that the other modified.
    DeleteVsModify,
    /// Both sides inserted a different row at one new key.
    CompetingInsert,
}

/// The name of the collection that holds the root members.
pub const ROOT_NAME: &'static str = "$root";

/// Where a conflict is.
#[derive(Debug)]
pub enum ConflictCoordinate {
    /// In a keyed collection: the row's identity, and the field for a conflict about
    /// one field.
    Row { collection: String, key: Value, field: Option<String> },
    /// On a root member, or on the root members as a whole.
    RootSingleton { member: Option<String> },
}

/// What a [`ConflictCoordinate`] denotes.
#[verifier::ext_equal]
pub enum CoordinateView {
    Row { collection: Seq<char>, key: ValueView, field: Option<Seq<char>> },
    RootSingleton { member: Option<Seq<char>> },
}

impl View for ConflictCoordinate {
    type V = CoordinateView;

    open spec fn view(&self) -> CoordinateView {
        match self {
            ConflictCoordinate::Row { collection, key, field } => CoordinateView::Row {
                collection: collection@,
                key: key@,
                field: name_view(*field),
            },
            ConflictCoordinate::RootSingleton { member } => CoordinateView::RootSingleton {
                member: name_view(*member),
            },
        }
    }
}

/// One reported conflict.
#[derive(Debug)]
pub struct MergeConflict {
    pub coordinate: ConflictCoordinate,
    pub kind: ConflictKind,
}

/// What a [`MergeConflict`] denotes.
#[verifier::ext_equal]
pub struct ConflictView {
    pub coordinate: CoordinateView,
    pub kind: ConflictKind,
}

impl View for MergeConflict {
    type V = ConflictView;

    open spec fn view(&self) -> ConflictView {
        ConflictView { coordinate: self.coordinate@, kind: self.kind }
    }
}

/// What conflicts denote.
pub open spec fn conflict_views(conflicts: Seq<MergeConflict>) -> Seq<ConflictView> {
    Seq::new(conflicts.len(), |i: int| conflicts[i]@)
}

/// The result of a merge: the rows that were merged, and the conflicts.
pub struct MergeOutcome {
    pub merged: Table<RowAddress, Fields>,
    pub conflicts: Vec<MergeConflict>,
}

/// What a [`MergeOutcome`] denotes.
#[verifier::ext_equal]
pub struct OutcomeView {
    pub merged: StateView,
    pub conflicts: Seq<ConflictView>,
}

impl View for MergeOutcome {
    type V = OutcomeView;

    open spec fn view(&self) -> OutcomeView {
        OutcomeView { merged: self.merged@, conflicts: conflict_views(self.conflicts@) }
    }
}

impl MergeOutcome {
    /// Whether the merge can be activated as it is: it has no conflicts.
    pub fn is_clean(&self) -> (r: bool)
        ensures
            r == (self@.conflicts.len() == 0),
    {
        self.conflicts.len() == 0
    }
}

/// A value merged from its base and two sides: a change on one side wins, equal
/// results agree, and different changes conflict.
pub open spec fn field_merged(
    base: Option<ValueView>,
    local: Option<ValueView>,
    incoming: Option<ValueView>,
) -> Result<Option<ValueView>, ()> {
    if local == incoming {
        Ok(local)
    } else if local == base {
        Ok(incoming)
    } else if incoming == base {
        Ok(local)
    } else {
        Err(())
    }
}

/// What a row has under a name.
pub open spec fn under(row: FieldsView, name: Seq<char>) -> Option<ValueView> {
    if row.contains_key(name) {
        Some(row[name])
    } else {
        None
    }
}

/// The row a state has at an address.
pub open spec fn row_at(state: StateView, address: Seq<StepView>) -> Option<FieldsView> {
    if state.contains_key(address) {
        Some(state[address])
    } else {
        None
    }
}

/// The names any of three rows has.
pub open spec fn names_in(base: FieldsView, local: FieldsView, incoming: FieldsView) -> Set<Seq<char>> {
    base.dom().union(local.dom()).union(incoming.dom())
}

/// The fields in which two sides of a row conflict.
pub open spec fn clashes(base: FieldsView, local: FieldsView, incoming: FieldsView) -> Set<Seq<char>> {
    names_in(base, local, incoming).filter(
        |n: Seq<char>| field_merged(under(base, n), under(local, n), under(incoming, n)) is Err,
    )
}

/// Two sides of a row merged field by field.
pub open spec fn fields_merged(base: FieldsView, local: FieldsView, incoming: FieldsView) -> FieldsView {
    Map::new(
        |n: Seq<char>|
            names_in(base, local, incoming).contains(n) && (field_merged(
                under(base, n),
                under(local, n),
                under(incoming, n),
            ) matches Ok(v) && v is Some),
        |n: Seq<char>| field_merged(under(base, n), under(local, n), under(incoming, n))->Ok_0->0,
    )
}

/// What becomes of a row.
#[verifier::ext_equal]
pub enum RowMerge {
    /// It is in the result.
    Kept(FieldsView),
    /// It is not in the result.
    Dropped,
    /// The two sides conflict about the row as a whole.
    Refused(ConflictKind),
    /// The two sides conflict in these fields.
    Clashed(Set<Seq<char>>),
}

/// A row merged from its base and two sides.
pub open spec fn row_merged(
    base: Option<FieldsView>,
    local: Option<FieldsView>,
    incoming: Option<FieldsView>,
) -> RowMerge {
    match (base, local, incoming) {
        (None, None, None) => RowMerge::Dropped,
        (None, Some(l), None) => RowMerge::Kept(l),
        (None, None, Some(i)) => RowMerge::Kept(i),
        (None, Some(l), Some(i)) => if l == i {
            RowMerge::Kept(l)
        } else {
            RowMerge::Refused(ConflictKind::CompetingInsert)
        },
        (Some(b), None, None) => RowMerge::Dropped,
        (Some(b), Some(l), None) => if l == b {
            RowMerge::Dropped
        } else {
            RowMerge::Refused(ConflictKind::DeleteVsModify)
        },
        (Some(b), None, Some(i)) => if i == b {
            RowMerge::Dropped
        } else {
            RowMerge::Refused(ConflictKind::DeleteVsModify)
        },
        (Some(b), Some(l), Some(i)) => if l == i {
            RowMerge::Kept(l)
        } else if clashes(b, l, i) == Set::<Seq<char>>::empty() {
            RowMerge::Kept(fields_merged(b, l, i))
        } else {
            RowMerge::Clashed(clashes(b, l, i))
        },
    }
}

/// Where a conflict about a row, or about one of its fields, is.
pub open spec fn coordinate_of(compiled: Compiled, address: Seq<StepView>, field: Option<Seq<char>>) -> CoordinateView {
    let name = address.last().name;
    if name == ROOT_NAME@ {
        CoordinateView::RootSingleton { member: field }
    } else {
        CoordinateView::Row { collection: name, key: identity_at(compiled, name, address), field }
    }
}

/// The conflicts about one row, in order.
pub open spec fn row_conflicts(compiled: Compiled, address: Seq<StepView>, merge: RowMerge) -> Seq<ConflictView> {
    match merge {
        RowMerge::Refused(kind) => seq![ConflictView { coordinate: coordinate_of(compiled, address, None), kind }],
        RowMerge::Clashed(names) => Seq::new(
            sorted::<String>(names).len(),
            |i: int|
                ConflictView {
                    coordinate: coordinate_of(compiled, address, Some(sorted::<String>(names)[i])),
                    kind: ConflictKind::IncompatibleValue,
                },
        ),
        _ => Seq::empty(),
    }
}

/// The row at an address merged from its base and two sides.
pub open spec fn merge_at(base: StateView, local: StateView, incoming: StateView, address: Seq<StepView>) -> RowMerge {
    row_merged(row_at(base, address), row_at(local, address), row_at(incoming, address))
}

/// The conflicts about rows at these addresses, in order.
pub open spec fn conflicts_along(
    compiled: Compiled,
    base: StateView,
    local: StateView,
    incoming: StateView,
    addresses: Seq<Seq<StepView>>,
) -> Seq<ConflictView>
    decreases addresses.len(),
{
    if addresses.len() == 0 {
        Seq::empty()
    } else {
        conflicts_along(compiled, base, local, incoming, addresses.drop_last()) + row_conflicts(
            compiled,
            addresses.last(),
            merge_at(base, local, incoming, addresses.last()),
        )
    }
}

/// Every address any of three states has.
pub open spec fn addresses_in(base: StateView, local: StateView, incoming: StateView) -> Set<Seq<StepView>> {
    base.dom().union(local.dom()).union(incoming.dom())
}

/// Two continuations of one base merged: each row by itself, with the conflicts in
/// ascending order of address.
pub open spec fn merged(compiled: Compiled, base: StateView, local: StateView, incoming: StateView) -> OutcomeView {
    OutcomeView {
        merged: Map::new(
            |a: Seq<StepView>|
                addresses_in(base, local, incoming).contains(a) && merge_at(base, local, incoming, a) is Kept,
            |a: Seq<StepView>| merge_at(base, local, incoming, a)->Kept_0,
        ),
        conflicts: conflicts_along(
            compiled,
            base,
            local,
            incoming,
            sorted::<RowAddress>(addresses_in(base, local, incoming)),
        ),
    }
}

/// Three states of one instance: a shared point, and two continuations of it.
pub struct ThreeWayMerge<'a> {
    pub compiled: &'a Compiled,
    pub base: Table<RowAddress, Fields>,
    pub local: Table<RowAddress, Fields>,
    pub incoming: Table<RowAddress, Fields>,
}

fn same_optional(a: Option<&Value>, b: Option<&Value>) -> (r: bool)
    ensures
        r == (value_view(a) == value_view(b)),
{
    match (a, b) {
        (Some(x), Some(y)) => same_value(x, y),
        (None, None) => true,
        _ => false,
    }
}

/// What an optional value denotes.
pub open spec fn value_view(v: Option<&Value>) -> Option<ValueView> {
    match v {
        Some(x) => Some(x@),
        None => None,
    }
}

fn copy_optional(v: Option<&Value>) -> (r: Option<Value>)
    ensures
        match (r, v) {
            (Some(x), Some(y)) => x@ == y@,
            (None, None) => true,
            _ => false,
        },
{
    match v {
        Some(x) => Some(copy_value(x)),
        None => None,
    }
}

/// Merge one value from its base and two sides.
pub fn merge_field(base: Option<&Value>, local: Option<&Value>, incoming: Option<&Value>) -> (r: Result<Option<Value>, ()>)
    ensures
        match (r, field_merged(value_view(base), value_view(local), value_view(incoming))) {
            (Ok(Some(v)), Ok(Some(x))) => v@ == x,
            (Ok(None), Ok(None)) => true,
            (Err(_), Err(_)) => true,
            _ => false,
        },
{
    if same_optional(local, incoming) {
        return Ok(copy_optional(local));
    }
    if same_optional(local, base) {
        return Ok(copy_optional(incoming));
    }
    if same_optional(incoming, base) {
        return Ok(copy_optional(local));
    }
    Err(())
}

/// Add the keys of a table to a set of keys.
fn add_keys<K: Key + Duplicate, T: View>(set: &mut Table<K, bool>, from: &Table<K, T>)
    ensures
        final(set)@.dom() == old(set)@.dom().union(from@.dom()),
{
    let n: usize = from.len();
    let ghost keys = from.keys();
    let ghost start = set@.dom();
    let mut i: usize = 0;
    proof {
        assert(start.union(keys.take(0).to_set()) =~= start);
    }
    while i < n
        invariant
            n == keys.len(),
            keys == from.keys(),
            i <= n,
            set@.dom() == start.union(keys.take(i as int).to_set()),
        decreases n - i,
    {
        set.insert(from.key_at(i).duplicate(), true);
        proof {
            let t = keys.take(i as int);
            let u = keys.take(i + 1);
            assert(u =~= t.push(keys[i as int]));
            assert forall|k: K::V| u.to_set().contains(k) <==> t.to_set().insert(keys[i as int]).contains(k) by {
                if t.contains(k) {
                    let q = choose|q: int| 0 <= q < t.len() && t[q] == k;
                    assert(u[q] == k);
                }
                if u.contains(k) && k != keys[i as int] {
                    let q = choose|q: int| 0 <= q < u.len() && u[q] == k;
                    assert(t[q] == k);
                }
                assert(u[i as int] == keys[i as int]);
            }
            assert(set@.dom() =~= start.union(u.to_set()));
        }
        i = i + 1;
    }
    proof {
        assert(keys.take(i as int) =~= keys);
    }
}

impl<'a> ThreeWayMerge<'a> {
    /// Where a conflict about a row, or about one of its fields, is.
    fn coordinate(&self, address: &RowAddress, field: Option<String>) -> (r: ConflictCoordinate)
        ensures
            r@ == coordinate_of(*self.compiled, address@, name_view(field)),
    {
        let steps = address.steps();
        let last = &steps[steps.len() - 1];
        proof {
            assert(address@.last() == last@);
        }
        if same_text(last.name.as_str(), ROOT_NAME) {
            return ConflictCoordinate::RootSingleton { member: field };
        }
        let key = match self.compiled.collection(last.name.as_str()) {
            Some(c) => key_identity(&c.key, &last.key),
            None => copy_value(&last.key.components()[0]),
        };
        ConflictCoordinate::Row { collection: last.name.clone(), key, field }
    }

    /// Merge a row that its base and both sides have, field by field.
    fn merge_fields(
        &self,
        address: &RowAddress,
        base: &Fields,
        local: &Fields,
        incoming: &Fields,
        merged: &mut Table<RowAddress, Fields>,
        conflicts: &mut Vec<MergeConflict>,
    )
        requires
            local@ != incoming@,
        ensures
            ({
                let outcome = row_merged(Some(base@), Some(local@), Some(incoming@));
                &&& final(merged)@ == (match outcome {
                    RowMerge::Kept(row) => old(merged)@.insert(address@, row),
                    _ => old(merged)@,
                })
                &&& conflict_views(final(conflicts)@) == conflict_views(old(conflicts)@) + row_conflicts(
                    *self.compiled,
                    address@,
                    outcome,
                )
            }),
    {
        let mut set: Table<String, bool> = Table::new();
        add_keys(&mut set, base);
        add_keys(&mut set, local);
        add_keys(&mut set, incoming);
        let n: usize = set.len();
        let ghost names = set.keys();
        let ghost b = base@;
        let ghost l = local@;
        let ghost x = incoming@;
        let ghost before = conflict_views(conflicts@);
        let ghost test = |n: Seq<char>| field_merged(under(b, n), under(l, n), under(x, n)) is Err;
        proof {
            assert(set@.dom() =~= names_in(b, l, x));
        }
        let mut row: Fields = Table::new();
        let mut clashed: Vec<String> = Vec::new();
        let ghost mut from: Seq<int> = Seq::empty();
        let mut i: usize = 0;
        while i < n
            invariant
                n == names.len(),
                names == set.keys(),
                ascending::<String>(names),
                names.to_set() == names_in(b, l, x),
                b == base@,
                l == local@,
                x == incoming@,
                i <= n,
                conflict_views(conflicts@) == before + Seq::new(
                    clashed@.len(),
                    |j: int|
                        ConflictView {
                            coordinate: coordinate_of(*self.compiled, address@, Some(clashed@[j]@)),
                            kind: ConflictKind::IncompatibleValue,
                        },
                ),
                test == (|n: Seq<char>| field_merged(under(b, n), under(l, n), under(x, n)) is Err),
                from.len() == clashed@.len(),
                forall|j: int|
                    0 <= j < clashed@.len() ==> 0 <= #[trigger] from[j] < i && clashed@[j]@ == names[from[j]] && test(
                        names[from[j]],
                    ),
                forall|j: int, k: int| 0 <= j < k < clashed@.len() ==> #[trigger] from[j] < #[trigger] from[k],
                forall|k: int| 0 <= k < i && test(#[trigger] names[k]) ==> from.contains(k),
                forall|q: Seq<char>| #[trigger]
                    row@.contains_key(q) <==> names.take(i as int).contains(q) && fields_merged(b, l, x).contains_key(q),
                forall|q: Seq<char>| #[trigger] row@.contains_key(q) ==> row@[q] == fields_merged(b, l, x)[q],
            decreases n - i,
        {
            let name = set.key_at(i);
            let ghost nm = names[i as int];
            let ghost prior = from;
            let ghost row0 = row@;
            let ghost views0 = conflict_views(conflicts@);
            let ghost clashed0 = clashed@;
            proof {
                assert(names.contains(nm));
                assert(names_in(b, l, x).contains(nm));
            }
            match merge_field(base.get(name), local.get(name), incoming.get(name)) {
                Ok(Some(value)) => {
                    row.insert(name.clone(), value);
                },
                Ok(None) => {},
                Err(_) => {
                    clashed.push(name.clone());
                    conflicts.push(
                        MergeConflict {
                            coordinate: self.coordinate(address, Some(name.clone())),
                            kind: ConflictKind::IncompatibleValue,
                        },
                    );
                    proof {
                        from = from.push(i as int);
                        assert(from[prior.len() as int] == i);
                        let c = ConflictView {
                            coordinate: coordinate_of(*self.compiled, address@, Some(nm)),
                            kind: ConflictKind::IncompatibleValue,
                        };
                        assert(conflict_views(conflicts@) =~= views0.push(c));
                        assert(conflict_views(conflicts@) =~= before + Seq::new(
                            clashed@.len(),
                            |j: int|
                                ConflictView {
                                    coordinate: coordinate_of(*self.compiled, address@, Some(clashed@[j]@)),
                                    kind: ConflictKind::IncompatibleValue,
                                },
                        ));
                        assert forall|k: int| 0 <= k < i + 1 && test(#[trigger] names[k]) implies from.contains(k) by {
                            if k < i {
                                assert(prior.contains(k));
                                let q = choose|q: int| 0 <= q < prior.len() && prior[q] == k;
                                assert(from[q] == k);
                            }
                        }
                    }
                },
            }
            proof {
                let t = names.take(i as int);
                let u = names.take(i + 1);
                assert(u =~= t.push(nm));
                assert forall|q: Seq<char>| u.contains(q) <==> t.contains(q) || q == nm by {
                    if t.contains(q) {
                        let p = choose|p: int| 0 <= p < t.len() && t[p] == q;
                        assert(u[p] == q);
                    }
                    if u.contains(q) && q != nm {
                        let p = choose|p: int| 0 <= p < u.len() && u[p] == q;
                        assert(t[p] == q);
                    }
                    assert(u[i as int] == nm);
                }
                assert forall|q: Seq<char>| #[trigger] row@.contains_key(q) <==> u.contains(q) && fields_merged(
                    b,
                    l,
                    x,
                ).contains_key(q) by {
                    assert(row0.contains_key(q) <==> t.contains(q) && fields_merged(b, l, x).contains_key(q));
                }
            }
            i = i + 1;
        }
        proof {
            assert(names.take(i as int) =~= names);
            let keys = Seq::new(clashed@.len(), |j: int| clashed@[j]@);
            let all = clashes(b, l, x);
            assert forall|j: int, k: int| 0 <= j < k < keys.len() implies String::before(
                #[trigger] keys[j],
                #[trigger] keys[k],
            ) by {
                assert(names[from[j]] == keys[j] && names[from[k]] == keys[k]);
            }
            assert forall|q: Seq<char>| keys.to_set().contains(q) <==> all.contains(q) by {
                if keys.contains(q) {
                    let j = choose|j: int| 0 <= j < keys.len() && keys[j] == q;
                    assert(names[from[j]] == q);
                    assert(names.contains(q));
                    assert(names.to_set().contains(q));
                }
                if all.contains(q) {
                    assert(names.to_set().contains(q));
                    let k = choose|k: int| 0 <= k < names.len() && names[k] == q;
                    assert(from.contains(k));
                    let j = choose|j: int| 0 <= j < from.len() && from[j] == k;
                    assert(keys[j] == q);
                }
            }
            assert(keys.to_set() =~= all);
            lemma_sorted::<String>(keys, all);
            if clashed@.len() == 0 {
                assert(all =~= Set::<Seq<char>>::empty());
                assert forall|q: Seq<char>| row@.contains_key(q) <==> fields_merged(b, l, x).contains_key(q) by {
                    if fields_merged(b, l, x).contains_key(q) {
                        assert(names.to_set().contains(q));
                    }
                }
                assert(row@ =~= fields_merged(b, l, x));
                assert(conflict_views(conflicts@) =~= before);
                assert(before + Seq::<ConflictView>::empty() =~= before);
            } else {
                assert(keys[0] == clashed@[0]@);
                assert(keys.contains(keys[0]));
                assert(all.contains(keys[0]));
                assert(conflict_views(conflicts@) =~= before + row_conflicts(
                    *self.compiled,
                    address@,
                    RowMerge::Clashed(all),
                ));
            }
        }
        if clashed.len() == 0 {
            merged.insert(address.duplicate(), row);
        }
    }

    /// Merge the row at one address.
    fn resolve_row(
        &self,
        address: &RowAddress,
        merged: &mut Table<RowAddress, Fields>,
        conflicts: &mut Vec<MergeConflict>,
    )
        ensures
            ({
                let outcome = merge_at(self.base@, self.local@, self.incoming@, address@);
                &&& final(merged)@ == (match outcome {
                    RowMerge::Kept(row) => old(merged)@.insert(address@, row),
                    _ => old(merged)@,
                })
                &&& conflict_views(final(conflicts)@) == conflict_views(old(conflicts)@) + row_conflicts(
                    *self.compiled,
                    address@,
                    outcome,
                )
            }),
    {
        let base = self.base.get(address);
        let local = self.local.get(address);
        let incoming = self.incoming.get(address);
        let ghost before = conflict_views(conflicts@);
        proof {
            assert(before + Seq::<ConflictView>::empty() =~= before);
        }
        if let (Some(l), Some(i)) = (local, incoming) {
            if same_fields(l, i) {
                merged.insert(address.duplicate(), l.duplicate());
                return;
            }
        }
        let refused: Option<ConflictKind> = match (base, local, incoming) {
            (None, Some(_), Some(_)) => Some(ConflictKind::CompetingInsert),
            (None, Some(l), None) => {
                merged.insert(address.duplicate(), l.duplicate());
                None
            },
            (None, None, Some(i)) => {
                merged.insert(address.duplicate(), i.duplicate());
                None
            },
            (Some(b), Some(l), None) => if same_fields(l, b) {
                None
            } else {
                Some(ConflictKind::DeleteVsModify)
            },
            (Some(b), None, Some(i)) => if same_fields(i, b) {
                None
            } else {
                Some(ConflictKind::DeleteVsModify)
            },
            (Some(b), Some(l), Some(i)) => {
                self.merge_fields(address, b, l, i, merged, conflicts);
                return;
            },
            (_, None, None) => None,
        };
        if let Some(kind) = refused {
            conflicts.push(MergeConflict { coordinate: self.coordinate(address, None), kind });
            proof {
                assert(conflict_views(conflicts@) =~= before + seq![
                    ConflictView { coordinate: coordinate_of(*self.compiled, address@, None), kind },
                ]);
            }
        }
    }

    /// Merge the two continuations, row by row.
    pub fn resolve(self) -> (r: MergeOutcome)
        ensures
            r@ == merged(*self.compiled, self.base@, self.local@, self.incoming@),
    {
        let mut set: Table<RowAddress, bool> = Table::new();
        add_keys(&mut set, &self.base);
        add_keys(&mut set, &self.local);
        add_keys(&mut set, &self.incoming);
        let n: usize = set.len();
        let ghost all = set.keys();
        let ghost goal = merged(*self.compiled, self.base@, self.local@, self.incoming@);
        proof {
            assert(set@.dom() =~= addresses_in(self.base@, self.local@, self.incoming@));
        }
        let mut rows: Table<RowAddress, Fields> = Table::new();
        let mut conflicts: Vec<MergeConflict> = Vec::new();
        let mut i: usize = 0;
        proof {
            assert(all.take(0) =~= Seq::<Seq<StepView>>::empty());
            assert(conflict_views(conflicts@) =~= Seq::<ConflictView>::empty());
        }
        while i < n
            invariant
                n == all.len(),
                all == set.keys(),
                ascending::<RowAddress>(all),
                all.to_set() == addresses_in(self.base@, self.local@, self.incoming@),
                goal == merged(*self.compiled, self.base@, self.local@, self.incoming@),
                i <= n,
                conflict_views(conflicts@) == conflicts_along(
                    *self.compiled,
                    self.base@,
                    self.local@,
                    self.incoming@,
                    all.take(i as int),
                ),
                forall|a: Seq<StepView>| #[trigger]
                    rows@.contains_key(a) <==> all.take(i as int).contains(a) && goal.merged.contains_key(a),
                forall|a: Seq<StepView>| #[trigger] rows@.contains_key(a) ==> rows@[a] == goal.merged[a],
            decreases n - i,
        {
            let address = set.key_at(i);
            let ghost at = all[i as int];
            let ghost rows0 = rows@;
            proof {
                assert(all.take(i + 1).drop_last() =~= all.take(i as int));
                assert(all.take(i + 1).last() == at);
                assert(all.contains(at));
                assert(all.to_set().contains(at));
            }
            self.resolve_row(address, &mut rows, &mut conflicts);
            proof {
                let t = all.take(i as int);
                let u = all.take(i + 1);
                assert forall|a: Seq<StepView>| u.contains(a) <==> t.contains(a) || a == at by {
                    if t.contains(a) {
                        let p = choose|p: int| 0 <= p < t.len() && t[p] == a;
                        assert(u[p] == a);
                    }
                    if u.contains(a) && a != at {
                        let p = choose|p: int| 0 <= p < u.len() && u[p] == a;
                        assert(t[p] == a);
                    }
                    assert(u[i as int] == at);
                }
                assert forall|a: Seq<StepView>| #[trigger] rows@.contains_key(a) <==> u.contains(a)
                    && goal.merged.contains_key(a) by {
                    assert(rows0.contains_key(a) <==> t.contains(a) && goal.merged.contains_key(a));
                }
            }
            i = i + 1;
        }
        proof {
            assert(all.take(i as int) =~= all);
            assert forall|a: Seq<StepView>| rows@.contains_key(a) <==> goal.merged.contains_key(a) by {
                if goal.merged.contains_key(a) {
                    assert(all.to_set().contains(a));
                }
            }
            assert(rows@ =~= goal.merged);
        }
        MergeOutcome { merged: rows, conflicts }
    }
}

/// Which side is called local does not matter to one row.
proof fn lemma_row_symmetric(base: Option<FieldsView>, local: Option<FieldsView>, incoming: Option<FieldsView>)
    ensures
        row_merged(base, local, incoming) == row_merged(base, incoming, local),
{
    if let (Some(b), Some(l), Some(i)) = (base, local, incoming) {
        assert(names_in(b, l, i) =~= names_in(b, i, l));
        assert(clashes(b, l, i) =~= clashes(b, i, l));
        assert(fields_merged(b, l, i) =~= fields_merged(b, i, l));
    }
}

proof fn lemma_conflicts_symmetric(
    compiled: Compiled,
    base: StateView,
    local: StateView,
    incoming: StateView,
    addresses: Seq<Seq<StepView>>,
)
    ensures
        conflicts_along(compiled, base, local, incoming, addresses) == conflicts_along(
            compiled,
            base,
            incoming,
            local,
            addresses,
        ),
    decreases addresses.len(),
{
    if addresses.len() > 0 {
        lemma_conflicts_symmetric(compiled, base, local, incoming, addresses.drop_last());
        let a = addresses.last();
        lemma_row_symmetric(row_at(base, a), row_at(local, a), row_at(incoming, a));
    }
}

/// A merge comes to the same whichever side is called local.
pub proof fn law_merge_symmetric(compiled: Compiled, base: StateView, local: StateView, incoming: StateView)
    ensures
        merged(compiled, base, local, incoming) == merged(compiled, base, incoming, local),
{
    let one = merged(compiled, base, local, incoming);
    let other = merged(compiled, base, incoming, local);
    assert(addresses_in(base, local, incoming) =~= addresses_in(base, incoming, local));
    assert forall|a: Seq<StepView>| merge_at(base, local, incoming, a) == merge_at(base, incoming, local, a) by {
        lemma_row_symmetric(row_at(base, a), row_at(local, a), row_at(incoming, a));
    }
    assert(one.merged =~= other.merged);
    lemma_conflicts_symmetric(
        compiled,
        base,
        local,
        incoming,
        sorted::<RowAddress>(addresses_in(base, local, incoming)),
    );
}

/// A row that only one side changed is that side's row.
proof fn lemma_row_one_sided(base: Option<FieldsView>, incoming: Option<FieldsView>)
    ensures
        row_merged(base, base, incoming) == (match incoming {
            Some(i) => RowMerge::Kept(i),
            None => RowMerge::Dropped,
        }),
{
    if let (Some(b), Some(i)) = (base, incoming) {
        assert(clashes(b, b, i) =~= Set::<Seq<char>>::empty());
        assert(fields_merged(b, b, i) =~= i);
    }
}

proof fn lemma_no_conflicts(compiled: Compiled, base: StateView, incoming: StateView, addresses: Seq<Seq<StepView>>)
    ensures
        conflicts_along(compiled, base, base, incoming, addresses) == Seq::<ConflictView>::empty(),
    decreases addresses.len(),
{
    if addresses.len() > 0 {
        lemma_no_conflicts(compiled, base, incoming, addresses.drop_last());
        let a = addresses.last();
        lemma_row_one_sided(row_at(base, a), row_at(incoming, a));
        assert(Seq::<ConflictView>::empty() + Seq::<ConflictView>::empty() =~= Seq::<ConflictView>::empty());
    }
}

/// A merge with a side that changed nothing is the other side, without conflicts.
pub proof fn law_merge_unchanged_side(compiled: Compiled, base: StateView, incoming: StateView)
    ensures
        merged(compiled, base, base, incoming).merged == incoming,
        merged(compiled, base, base, incoming).conflicts.len() == 0,
        merged(compiled, base, incoming, base).merged == incoming,
        merged(compiled, base, incoming, base).conflicts.len() == 0,
{
    let out = merged(compiled, base, base, incoming);
    assert forall|a: Seq<StepView>| out.merged.contains_key(a) <==> incoming.contains_key(a) by {
        lemma_row_one_sided(row_at(base, a), row_at(incoming, a));
    }
    assert forall|a: Seq<StepView>| out.merged.contains_key(a) implies out.merged[a] == incoming[a] by {
        lemma_row_one_sided(row_at(base, a), row_at(incoming, a));
    }
    assert(out.merged =~= incoming);
    lemma_no_conflicts(compiled, base, incoming, sorted::<RowAddress>(addresses_in(base, base, incoming)));
    law_merge_symmetric(compiled, base, base, incoming);
}

/// Where a row is refused or clashes, neither side's row is in the result: a
/// conflict is never settled silently.
pub proof fn law_conflicts_leave_out(
    compiled: Compiled,
    base: StateView,
    local: StateView,
    incoming: StateView,
    address: Seq<StepView>,
)
    requires
        row_conflicts(compiled, address, merge_at(base, local, incoming, address)).len() > 0,
    ensures
        !merged(compiled, base, local, incoming).merged.contains_key(address),
{
}

/// Where both sides hold the same row at an address, the merge holds it there without
/// a conflict, whatever the base holds.
pub proof fn law_equal_rows_agree(
    compiled: Compiled,
    base: StateView,
    local: StateView,
    incoming: StateView,
    address: Seq<StepView>,
)
    requires
        local.contains_key(address),
        incoming.contains_key(address),
        local[address] == incoming[address],
    ensures
        merged(compiled, base, local, incoming).merged.contains_key(address),
        merged(compiled, base, local, incoming).merged[address] == local[address],
        row_conflicts(compiled, address, merge_at(base, local, incoming, address)).len() == 0,
{
    assert(addresses_in(base, local, incoming).contains(address));
}

proof fn lemma_agreeing(compiled: Compiled, base: StateView, state: StateView, addresses: Seq<Seq<StepView>>)
    ensures
        conflicts_along(compiled, base, state, state, addresses).len() == 0,
    decreases addresses.len(),
{
    if addresses.len() > 0 {
        lemma_agreeing(compiled, base, state, addresses.drop_last());
    }
}

/// Merging a state with itself, over any base, gives that state without conflicts.
pub proof fn law_merge_with_itself(compiled: Compiled, base: StateView, state: StateView)
    ensures
        merged(compiled, base, state, state).merged == state,
        merged(compiled, base, state, state).conflicts.len() == 0,
{
    let out = merged(compiled, base, state, state).merged;
    assert forall|a: Seq<StepView>| out.contains_key(a) <==> state.contains_key(a) by {}
    assert(out =~= state);
    lemma_agreeing(compiled, base, state, sorted::<RowAddress>(addresses_in(base, state, state)));
}

/// What one side made of a row is what the merge makes of it where the other side left
/// the base's row alone: a change, an insertion and a deletion alike.
pub proof fn law_one_side_decides(
    compiled: Compiled,
    base: StateView,
    local: StateView,
    incoming: StateView,
    address: Seq<StepView>,
)
    requires
        base.contains_key(address) <==> local.contains_key(address),
        base.contains_key(address) ==> base[address] == local[address],
    ensures
        merged(compiled, base, local, incoming).merged.contains_key(address) <==> incoming.contains_key(address),
        incoming.contains_key(address) ==> merged(compiled, base, local, incoming).merged[address] == incoming[address],
        merged(compiled, base, incoming, local).merged.contains_key(address) <==> incoming.contains_key(address),
        incoming.contains_key(address) ==> merged(compiled, base, incoming, local).merged[address] == incoming[address],
        row_conflicts(compiled, address, merge_at(base, local, incoming, address)).len() == 0,
{
    lemma_row_one_sided(row_at(base, address), row_at(incoming, address));
    lemma_row_symmetric(row_at(base, address), row_at(local, address), row_at(incoming, address));
}

/// A row both sides deleted stays deleted, without a conflict.
pub proof fn law_both_deleted(
    compiled: Compiled,
    base: StateView,
    local: StateView,
    incoming: StateView,
    address: Seq<StepView>,
)
    requires
        !local.contains_key(address),
        !incoming.contains_key(address),
    ensures
        !merged(compiled, base, local, incoming).merged.contains_key(address),
        row_conflicts(compiled, address, merge_at(base, local, incoming, address)).len() == 0,
{
}

/// A row is missing from a merge without a conflict only if a side that lacks it
/// deleted it, and the other side deleted it too or left the base's row alone.
pub proof fn law_dropped_by_deletion(
    compiled: Compiled,
    base: StateView,
    local: StateView,
    incoming: StateView,
    address: Seq<StepView>,
)
    requires
        local.contains_key(address) || incoming.contains_key(address),
        base.contains_key(address) ==> base[address].dom().finite(),
        local.contains_key(address) ==> local[address].dom().finite(),
        incoming.contains_key(address) ==> incoming[address].dom().finite(),
        !merged(compiled, base, local, incoming).merged.contains_key(address),
        row_conflicts(compiled, address, merge_at(base, local, incoming, address)).len() == 0,
    ensures
        base.contains_key(address),
        !local.contains_key(address) || !incoming.contains_key(address),
        local.contains_key(address) ==> local[address] == base[address],
        incoming.contains_key(address) ==> incoming[address] == base[address],
{
    if let (Some(b), Some(l), Some(i)) = (row_at(base, address), row_at(local, address), row_at(incoming, address)) {
        let all = clashes(b, l, i);
        if l != i && all != Set::<Seq<char>>::empty() {
            lemma_clashes_reported(b, l, i);
        }
    }
}

proof fn lemma_clashes_reported(base: FieldsView, local: FieldsView, incoming: FieldsView)
    requires
        clashes(base, local, incoming) != Set::<Seq<char>>::empty(),
        names_in(base, local, incoming).finite(),
    ensures
        sorted::<String>(clashes(base, local, incoming)).len() > 0,
{
    let all = clashes(base, local, incoming);
    assert(all.finite());
    lemma_sorted_exists::<String>(all);
    if sorted::<String>(all).len() == 0 {
        assert(sorted::<String>(all).to_set() =~= Set::<Seq<char>>::empty());
    }
}

/// A deletion and a change of one row conflict, and so do two different insertions at
/// one address: the merge has no row there, and it reports the conflict, of its kind
/// and about the whole row.
pub proof fn law_whole_row_conflicts(
    compiled: Compiled,
    base: StateView,
    local: StateView,
    incoming: StateView,
    address: Seq<StepView>,
)
    ensures
        base.contains_key(address) && local.contains_key(address) && !incoming.contains_key(address) && local[address]
            != base[address] ==> row_conflicts(compiled, address, merge_at(base, local, incoming, address)) == seq![
            ConflictView { coordinate: coordinate_of(compiled, address, None), kind: ConflictKind::DeleteVsModify },
        ] && !merged(compiled, base, local, incoming).merged.contains_key(address),
        base.contains_key(address) && !local.contains_key(address) && incoming.contains_key(address)
            && incoming[address] != base[address] ==> row_conflicts(
            compiled,
            address,
            merge_at(base, local, incoming, address),
        ) == seq![
            ConflictView { coordinate: coordinate_of(compiled, address, None), kind: ConflictKind::DeleteVsModify },
        ] && !merged(compiled, base, local, incoming).merged.contains_key(address),
        !base.contains_key(address) && local.contains_key(address) && incoming.contains_key(address) && local[address]
            != incoming[address] ==> row_conflicts(compiled, address, merge_at(base, local, incoming, address)) == seq![
            ConflictView { coordinate: coordinate_of(compiled, address, None), kind: ConflictKind::CompetingInsert },
        ] && !merged(compiled, base, local, incoming).merged.contains_key(address),
{
}

/// Whether two sides of a row changed a field differently.
pub open spec fn changed_apart(base: FieldsView, local: FieldsView, incoming: FieldsView, name: Seq<char>) -> bool {
    &&& under(local, name) != under(incoming, name)
    &&& under(local, name) != under(base, name)
    &&& under(incoming, name) != under(base, name)
}

/// A row its base and both sides hold is merged field by field, unless the two sides
/// changed a field differently. Each field of the merged row is that of the side that
/// changed it, and that of both where neither did or both did alike.
pub proof fn law_fields_merge(
    compiled: Compiled,
    base: StateView,
    local: StateView,
    incoming: StateView,
    address: Seq<StepView>,
    name: Seq<char>,
)
    requires
        base.contains_key(address),
        local.contains_key(address),
        incoming.contains_key(address),
    ensures
        merged(compiled, base, local, incoming).merged.contains_key(address) <==> forall|n: Seq<char>|
            !changed_apart(base[address], local[address], incoming[address], n),
        merged(compiled, base, local, incoming).merged.contains_key(address) ==> {
            let row = merged(compiled, base, local, incoming).merged[address];
            &&& under(local[address], name) == under(base[address], name) ==> under(row, name) == under(
                incoming[address],
                name,
            )
            &&& under(incoming[address], name) == under(base[address], name) ==> under(row, name) == under(
                local[address],
                name,
            )
            &&& under(local[address], name) == under(incoming[address], name) ==> under(row, name) == under(
                local[address],
                name,
            )
        },
{
    let b = base[address];
    let l = local[address];
    let i = incoming[address];
    assert(addresses_in(base, local, incoming).contains(address));
    assert forall|n: Seq<char>| changed_apart(b, l, i, n) <==> clashes(b, l, i).contains(n) by {}
    if l != i {
        if clashes(b, l, i) == Set::<Seq<char>>::empty() {
            assert forall|n: Seq<char>| !changed_apart(b, l, i, n) by {
                assert(!clashes(b, l, i).contains(n));
            }
        } else {
            if forall|n: Seq<char>| !changed_apart(b, l, i, n) {
                assert forall|n: Seq<char>| !clashes(b, l, i).contains(n) by {
                    assert(!changed_apart(b, l, i, n));
                }
                assert(clashes(b, l, i) =~= Set::<Seq<char>>::empty());
            }
        }
    }
}

proof fn lemma_reported_along(
    compiled: Compiled,
    base: StateView,
    local: StateView,
    incoming: StateView,
    addresses: Seq<Seq<StepView>>,
    c: ConflictView,
)
    ensures
        conflicts_along(compiled, base, local, incoming, addresses).contains(c) <==> exists|k: int|
            0 <= k < addresses.len() && row_conflicts(
                compiled,
                #[trigger] addresses[k],
                merge_at(base, local, incoming, addresses[k]),
            ).contains(c),
    decreases addresses.len(),
{
    if addresses.len() > 0 {
        let shorter = addresses.drop_last();
        lemma_reported_along(compiled, base, local, incoming, shorter, c);
        let before = conflicts_along(compiled, base, local, incoming, shorter);
        let own = row_conflicts(compiled, addresses.last(), merge_at(base, local, incoming, addresses.last()));
        let all = conflicts_along(compiled, base, local, incoming, addresses);
        assert(all == before + own);
        if before.contains(c) {
            let j = choose|j: int| 0 <= j < before.len() && before[j] == c;
            assert(all[j] == c);
            let k = choose|k: int|
                0 <= k < shorter.len() && row_conflicts(
                    compiled,
                    #[trigger] shorter[k],
                    merge_at(base, local, incoming, shorter[k]),
                ).contains(c);
            assert(addresses[k] == shorter[k]);
        }
        if own.contains(c) {
            let j = choose|j: int| 0 <= j < own.len() && own[j] == c;
            assert(all[before.len() + j] == c);
            assert(addresses[addresses.len() - 1] == addresses.last());
        }
        if all.contains(c) {
            let j = choose|j: int| 0 <= j < all.len() && all[j] == c;
            if j < before.len() {
                assert(before[j] == c);
            } else {
                assert(own[j - before.len()] == c);
            }
        }
        if exists|k: int|
            0 <= k < addresses.len() && row_conflicts(
                compiled,
                #[trigger] addresses[k],
                merge_at(base, local, incoming, addresses[k]),
            ).contains(c) {
            let k = choose|k: int|
                0 <= k < addresses.len() && row_conflicts(
                    compiled,
                    #[trigger] addresses[k],
                    merge_at(base, local, incoming, addresses[k]),
                ).contains(c);
            if k < shorter.len() {
                assert(shorter[k] == addresses[k]);
            }
        }
    }
}

/// The conflicts a merge reports are those of its rows: every conflict of every row,
/// and no other.
pub proof fn law_conflicts_reported(
    compiled: Compiled,
    base: StateView,
    local: StateView,
    incoming: StateView,
    c: ConflictView,
)
    requires
        base.dom().finite(),
        local.dom().finite(),
        incoming.dom().finite(),
    ensures
        merged(compiled, base, local, incoming).conflicts.contains(c) <==> exists|a: Seq<StepView>| #[trigger]
            row_conflicts(compiled, a, merge_at(base, local, incoming, a)).contains(c),
{
    let all = addresses_in(base, local, incoming);
    let s = sorted::<RowAddress>(all);
    lemma_sorted_exists::<RowAddress>(all);
    lemma_reported_along(compiled, base, local, incoming, s, c);
    if exists|a: Seq<StepView>| #[trigger] row_conflicts(compiled, a, merge_at(base, local, incoming, a)).contains(c) {
        let a = choose|a: Seq<StepView>| #[trigger]
            row_conflicts(compiled, a, merge_at(base, local, incoming, a)).contains(c);
        assert(all.contains(a));
        assert(s.to_set().contains(a));
        let k = choose|k: int| 0 <= k < s.len() && s[k] == a;
        assert(row_conflicts(compiled, s[k], merge_at(base, local, incoming, s[k])).contains(c));
    }
    if merged(compiled, base, local, incoming).conflicts.contains(c) {
        let k = choose|k: int|
            0 <= k < s.len() && row_conflicts(compiled, #[trigger] s[k], merge_at(base, local, incoming, s[k])).contains(c);
        assert(row_conflicts(compiled, s[k], merge_at(base, local, incoming, s[k])).contains(c));
    }
}

/// A field two sides of a row changed differently is reported, by its name, and no
/// other field of the row is.
pub proof fn law_clashes_reported(
    compiled: Compiled,
    base: StateView,
    local: StateView,
    incoming: StateView,
    address: Seq<StepView>,
    name: Seq<char>,
)
    requires
        base.contains_key(address),
        local.contains_key(address),
        incoming.contains_key(address),
        base[address].dom().finite(),
        local[address].dom().finite(),
        incoming[address].dom().finite(),
    ensures
        changed_apart(base[address], local[address], incoming[address], name) <==> row_conflicts(
            compiled,
            address,
            merge_at(base, local, incoming, address),
        ).contains(
            ConflictView {
                coordinate: coordinate_of(compiled, address, Some(name)),
                kind: ConflictKind::IncompatibleValue,
            },
        ),
{
    let b = base[address];
    let l = local[address];
    let i = incoming[address];
    let all = clashes(b, l, i);
    let merge = merge_at(base, local, incoming, address);
    let out = row_conflicts(compiled, address, merge);
    let c = ConflictView {
        coordinate: coordinate_of(compiled, address, Some(name)),
        kind: ConflictKind::IncompatibleValue,
    };
    assert(names_in(b, l, i).finite());
    assert(all.finite());
    lemma_sorted_exists::<String>(all);
    let s = sorted::<String>(all);
    if changed_apart(b, l, i, name) {
        assert(all.contains(name));
        assert(merge == RowMerge::Clashed(all));
        assert(s.to_set().contains(name));
        let k = choose|k: int| 0 <= k < s.len() && s[k] == name;
        assert(out[k] == c);
    }
    if out.contains(c) {
        let k = choose|k: int| 0 <= k < out.len() && out[k] == c;
        assert(merge is Clashed);
        assert(s[k] == name);
        assert(s.to_set().contains(s[k]));
        assert(all.contains(name));
    }
}

} // verus!
