//! What histories, view patches, versions and updates keep to.

use crate::doc::Doc;
use crate::downgrade::state_representable;
use crate::history::ImportRelation;
use crate::lineage::{
    advanced, artifact_relation, chain, descends, link_index, reconciled, relation_of, rolled_back, CursorView,
    LinkView, PointView,
};
use crate::migrate::migrated_state;
use crate::movement::{imported, InstanceView};
use crate::patch::{
    difference, distinct, ids_of, placing, row_of, settling, settling_step, staying, IdView, OpView, ViewRowView,
};
use crate::plan::{definition_plan, downgraded};
use crate::rejection::RejectionReason;
use crate::state::StateView;
use crate::text::{position_of, texts};
use crate::update::{prepared, Preparation, UpdateErrorView, UpdateRelation};
use crate::version::{connected, migration_sources, named_versions, precedes, version_of, version_text, Version};
use vstd::prelude::*;

verus! {

proof fn lemma_link_index(links: Seq<LinkView>, lineage: Seq<char>, i: int)
    ensures
        link_index(links, lineage) is None <==> forall|k: int|
            0 <= k < links.len() ==> (#[trigger] links[k]).lineage != lineage,
        0 <= i < links.len() && links[i].lineage == lineage && (forall|k: int|
            0 <= k < i ==> (#[trigger] links[k]).lineage != lineage) ==> link_index(links, lineage) == Some(i),
    decreases links.len(),
{
    if links.len() > 0 {
        let rest = links.drop_last();
        lemma_link_index(rest, lineage, i);
        assert(links[links.len() - 1] == links.last());
        if link_index(links, lineage) is None {
            assert forall|k: int| 0 <= k < links.len() implies (#[trigger] links[k]).lineage != lineage by {
                if k < rest.len() {
                    assert(rest[k] == links[k]);
                }
            }
        } else if forall|k: int| 0 <= k < links.len() ==> (#[trigger] links[k]).lineage != lineage {
            assert forall|k: int| 0 <= k < rest.len() implies (#[trigger] rest[k]).lineage != lineage by {
                assert(rest[k] == links[k]);
            }
            assert(links[links.len() - 1].lineage != lineage);
        }
        if 0 <= i < links.len() && links[i].lineage == lineage && (forall|k: int|
            0 <= k < i ==> (#[trigger] links[k]).lineage != lineage) {
            assert forall|k: int| 0 <= k < i && k < rest.len() implies (#[trigger] rest[k]).lineage != lineage by {
                assert(rest[k] == links[k]);
            }
            if i < rest.len() {
                assert(rest[i] == links[i]);
            } else {
                assert forall|k: int| 0 <= k < rest.len() implies (#[trigger] rest[k]).lineage != lineage by {
                    assert(rest[k] == links[k]);
                }
            }
        }
    }
}

/// A point of the active lineage is behind, at, or ahead of the instance by its
/// position. One of a lineage the instance descends through is behind it up to where
/// the line of descent left that lineage, and diverged after that. Any other point is
/// unrelated, and so is one whose position is none.
pub proof fn law_relation(c: CursorView, incoming: PointView, p: u64, i: int)
    requires
        descends(c),
        position_of(incoming.point) == Some(p),
    ensures
        incoming.lineage == c.active.lineage ==> relation_of(c, incoming) == (if p == c.point {
            ImportRelation::SamePoint
        } else if p < c.point {
            ImportRelation::Rollback
        } else {
            ImportRelation::FastForward
        }),
        0 <= i < c.ancestors.len() && c.ancestors[i].lineage == incoming.lineage ==> (chain(c)[i + 1].origin matches Some(
            left,
        ) && relation_of(c, incoming) == (if p <= left {
            ImportRelation::Rollback
        } else {
            ImportRelation::Merge
        })),
        incoming.lineage != c.active.lineage && (forall|k: int|
            0 <= k < c.ancestors.len() ==> (#[trigger] c.ancestors[k]).lineage != incoming.lineage) ==> relation_of(
            c,
            incoming,
        ) == ImportRelation::Unrelated,
{
    lemma_link_index(c.ancestors, incoming.lineage, i);
    if 0 <= i < c.ancestors.len() && c.ancestors[i].lineage == incoming.lineage {
        assert(chain(c)[i] == c.ancestors[i]);
        assert(chain(c)[c.ancestors.len() as int] == c.active);
        assert(chain(c)[i].lineage.len() < chain(c)[c.ancestors.len() as int].lineage.len());
        assert forall|k: int| 0 <= k < i implies (#[trigger] c.ancestors[k]).lineage != incoming.lineage by {
            assert(chain(c)[k] == c.ancestors[k]);
            assert(chain(c)[k].lineage.len() < chain(c)[i].lineage.len());
        }
        assert(chain(c)[i + 1].origin is Some);
    }
}

/// A point without a position is related to nothing.
pub proof fn law_no_position(c: CursorView, incoming: PointView)
    requires
        position_of(incoming.point) is None,
    ensures
        relation_of(c, incoming) == ImportRelation::Unrelated,
        artifact_relation(c, true, incoming) == ImportRelation::Unrelated,
        artifact_relation(c, false, incoming) == ImportRelation::Unrelated,
{
}

/// A rollback to an ancestor takes the instance onto that lineage, with what it
/// descended through up to it; a rollback on the active lineage stays on it.
pub proof fn law_rolled_back_onto(c: CursorView, incoming: PointView, p: u64, i: int)
    requires
        descends(c),
        position_of(incoming.point) == Some(p),
    ensures
        rolled_back(c, incoming).point == p,
        rolled_back(c, incoming).branch_pending,
        incoming.lineage == c.active.lineage ==> rolled_back(c, incoming).active == c.active && rolled_back(
            c,
            incoming,
        ).ancestors == c.ancestors,
        0 <= i < c.ancestors.len() && c.ancestors[i].lineage == incoming.lineage ==> rolled_back(c, incoming).active
            == c.ancestors[i] && rolled_back(c, incoming).ancestors == c.ancestors.take(i),
{
    lemma_link_index(c.ancestors, incoming.lineage, i);
    if 0 <= i < c.ancestors.len() && c.ancestors[i].lineage == incoming.lineage {
        assert(chain(c)[i] == c.ancestors[i]);
        assert(chain(c)[c.ancestors.len() as int] == c.active);
        assert(chain(c)[i].lineage.len() < chain(c)[c.ancestors.len() as int].lineage.len());
        assert forall|k: int| 0 <= k < i implies (#[trigger] c.ancestors[k]).lineage != incoming.lineage by {
            assert(chain(c)[k] == c.ancestors[k]);
            assert(chain(c)[k].lineage.len() < chain(c)[i].lineage.len());
        }
    }
}

/// A commit takes the next position. It stays on its lineage, unless the current point
/// has a displaced continuation: then it starts a lineage that branched there. A
/// reconciliation always starts one.
pub proof fn law_commit_lineage(c: CursorView)
    requires
        c.next < u64::MAX,
    ensures
        advanced(c).point == c.next,
        advanced(c).next == c.next + 1,
        !advanced(c).branch_pending,
        !c.branch_pending ==> advanced(c).active == c.active && advanced(c).ancestors == c.ancestors,
        c.branch_pending ==> advanced(c).active.origin == Some(c.point) && advanced(c).ancestors == c.ancestors.push(
            c.active,
        ),
        reconciled(c).point == c.next,
        reconciled(c).active.origin == Some(c.point),
        reconciled(c).ancestors == c.ancestors.push(c.active),
{
}

/// An artifact that the policy does not permit, or that asks for no movement, leaves
/// the instance as it is. One that it permits brings its definition and its rows.
pub proof fn law_imported(
    instance: InstanceView,
    own: bool,
    incoming: PointView,
    policy: Seq<ImportRelation>,
    definition: Seq<char>,
    rows: StateView,
)
    ensures
        ({
            let relation = artifact_relation(instance.cursor, own, incoming);
            let after = imported(instance, own, incoming, policy, definition, rows);
            &&& !own ==> after == instance
            &&& !policy.contains(relation) ==> after == instance
            &&& relation != ImportRelation::FastForward && relation != ImportRelation::Rollback ==> after == instance
            &&& policy.contains(relation) && (relation == ImportRelation::FastForward || relation
                == ImportRelation::Rollback) ==> after.definition == definition && after.rows == rows && Some(
                after.cursor.point,
            ) == position_of(incoming.point)
        }),
{
}

proof fn lemma_row_of(rows: Seq<ViewRowView>, id: IdView)
    ensures
        row_of(rows, id) is Some <==> ids_of(rows).contains(id),
        row_of(rows, id) matches Some(r) ==> r.id == id && rows.contains(r),
    decreases rows.len(),
{
    let ids = ids_of(rows);
    if rows.len() > 0 {
        let rest = rows.drop_last();
        lemma_row_of(rest, id);
        assert(rows[rows.len() - 1] == rows.last());
        if rows.last().id == id {
            assert(ids[rows.len() - 1] == id);
        }
        if ids_of(rest).contains(id) {
            let i = choose|i: int| 0 <= i < rest.len() && ids_of(rest)[i] == id;
            assert(ids[i] == id);
        }
        if ids.contains(id) && rows.last().id != id {
            let i = choose|i: int| 0 <= i < ids.len() && ids[i] == id;
            assert(ids_of(rest)[i] == id);
        }
        if let Some(r) = row_of(rest, id) {
            let i = choose|i: int| 0 <= i < rest.len() && rest[i] == r;
            assert(rows[i] == r);
        }
    }
}

proof fn lemma_settling(prev: Seq<ViewRowView>, next: Seq<ViewRowView>, op: OpView)
    ensures
        settling(prev, next).contains(op) <==> exists|i: int|
            0 <= i < prev.len() && settling_step(#[trigger] prev[i], next).contains(op),
    decreases prev.len(),
{
    if prev.len() > 0 {
        let rest = prev.drop_last();
        lemma_settling(rest, next, op);
        let before = settling(rest, next);
        let step = settling_step(prev.last(), next);
        let all = settling(prev, next);
        assert(prev[prev.len() - 1] == prev.last());
        if before.contains(op) {
            let k = choose|k: int| 0 <= k < before.len() && before[k] == op;
            assert(all[k] == op);
            let i = choose|i: int| 0 <= i < rest.len() && settling_step(#[trigger] rest[i], next).contains(op);
            assert(prev[i] == rest[i]);
        }
        if step.contains(op) {
            let k = choose|k: int| 0 <= k < step.len() && step[k] == op;
            assert(all[before.len() + k] == op);
        }
        if all.contains(op) {
            let k = choose|k: int| 0 <= k < all.len() && all[k] == op;
            if k < before.len() {
                assert(before[k] == op);
            } else {
                assert(step[k - before.len()] == op);
            }
        }
        if exists|i: int| 0 <= i < prev.len() && settling_step(#[trigger] prev[i], next).contains(op) {
            let i = choose|i: int| 0 <= i < prev.len() && settling_step(#[trigger] prev[i], next).contains(op);
            if i < rest.len() {
                assert(rest[i] == prev[i]);
            }
        }
    }
}

proof fn lemma_placing(ids: Seq<IdView>, next: Seq<ViewRowView>, i: int, op: OpView)
    requires
        0 <= i <= next.len(),
        i <= ids.len(),
        forall|k: int| 0 <= k < i ==> #[trigger] ids[k] == next[k].id,
        distinct(next),
        placing(ids, next, i).contains(op),
    ensures
        op is Insert || op is Move,
        op matches OpView::Insert { at, row } ==> i <= at < next.len() && next[at] == row && !ids.contains(row.id),
        op matches OpView::Move { id, to } ==> i <= to < next.len() && next[to].id == id && ids.contains(id),
    decreases next.len() - i,
{
    if i < next.len() {
        let target = next[i];
        let all = placing(ids, next, i);
        if i < ids.len() && ids[i] == target.id {
            lemma_placing(ids, next, i + 1, op);
        } else {
            ids.index_of_first_ensures(target.id);
            match ids.index_of_first(target.id) {
                Some(j) => {
                    if j < i {
                        assert(ids[j] == next[j].id);
                        assert(next[j].id != next[i].id);
                    }
                    let moved = ids.remove(j).insert(i, target.id);
                    let rest = placing(moved, next, i + 1);
                    let first = OpView::Move { id: target.id, to: i };
                    let k = choose|k: int| 0 <= k < all.len() && all[k] == op;
                    if k == 0 {
                        assert(op == first);
                    } else {
                        assert(rest[k - 1] == op);
                        assert forall|k: int| 0 <= k < i + 1 implies #[trigger] moved[k] == next[k].id by {
                            if k < i {
                                assert(moved[k] == ids[k]);
                            }
                        }
                        lemma_placing(moved, next, i + 1, op);
                        lemma_same_ids(ids, moved, j, i, target.id);
                        if let OpView::Insert { at, row } = op {
                            assert(next[i].id != next[at].id);
                            assert(ids.contains(row.id) <==> moved.contains(row.id));
                        }
                        if let OpView::Move { id, to } = op {
                            assert(ids.contains(id) <==> moved.contains(id));
                        }
                    }
                },
                None => {
                    let grown = ids.insert(i, target.id);
                    let rest = placing(grown, next, i + 1);
                    let k = choose|k: int| 0 <= k < all.len() && all[k] == op;
                    if k > 0 {
                        assert(rest[k - 1] == op);
                        assert forall|k: int| 0 <= k < i + 1 implies #[trigger] grown[k] == next[k].id by {
                            if k < i {
                                assert(grown[k] == ids[k]);
                            }
                        }
                        lemma_placing(grown, next, i + 1, op);
                        if let OpView::Insert { at, row } = op {
                            if ids.contains(row.id) {
                                let q = choose|q: int| 0 <= q < ids.len() && ids[q] == row.id;
                                if 0 <= i <= ids.len() {
                                    assert(grown[if q < i {
                                        q
                                    } else {
                                        q + 1
                                    }] == row.id);
                                }
                            }
                        }
                        if let OpView::Move { id, to } = op {
                            assert(next[i].id != next[to].id);
                            let q = choose|q: int| 0 <= q < grown.len() && grown[q] == id;
                            if 0 <= i <= ids.len() {
                                if q != i {
                                    assert(ids[if q < i {
                                        q
                                    } else {
                                        q - 1
                                    }] == id);
                                }
                            }
                        }
                    }
                },
            }
        }
    }
}

proof fn lemma_same_ids(ids: Seq<IdView>, moved: Seq<IdView>, j: int, i: int, id: IdView)
    requires
        0 <= j < ids.len(),
        0 <= i,
        ids[j] == id,
        moved == ids.remove(j).insert(i, id),
        i < ids.len(),
    ensures
        forall|x: IdView| ids.contains(x) <==> #[trigger] moved.contains(x),
{
    let out = ids.remove(j);
    assert forall|x: IdView| ids.contains(x) <==> #[trigger] moved.contains(x) by {
        if ids.contains(x) {
            let q = choose|q: int| 0 <= q < ids.len() && ids[q] == x;
            if q == j {
                assert(moved[i] == x);
            } else {
                let r = if q < j {
                    q
                } else {
                    q - 1
                };
                assert(out[r] == x);
                assert(moved[if r < i {
                    r
                } else {
                    r + 1
                }] == x);
            }
        }
        if moved.contains(x) {
            let q = choose|q: int| 0 <= q < moved.len() && moved[q] == x;
            if q == i {
                assert(ids[j] == x);
            } else {
                let r = if q < i {
                    q
                } else {
                    q - 1
                };
                assert(out[r] == x);
                assert(ids[if r < j {
                    r
                } else {
                    r + 1
                }] == x);
            }
        }
    }
}

/// A patch removes exactly the rows that left, and gives a new value exactly to the
/// rows that stayed and changed theirs: a row that stayed as it was is not written
/// again.
pub proof fn law_patch_settles(prev: Seq<ViewRowView>, next: Seq<ViewRowView>, id: IdView, row: ViewRowView)
    requires
        distinct(next),
    ensures
        difference(prev, next).contains(OpView::Remove { id }) <==> ids_of(prev).contains(id) && !ids_of(next).contains(id),
        difference(prev, next).contains(OpView::Update { row }) <==> next.contains(row) && exists|i: int|
            0 <= i < prev.len() && (#[trigger] prev[i]).id == row.id && prev[i].value != row.value,
{
    let first = settling(prev, next);
    let then = placing(ids_of(staying(prev, next)), next, 0);
    let all = difference(prev, next);
    let gone = OpView::Remove { id };
    let new = OpView::Update { row };
    lemma_settling(prev, next, gone);
    lemma_settling(prev, next, new);
    lemma_row_of(next, id);
    lemma_row_of(next, row.id);
    if then.contains(gone) {
        lemma_placing(ids_of(staying(prev, next)), next, 0, gone);
    }
    if then.contains(new) {
        lemma_placing(ids_of(staying(prev, next)), next, 0, new);
    }
    assert(all.contains(gone) <==> first.contains(gone) || then.contains(gone)) by {
        lemma_either(first, then, gone);
    }
    assert(all.contains(new) <==> first.contains(new) || then.contains(new)) by {
        lemma_either(first, then, new);
    }
    if first.contains(gone) {
        let i = choose|i: int| 0 <= i < prev.len() && settling_step(#[trigger] prev[i], next).contains(gone);
        let step = settling_step(prev[i], next);
        let k = choose|k: int| 0 <= k < step.len() && step[k] == gone;
        assert(prev[i].id == id);
        assert(ids_of(prev)[i] == id);
    }
    if ids_of(prev).contains(id) && !ids_of(next).contains(id) {
        let i = choose|i: int| 0 <= i < prev.len() && ids_of(prev)[i] == id;
        assert(settling_step(prev[i], next)[0] == gone);
        assert(settling_step(prev[i], next).contains(gone));
    }
    if first.contains(new) {
        let i = choose|i: int| 0 <= i < prev.len() && settling_step(#[trigger] prev[i], next).contains(new);
        let step = settling_step(prev[i], next);
        let k = choose|k: int| 0 <= k < step.len() && step[k] == new;
        lemma_row_of(next, prev[i].id);
        assert(row_of(next, prev[i].id) == Some(row));
        assert(prev[i].id == row.id && prev[i].value != row.value);
    }
    if next.contains(row) && exists|i: int|
        0 <= i < prev.len() && (#[trigger] prev[i]).id == row.id && prev[i].value != row.value {
        let i = choose|i: int| 0 <= i < prev.len() && (#[trigger] prev[i]).id == row.id && prev[i].value != row.value;
        let k = choose|k: int| 0 <= k < next.len() && next[k] == row;
        assert(ids_of(next)[k] == row.id);
        let r = row_of(next, row.id)->0;
        let m = choose|m: int| 0 <= m < next.len() && next[m] == r;
        if k < m {
            assert(next[k].id != next[m].id);
        } else if m < k {
            assert(next[m].id != next[k].id);
        }
        assert(settling_step(prev[i], next)[0] == new);
        assert(settling_step(prev[i], next).contains(new));
    }
}

proof fn lemma_either(a: Seq<OpView>, b: Seq<OpView>, op: OpView)
    ensures
        (a + b).contains(op) <==> a.contains(op) || b.contains(op),
{
    let all = a + b;
    if a.contains(op) {
        let k = choose|k: int| 0 <= k < a.len() && a[k] == op;
        assert(all[k] == op);
    }
    if b.contains(op) {
        let k = choose|k: int| 0 <= k < b.len() && b[k] == op;
        assert(all[a.len() + k] == op);
    }
    if all.contains(op) {
        let k = choose|k: int| 0 <= k < all.len() && all[k] == op;
        if k < a.len() {
            assert(a[k] == op);
        } else {
            assert(b[k - a.len()] == op);
        }
    }
}

/// Versions are ordered by the first of their three numbers that differs.
pub proof fn law_version_order(a: Version, b: Version)
    ensures
        a.major != b.major ==> (precedes(a, b) <==> a.major < b.major),
        a.major == b.major && a.minor != b.minor ==> (precedes(a, b) <==> a.minor < b.minor),
        a.major == b.major && a.minor == b.minor ==> (precedes(a, b) <==> a.patch < b.patch),
        !(precedes(a, b) && precedes(b, a)),
        precedes(a, b) || precedes(b, a) || a == b,
{
}

/// A route is not covered where a declared source lies between its ends.
pub proof fn law_route_interrupted(active: Version, target: Version, sources: Seq<Version>, v: Version)
    requires
        sources.contains(v),
        precedes(active, v) && precedes(v, target) || precedes(target, v) && precedes(v, active),
    ensures
        !connected(active, target, sources),
{
    let i = choose|i: int| 0 <= i < sources.len() && sources[i] == v;
    assert(crate::version::between(active, target, sources[i]));
}

/// The declared sources are the members that name a version, and no others.
pub proof fn law_named_versions(members: Seq<(String, Doc)>, v: Version)
    ensures
        named_versions(members).contains(v) <==> exists|i: int|
            0 <= i < members.len() && version_of((#[trigger] members[i]).0@) == Some(v),
    decreases members.len(),
{
    if members.len() > 0 {
        let rest = members.drop_last();
        law_named_versions(rest, v);
        let before = named_versions(rest);
        let after = named_versions(members);
        assert(members[members.len() - 1] == members.last());
        if before.contains(v) {
            let k = choose|k: int| 0 <= k < before.len() && before[k] == v;
            assert(after[k] == v);
            let i = choose|i: int| 0 <= i < rest.len() && version_of((#[trigger] rest[i]).0@) == Some(v);
            assert(members[i] == rest[i]);
        }
        if version_of(members.last().0@) == Some(v) {
            assert(after[before.len() as int] == v);
        }
        if after.contains(v) && !before.contains(v) {
            let k = choose|k: int| 0 <= k < after.len() && after[k] == v;
            if k < before.len() {
                assert(before[k] == v);
            }
        }
        if exists|i: int| 0 <= i < members.len() && version_of((#[trigger] members[i]).0@) == Some(v) {
            let i = choose|i: int| 0 <= i < members.len() && version_of((#[trigger] members[i]).0@) == Some(v);
            if i < rest.len() {
                assert(rest[i] == members[i]);
            }
        }
    }
}

/// An update to another compatibility line is refused as incompatible, one over a route
/// that is not covered or that narrows a boundary contract it must not narrow is
/// refused, and what the engine failed at fails the update.
pub proof fn law_update_refused(p: Preparation)
    ensures
        p.basis is Err || p.release is Err || p.decision is Err ==> (prepared(p) matches Err(e) && e is Engine),
        p.basis is Ok && p.release is Ok && p.decision is Ok ==> {
            let relation = p.decision->Ok_0.relation;
            let route = connected(
                p.basis->Ok_0.version,
                p.release->Ok_0.version,
                migration_sources(p.release->Ok_0.model),
            );
            &&& relation == UpdateRelation::Unrelated ==> (prepared(p) matches Err(e) && e is Incompatible)
            &&& relation != UpdateRelation::Unrelated && !route ==> (prepared(p) matches Err(UpdateErrorView::Rejected(e))
                && e.reason == RejectionReason::Compatibility)
            &&& relation != UpdateRelation::Unrelated && route && p.decision->Ok_0.requires_non_narrowing
                && p.narrowing is Some ==> (prepared(p) matches Err(UpdateErrorView::Rejected(e)) && e.reason
                == RejectionReason::Compatibility)
        },
        p.captured is Err || p.source_root is Err || p.rebind is Err || p.policy is Err ==> prepared(p) is Err,
{
}

/// A prepared update has the rows of the state that was migrated by its plan: the
/// target's own mappings, or for a downgrade those with the active package's inverses,
/// which then can represent the state.
pub proof fn law_prepared_rows(p: Preparation)
    requires
        prepared(p) is Ok,
    ensures
        ({
            let release = p.release->Ok_0;
            let own = definition_plan(release.definition);
            let plan = if p.decision->Ok_0.relation == UpdateRelation::Downgrade {
                downgraded(own, definition_plan(p.active_definition->Ok_0->0))
            } else {
                own
            };
            let m = migrated_state(
                p.active,
                p.captured->Ok_0,
                release.shape,
                plan,
                p.work,
                p.reserved@,
                version_text(p.basis->Ok_0.version),
            );
            &&& m is Ok
            &&& prepared(p)->Ok_0.reconciliation.merged == m->Ok_0.rows
            &&& prepared(p)->Ok_0.reconciliation.conflicts == m->Ok_0.divergent
            &&& prepared(p)->Ok_0.migrated == m->Ok_0.migrated
            &&& prepared(p)->Ok_0.seeded == m->Ok_0.seeded
            &&& prepared(p)->Ok_0.relation == p.decision->Ok_0.relation
            &&& prepared(p)->Ok_0.release == release
            &&& p.decision->Ok_0.relation == UpdateRelation::Downgrade ==> p.active_definition is Ok
                && p.active_definition->Ok_0 is Some && state_representable(
                p.active.compiled,
                texts(p.active.members@),
                p.captured->Ok_0,
                release.shape.compiled,
                texts(release.shape.members@),
                plan,
            ) is Ok
        }),
{
}

} // verus!
