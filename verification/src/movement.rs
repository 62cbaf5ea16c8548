//! The movement of a whole instance to a point of its history: its definition, its rows
//! and its history move together or not at all.

use crate::history::{is_movement, ImportRelation, ImportReport};
use crate::lineage::{
    artifact_relation, descends, law_fast_forward, law_rollback, moved_to, ordered, point_of, relation_of, CursorView,
    HistoryCursor, HistoryPoint, PointView,
};
use crate::state::{Prospective, StateView};
use crate::text::{law_position_numeral, position_of};
use vstd::prelude::*;

verus! {

/// An instance: its definition, its rows, and its history.
pub struct Instance {
    pub definition: String,
    pub rows: Prospective,
    pub cursor: HistoryCursor,
}

/// What an [`Instance`] denotes.
#[verifier::ext_equal]
pub struct InstanceView {
    pub definition: Seq<char>,
    pub rows: StateView,
    pub cursor: CursorView,
}

impl View for Instance {
    type V = InstanceView;

    open spec fn view(&self) -> InstanceView {
        InstanceView { definition: self.definition@, rows: self.rows@, cursor: self.cursor@ }
    }
}

/// What an artifact carries of the point it selects: the definition that was active
/// there, and the rows.
pub struct Sections {
    pub definition: String,
    pub rows: Prospective,
}

/// Whether a policy permits the movement an artifact asks for.
pub open spec fn permits(c: CursorView, own: bool, incoming: PointView, policy: Seq<ImportRelation>) -> bool {
    let relation = artifact_relation(c, own, incoming);
    is_movement(relation) && policy.contains(relation)
}

/// An instance after an import: where the policy permits the movement it has the
/// definition and the rows of the incoming point, and is at that point.
pub open spec fn imported(
    instance: InstanceView,
    own: bool,
    incoming: PointView,
    policy: Seq<ImportRelation>,
    definition: Seq<char>,
    rows: StateView,
) -> InstanceView {
    if permits(instance.cursor, own, incoming, policy) {
        InstanceView {
            definition,
            rows,
            cursor: moved_to(instance.cursor, artifact_relation(instance.cursor, own, incoming), incoming),
        }
    } else {
        instance
    }
}

impl Instance {
    /// Import an artifact under a policy. `sections` is what it carries, or why that
    /// cannot be reinstalled; a failure leaves the instance as it was.
    pub fn import<E>(
        &mut self,
        own: bool,
        incoming: &HistoryPoint,
        policy: &Vec<ImportRelation>,
        sections: Result<Sections, E>,
    ) -> (r: Result<ImportReport, E>)
        requires
            permits(old(self)@.cursor, own, incoming@, policy@) && artifact_relation(
                old(self)@.cursor,
                own,
                incoming@,
            ) == ImportRelation::FastForward ==> position_of(incoming@.point) != Some(u64::MAX),
        ensures
            ({
                let permitted = permits(old(self)@.cursor, own, incoming@, policy@);
                match r {
                    Ok(report) => {
                        &&& report.relation == artifact_relation(old(self)@.cursor, own, incoming@)
                        &&& report.applied == permitted
                        &&& permitted ==> sections is Ok
                        &&& final(self)@ == (match sections {
                            Ok(s) => imported(old(self)@, own, incoming@, policy@, s.definition@, s.rows@),
                            Err(_) => old(self)@,
                        })
                    },
                    Err(e) => permitted && sections == Err::<Sections, E>(e) && final(self)@ == old(self)@,
                }
            }),
    {
        match sections {
            Err(e) => self.cursor.import(own, incoming, policy, Err(e)),
            Ok(s) => {
                let report = self.cursor.import(own, incoming, policy, Ok(()))?;
                if report.applied {
                    self.definition = s.definition;
                    self.rows = s.rows;
                }
                Ok(report)
            },
        }
    }
}

/// An instance that is taken back to an earlier point of its lineage and forward to
/// where it was is at its point again, with the definition and the rows that the later
/// artifact carries.
pub proof fn law_back_and_forth(
    instance: InstanceView,
    earlier: PointView,
    policy: Seq<ImportRelation>,
    definition: Seq<char>,
    rows: StateView,
    later_definition: Seq<char>,
    later_rows: StateView,
)
    requires
        descends(instance.cursor),
        ordered(instance.cursor),
        instance.cursor.point < u64::MAX,
        relation_of(instance.cursor, earlier) == ImportRelation::Rollback,
        earlier.lineage == instance.cursor.active.lineage,
        policy.contains(ImportRelation::Rollback),
        policy.contains(ImportRelation::FastForward),
    ensures
        ({
            let back = imported(instance, true, earlier, policy, definition, rows);
            let here = point_of(instance.cursor);
            let forth = imported(back, true, here, policy, later_definition, later_rows);
            &&& back.rows == rows
            &&& back.definition == definition
            &&& relation_of(back.cursor, earlier) == ImportRelation::SamePoint
            &&& forth.rows == later_rows
            &&& forth.definition == later_definition
            &&& relation_of(forth.cursor, here) == ImportRelation::SamePoint
            &&& forth.cursor.next >= instance.cursor.next
        }),
{
    let back = imported(instance, true, earlier, policy, definition, rows);
    let here = point_of(instance.cursor);
    law_rollback(instance.cursor, earlier);
    law_position_numeral(instance.cursor.point);
    assert(relation_of(back.cursor, here) == ImportRelation::FastForward);
    law_fast_forward(back.cursor, here);
}

} // verus!
