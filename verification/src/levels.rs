//! The levels a meter is enforced at: their identity, and the pools open to a spend at
//! them.

use crate::cell::{Row, RowId};
use crate::funding::{pool_views, Pool, PoolView};
use crate::meter::CompiledMeter;
use crate::order::Duplicate;
use crate::pools::{
    candidates_keyed, collect_intervals, drawn, index_view, intervals_in, resolve_pools, sources_resolved, Interval,
    SourceWork,
};
use crate::patch::IdView;
use crate::rejection::{Rejection, RejectionView};
use crate::text::concat3;
use crate::time::Timestamp;
use vstd::prelude::*;

verus! {

/// The identity of an enforcing level: the rendered address of its row and the name of
/// its meter.
pub open spec fn level_text(rendered: Seq<char>, meter: Seq<char>) -> Seq<char> {
    rendered + "\0"@ + meter
}

/// The row of an enforcing level as it can be read: the row itself, the intervals of
/// the pool rows that are derived outside of it, and what each source gave.
pub struct LevelRow {
    pub row: Row,
    pub derived: Vec<(RowId, Interval)>,
    pub sources: Vec<SourceWork>,
}

/// What evaluation came to for an enforcing level: the rendered address of its row,
/// and the row where it can be read.
pub struct LevelWork {
    pub rendered: String,
    pub row: Option<LevelRow>,
}

/// Whether there is evaluation work for each source of a meter, with a key for each
/// direction its pools are ordered by.
pub open spec fn sources_fit(meter: CompiledMeter, sources: Seq<SourceWork>) -> bool {
    &&& sources.len() == meter.sources@.len()
    &&& forall|i: int|
        0 <= i < sources.len() ==> (#[trigger] sources[i]).label@ == meter.sources@[i].label@
            && sources[i].has_quantity == meter.sources@[i].has_quantity
    &&& candidates_keyed(sources, meter.order@.len())
}

/// Whether there is evaluation work for each source of a meter at a level that can be
/// read.
pub open spec fn level_ready(meter: CompiledMeter, work: LevelWork) -> bool {
    work.row matches Some(level) ==> sources_fit(meter, level.sources@)
}

/// The directions the pools of a meter are ordered by.
pub open spec fn directions(meter: CompiledMeter) -> Seq<bool> {
    Seq::new(meter.order@.len(), |i: int| meter.order@[i].descending)
}

/// The intervals of the pool rows of a level: those of the rows in its row, and then
/// those that are derived.
pub open spec fn level_index(level: LevelRow) -> Seq<(IdView, Interval)> {
    intervals_in(level.row@) + index_view(level.derived@)
}

/// The pools open at a level at an instant, in the order they are drawn from; none
/// where the row of the level cannot be read.
pub open spec fn open_at(meter: CompiledMeter, work: LevelWork, time: Timestamp) -> Result<Seq<PoolView>, RejectionView> {
    match work.row {
        None => Ok(Seq::empty()),
        Some(level) => match sources_resolved(
            meter.name@,
            level.sources@,
            level_index(level),
            time,
            level.sources@.len() as int,
        ) {
            Err(e) => Err(e),
            Ok(v) => Ok(drawn(v.pools, directions(meter))),
        },
    }
}

impl CompiledMeter {
    /// The identity of an enforcing level of this meter.
    pub fn level_id(&self, rendered: &str) -> (r: String)
        ensures
            r@ == level_text(rendered@, self.name@),
    {
        concat3(rendered, "\0", self.name.as_str())
    }

    fn descending(&self) -> (r: Vec<bool>)
        ensures
            r@ == directions(*self),
    {
        let mut r: Vec<bool> = Vec::new();
        let mut i: usize = 0;
        while i < self.order.len()
            invariant
                i <= self.order@.len(),
                r@ == directions(*self).take(i as int),
            decreases self.order@.len() - i,
        {
            r.push(self.order[i].descending);
            i = i + 1;
        }
        proof {
            assert(directions(*self).take(i as int) =~= directions(*self));
        }
        r
    }

    /// Resolve the pools open at a level of this meter at an instant.
    pub fn pools_at(&self, work: &LevelWork, time: Timestamp) -> (r: Result<Vec<Pool>, Rejection>)
        requires
            level_ready(*self, *work),
        ensures
            match (r, open_at(*self, *work, time)) {
                (Ok(pools), Ok(all)) => pool_views(pools@) == all,
                (Err(e), Err(x)) => e@ == x,
                _ => false,
            },
    {
        match &work.row {
            None => {
                let none: Vec<Pool> = Vec::new();
                proof {
                    assert(pool_views(none@) =~= Seq::<PoolView>::empty());
                }
                Ok(none)
            },
            Some(level) => {
                let mut index: Vec<(RowId, Interval)> = Vec::new();
                proof {
                    assert(index_view(index@) =~= Seq::<(IdView, Interval)>::empty());
                }
                collect_intervals(&level.row, &mut index);
                let ghost own = index_view(index@);
                let ghost derived = index_view(level.derived@);
                let mut i: usize = 0;
                proof {
                    assert(own =~= intervals_in(level.row@));
                    assert(own + derived.take(0) =~= own);
                }
                while i < level.derived.len()
                    invariant
                        i <= level.derived@.len(),
                        derived == index_view(level.derived@),
                        index_view(index@) == own + derived.take(i as int),
                    decreases level.derived@.len() - i,
                {
                    let ghost before = index_view(index@);
                    index.push((level.derived[i].0.duplicate(), level.derived[i].1));
                    proof {
                        assert(index_view(index@) =~= before.push(derived[i as int]));
                        assert(own + derived.take(i + 1) =~= (own + derived.take(i as int)).push(derived[i as int]));
                    }
                    i = i + 1;
                }
                proof {
                    assert(derived.take(i as int) =~= derived);
                }
                let descending = self.descending();
                resolve_pools(self.name.as_str(), &level.sources, &index, time, &descending)
            },
        }
    }
}

} // verus!
