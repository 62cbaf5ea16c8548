//! The position of an instance in its own history.
//!
//! A history point is a lineage and a position within it. A cursor holds the current
//! point, the lineages it descends through, and the next position to hand out, so
//! that a point keeps its identity across an export, a restore, and a rollback.

use crate::history::{import_decision, is_movement, ImportRelation, ImportReport};
use crate::order::Duplicate;
use crate::text::{
    concat, concat3, law_position_numeral, numeral, parse_position, position_of, render_number, same_text,
};
use vstd::prelude::*;

verus! {

/// One retained state of an instance: a lineage, and a position within it.
#[derive(Debug)]
pub struct HistoryPoint {
    pub lineage: String,
    pub point: String,
}

/// What a [`HistoryPoint`] denotes.
#[verifier::ext_equal]
pub struct PointView {
    pub lineage: Seq<char>,
    pub point: Seq<char>,
}

impl View for HistoryPoint {
    type V = PointView;

    open spec fn view(&self) -> PointView {
        PointView { lineage: self.lineage@, point: self.point@ }
    }
}

/// One lineage of an instance, and the position on its parent that it branched from;
/// the lineage that starts at genesis has none.
#[derive(Debug)]
pub struct Link {
    pub lineage: String,
    pub origin: Option<u64>,
}

/// What a [`Link`] denotes.
#[verifier::ext_equal]
pub struct LinkView {
    pub lineage: Seq<char>,
    pub origin: Option<u64>,
}

impl View for Link {
    type V = LinkView;

    open spec fn view(&self) -> LinkView {
        LinkView { lineage: self.lineage@, origin: self.origin }
    }
}

impl Duplicate for Link {
    fn duplicate(&self) -> (r: Self) {
        Link { lineage: self.lineage.clone(), origin: self.origin }
    }
}

/// What links denote.
pub open spec fn link_views(links: Seq<Link>) -> Seq<LinkView> {
    Seq::new(links.len(), |i: int| links[i]@)
}

/// The position of an instance in its own history.
pub struct HistoryCursor {
    /// The lineages the active one descends through, from the root down.
    ancestors: Vec<Link>,
    active: Link,
    point: u64,
    /// The next position to hand out.
    next: u64,
    /// Whether the current point has a displaced continuation, so that the next
    /// commit starts a new lineage.
    branch_pending: bool,
}

/// What a [`HistoryCursor`] denotes.
#[verifier::ext_equal]
pub struct CursorView {
    pub ancestors: Seq<LinkView>,
    pub active: LinkView,
    pub point: u64,
    pub next: u64,
    pub branch_pending: bool,
}

impl View for HistoryCursor {
    type V = CursorView;

    closed spec fn view(&self) -> CursorView {
        CursorView {
            ancestors: link_views(self.ancestors@),
            active: self.active@,
            point: self.point,
            next: self.next,
            branch_pending: self.branch_pending,
        }
    }
}

/// The first position of an instance.
pub const GENESIS_POINT: u64 = 1;

/// The lineages of a cursor, from the root down, the active one last.
pub open spec fn chain(c: CursorView) -> Seq<LinkView> {
    c.ancestors.push(c.active)
}

/// Whether the lineages of a cursor form one line of descent: only the first starts
/// at genesis, and each name is longer than the one before it.
pub open spec fn descends(c: CursorView) -> bool {
    &&& forall|i: int| 0 <= i < chain(c).len() ==> ((#[trigger] chain(c)[i]).origin is None <==> i == 0)
    &&& forall|i: int, j: int|
        0 <= i < j < chain(c).len() ==> (#[trigger] chain(c)[i]).lineage.len() < (#[trigger] chain(c)[j]).lineage.len()
}

/// Whether every position the cursor knows is behind the next one.
pub open spec fn ordered(c: CursorView) -> bool {
    &&& c.point < c.next
    &&& forall|i: int|
        0 <= i < chain(c).len() && (#[trigger] chain(c)[i]).origin is Some ==> chain(c)[i].origin->0 < c.next
}

/// The point a cursor is at.
pub open spec fn point_of(c: CursorView) -> PointView {
    PointView { lineage: c.active.lineage, point: numeral(c.point as nat) }
}

/// The cursor of a new instance.
pub open spec fn genesis_cursor(instance: Seq<char>) -> CursorView {
    CursorView {
        ancestors: Seq::empty(),
        active: LinkView { lineage: instance + "#L0"@, origin: None },
        point: GENESIS_POINT,
        next: 2,
        branch_pending: false,
    }
}

/// A cursor that continues on a new lineage, branched from the current point.
pub open spec fn branched(c: CursorView, lineage: Seq<char>) -> CursorView {
    CursorView {
        ancestors: c.ancestors.push(c.active),
        active: LinkView { lineage, origin: Some(c.point) },
        branch_pending: false,
        ..c
    }
}

/// A cursor on the next position.
pub open spec fn stepped(c: CursorView) -> CursorView {
    CursorView { point: c.next, next: (c.next + 1) as u64, ..c }
}

/// The lineage a continuation after a rollback starts.
pub open spec fn branch_name(prior: Seq<char>, seat: u64) -> Seq<char> {
    prior + "#b"@ + numeral(seat as nat)
}

/// The lineage a reconciliation starts.
pub open spec fn reconciled_name(prior: Seq<char>, seat: u64) -> Seq<char> {
    prior + "#m"@ + numeral(seat as nat)
}

/// A cursor after a commit: on the next position, and on a new lineage where the
/// current point has a displaced continuation.
pub open spec fn advanced(c: CursorView) -> CursorView {
    stepped(
        if c.branch_pending {
            branched(c, branch_name(c.active.lineage, c.next))
        } else {
            c
        },
    )
}

/// A cursor after a reconciliation: on the next position of a lineage of its own.
pub open spec fn reconciled(c: CursorView) -> CursorView {
    stepped(branched(c, reconciled_name(c.active.lineage, c.next)))
}

/// A cursor moved forward to an incoming point.
pub open spec fn forwarded(c: CursorView, incoming: PointView) -> CursorView {
    match position_of(incoming.point) {
        Some(p) => CursorView {
            point: p,
            next: if c.next >= p + 1 {
                c.next
            } else {
                (p + 1) as u64
            },
            branch_pending: false,
            ..c
        },
        None => c,
    }
}

/// The first link of this lineage.
pub open spec fn link_index(links: Seq<LinkView>, lineage: Seq<char>) -> Option<int>
    decreases links.len(),
{
    if links.len() == 0 {
        None
    } else {
        match link_index(links.drop_last(), lineage) {
            Some(i) => Some(i),
            None => if links.last().lineage == lineage {
                Some(links.len() - 1)
            } else {
                None
            },
        }
    }
}

/// A cursor moved back to an incoming point: on the lineage of that point, where the
/// instance descends through it, and with its continuation displaced.
pub open spec fn rolled_back(c: CursorView, incoming: PointView) -> CursorView {
    match position_of(incoming.point) {
        None => c,
        Some(p) => {
            let moved = if incoming.lineage != c.active.lineage {
                match link_index(c.ancestors, incoming.lineage) {
                    Some(i) => CursorView { ancestors: c.ancestors.take(i), active: c.ancestors[i], ..c },
                    None => c,
                }
            } else {
                c
            };
            CursorView { point: p, branch_pending: true, ..moved }
        },
    }
}

/// The position at which the line of descent leaves an ancestor.
pub open spec fn leaves_at(c: CursorView, i: int) -> u64 {
    match chain(c)[i + 1].origin {
        Some(p) => p,
        None => c.point,
    }
}

/// How an incoming point relates to the history a cursor knows.
pub open spec fn relation_of(c: CursorView, incoming: PointView) -> ImportRelation {
    match position_of(incoming.point) {
        None => ImportRelation::Unrelated,
        Some(p) => if incoming.lineage == c.active.lineage {
            if p == c.point {
                ImportRelation::SamePoint
            } else if p < c.point {
                ImportRelation::Rollback
            } else {
                ImportRelation::FastForward
            }
        } else {
            match link_index(c.ancestors, incoming.lineage) {
                Some(i) => if p <= leaves_at(c, i) {
                    ImportRelation::Rollback
                } else {
                    ImportRelation::Merge
                },
                None => ImportRelation::Unrelated,
            }
        },
    }
}

/// One lineage of a history index: its origin, and the last position the local side
/// knows.
#[derive(Debug)]
pub struct LineageEntry {
    pub lineage: String,
    pub origin: Option<(String, u64)>,
    pub head: u64,
}

/// What a [`LineageEntry`] denotes.
#[verifier::ext_equal]
pub struct EntryView {
    pub lineage: Seq<char>,
    pub origin: Option<(Seq<char>, u64)>,
    pub head: u64,
}

impl View for LineageEntry {
    type V = EntryView;

    open spec fn view(&self) -> EntryView {
        EntryView {
            lineage: self.lineage@,
            origin: match self.origin {
                Some((parent, p)) => Some((parent@, p)),
                None => None,
            },
            head: self.head,
        }
    }
}

/// What entries denote.
pub open spec fn entry_views(entries: Seq<LineageEntry>) -> Seq<EntryView> {
    Seq::new(entries.len(), |i: int| entries[i]@)
}

/// The entry of the lineage at an index of the chain.
pub open spec fn entry_at(c: CursorView, i: int) -> EntryView {
    EntryView {
        lineage: chain(c)[i].lineage,
        origin: if i > 0 && chain(c)[i].origin is Some {
            Some((chain(c)[i - 1].lineage, chain(c)[i].origin->0))
        } else {
            None
        },
        head: if i + 1 < chain(c).len() {
            leaves_at(c, i)
        } else {
            c.point
        },
    }
}

/// The entries of a cursor's lineages, from the root down.
pub open spec fn entries_of(c: CursorView) -> Seq<EntryView> {
    Seq::new(chain(c).len(), |i: int| entry_at(c, i))
}

fn find_link(links: &Vec<Link>, lineage: &str) -> (r: Option<usize>)
    ensures
        match r {
            Some(i) => i < links@.len() && link_index(link_views(links@), lineage@) == Some(i as int),
            None => link_index(link_views(links@), lineage@) is None,
        },
{
    let ghost all = link_views(links@);
    let mut i: usize = 0;
    proof {
        assert(all.take(0) =~= Seq::<LinkView>::empty());
    }
    while i < links.len()
        invariant
            all == link_views(links@),
            i <= links@.len(),
            link_index(all.take(i as int), lineage@) is None,
        decreases links@.len() - i,
    {
        proof {
            assert(all.take(i + 1).drop_last() =~= all.take(i as int));
            assert(all.take(i + 1).last() == all[i as int]);
        }
        if same_text(links[i].lineage.as_str(), lineage) {
            proof {
                lemma_link_prefix(all, lineage@, i + 1);
            }
            return Some(i);
        }
        i = i + 1;
    }
    proof {
        assert(all.take(i as int) =~= all);
    }
    None
}

proof fn lemma_link_prefix(links: Seq<LinkView>, lineage: Seq<char>, n: int)
    requires
        0 <= n <= links.len(),
        link_index(links.take(n), lineage) is Some,
    ensures
        link_index(links, lineage) == link_index(links.take(n), lineage),
    decreases links.len() - n,
{
    if n == links.len() {
        assert(links.take(n) =~= links);
    } else {
        assert(links.take(n + 1).drop_last() =~= links.take(n));
        lemma_link_prefix(links, lineage, n + 1);
    }
}

impl HistoryCursor {
    /// The cursor of a new instance.
    pub fn genesis(instance: &str) -> (r: HistoryCursor)
        ensures
            r@ == genesis_cursor(instance@),
    {
        let r = HistoryCursor {
            ancestors: Vec::new(),
            active: Link { lineage: concat(instance, "#L0"), origin: None },
            point: GENESIS_POINT,
            next: 2,
            branch_pending: false,
        };
        proof {
            assert(r@.ancestors =~= Seq::<LinkView>::empty());
        }
        r
    }

    /// The point the instance is at.
    pub fn point(&self) -> (r: HistoryPoint)
        ensures
            r@ == point_of(self@),
    {
        HistoryPoint { lineage: self.active.lineage.clone(), point: render_number(self.point as u128) }
    }

    /// Continue on a new lineage, branched from the current point.
    fn branch(&mut self, lineage: String)
        ensures
            final(self)@ == branched(old(self)@, lineage@),
    {
        let ghost before = self@;
        self.ancestors.push(self.active.duplicate());
        self.active = Link { lineage, origin: Some(self.point) };
        self.branch_pending = false;
        proof {
            assert(self@.ancestors =~= before.ancestors.push(before.active));
        }
    }

    /// Take the next position, as a commit does.
    pub fn advance(&mut self)
        requires
            old(self)@.next < u64::MAX,
        ensures
            final(self)@ == advanced(old(self)@),
    {
        if self.branch_pending {
            let seat = render_number(self.next as u128);
            let lineage = concat3(self.active.lineage.as_str(), "#b", seat.as_str());
            self.branch(lineage);
        }
        self.point = self.next;
        self.next = self.next + 1;
    }

    /// Take the next position on a lineage of its own, as a reconciliation does.
    pub fn begin_reconciled(&mut self)
        requires
            old(self)@.next < u64::MAX,
        ensures
            final(self)@ == reconciled(old(self)@),
    {
        let seat = render_number(self.next as u128);
        let lineage = concat3(self.active.lineage.as_str(), "#m", seat.as_str());
        self.branch(lineage);
        self.point = self.next;
        self.next = self.next + 1;
    }

    /// Move forward to an incoming point on the active lineage.
    pub fn apply_fast_forward(&mut self, incoming: &HistoryPoint)
        requires
            position_of(incoming@.point) != Some(u64::MAX),
        ensures
            final(self)@ == forwarded(old(self)@, incoming@),
    {
        if let Some(p) = parse_position(incoming.point.as_str()) {
            self.point = p;
            if self.next < p + 1 {
                self.next = p + 1;
            }
            self.branch_pending = false;
        }
    }

    /// Move back to an incoming point. The next commit starts a new lineage.
    pub fn apply_rollback(&mut self, incoming: &HistoryPoint)
        ensures
            final(self)@ == rolled_back(old(self)@, incoming@),
    {
        let p = match parse_position(incoming.point.as_str()) {
            Some(p) => p,
            None => {
                return;
            },
        };
        let ghost before = self@;
        if !same_text(incoming.lineage.as_str(), self.active.lineage.as_str()) {
            if let Some(i) = find_link(&self.ancestors, incoming.lineage.as_str()) {
                self.active = self.ancestors[i].duplicate();
                self.ancestors.truncate(i);
                proof {
                    assert(self@.ancestors =~= before.ancestors.take(i as int));
                }
            }
        }
        self.point = p;
        self.branch_pending = true;
    }

    /// How an incoming point relates to the history the cursor knows.
    pub fn classify(&self, incoming: &HistoryPoint) -> (r: ImportRelation)
        ensures
            r == relation_of(self@, incoming@),
    {
        let p = match parse_position(incoming.point.as_str()) {
            Some(p) => p,
            None => {
                return ImportRelation::Unrelated;
            },
        };
        if same_text(incoming.lineage.as_str(), self.active.lineage.as_str()) {
            return if p == self.point {
                ImportRelation::SamePoint
            } else if p < self.point {
                ImportRelation::Rollback
            } else {
                ImportRelation::FastForward
            };
        }
        match find_link(&self.ancestors, incoming.lineage.as_str()) {
            Some(i) => {
                let leaves: u64 = self.left_at(i);
                if p <= leaves {
                    ImportRelation::Rollback
                } else {
                    ImportRelation::Merge
                }
            },
            None => ImportRelation::Unrelated,
        }
    }

    /// The position at which the line of descent leaves an ancestor.
    fn left_at(&self, i: usize) -> (r: u64)
        requires
            i < self@.ancestors.len(),
        ensures
            r == leaves_at(self@, i as int),
    {
        let n: usize = self.ancestors.len();
        let origin = if i < n - 1 {
            self.ancestors[i + 1].origin
        } else {
            self.active.origin
        };
        match origin {
            Some(p) => p,
            None => self.point,
        }
    }

    /// The lineages for a history index, from the root down.
    pub fn lineages(&self) -> (r: Vec<LineageEntry>)
        ensures
            entry_views(r@) == entries_of(self@),
    {
        let n: usize = self.ancestors.len();
        let mut r: Vec<LineageEntry> = Vec::new();
        let mut i: usize = 0;
        while i < n
            invariant
                n == self.ancestors@.len(),
                i <= n,
                r@.len() == i,
                forall|j: int| 0 <= j < i ==> (#[trigger] r@[j])@ == entry_at(self@, j),
            decreases n - i,
        {
            let parent = if i > 0 {
                Some(&self.ancestors[i - 1])
            } else {
                None
            };
            r.push(lineage_entry(&self.ancestors[i], parent, self.left_at(i)));
            i = i + 1;
        }
        let parent = if n > 0 {
            Some(&self.ancestors[n - 1])
        } else {
            None
        };
        r.push(lineage_entry(&self.active, parent, self.point));
        proof {
            assert(entry_views(r@) =~= entries_of(self@));
        }
        r
    }
}

fn lineage_entry(link: &Link, parent: Option<&Link>, head: u64) -> (r: LineageEntry)
    ensures
        r@ == (EntryView {
            lineage: link@.lineage,
            origin: match (link@.origin, parent) {
                (Some(p), Some(above)) => Some((above@.lineage, p)),
                _ => None,
            },
            head,
        }),
{
    let origin = match (link.origin, parent) {
        (Some(p), Some(above)) => Some((above.lineage.clone(), p)),
        _ => None,
    };
    LineageEntry { lineage: link.lineage.clone(), origin, head }
}

impl HistoryCursor {
    /// A cursor on a line of descent, at a point.
    pub(crate) fn on(chain: Vec<Link>, active: Link, point: u64) -> (r: HistoryCursor)
        requires
            point < u64::MAX,
        ensures
            r@ == (CursorView {
                ancestors: link_views(chain@),
                active: active@,
                point,
                next: (point + 1) as u64,
                branch_pending: false,
            }),
    {
        HistoryCursor { ancestors: chain, active, point, next: point + 1, branch_pending: false }
    }
}

proof fn lemma_link_found(links: Seq<LinkView>, lineage: Seq<char>)
    ensures
        match link_index(links, lineage) {
            Some(i) => 0 <= i < links.len() && links[i].lineage == lineage && forall|j: int|
                0 <= j < i ==> (#[trigger] links[j]).lineage != lineage,
            None => forall|j: int| 0 <= j < links.len() ==> (#[trigger] links[j]).lineage != lineage,
        },
    decreases links.len(),
{
    if links.len() > 0 {
        lemma_link_found(links.drop_last(), lineage);
        assert forall|j: int| 0 <= j < links.len() - 1 implies #[trigger] links[j] == links.drop_last()[j] by {}
        assert(links.last() == links[links.len() - 1]);
    }
}

/// On one line of descent a lineage has one place.
proof fn lemma_link_place(c: CursorView, i: int)
    requires
        descends(c),
        0 <= i < c.ancestors.len(),
    ensures
        c.ancestors[i].lineage != c.active.lineage,
        link_index(c.ancestors, c.ancestors[i].lineage) == Some(i),
{
    let links = chain(c);
    assert(links[i] == c.ancestors[i]);
    assert(links[links.len() - 1] == c.active);
    lemma_link_found(c.ancestors, c.ancestors[i].lineage);
    let j = link_index(c.ancestors, c.ancestors[i].lineage)->0;
    assert(links[j] == c.ancestors[j]);
}

proof fn lemma_branched(c: CursorView, lineage: Seq<char>)
    requires
        descends(c),
        ordered(c),
        c.active.lineage.len() < lineage.len(),
    ensures
        descends(branched(c, lineage)),
        ordered(branched(c, lineage)),
{
    let d = branched(c, lineage);
    assert(chain(d) =~= chain(c).push(d.active));
    assert(chain(c)[chain(c).len() - 1] == c.active);
    assert forall|i: int, j: int| 0 <= i < j < chain(d).len() implies (#[trigger] chain(d)[i]).lineage.len() < (
    #[trigger] chain(d)[j]).lineage.len() by {
        assert(chain(d)[i] == chain(c)[i]);
        if j < chain(c).len() {
            assert(chain(d)[j] == chain(c)[j]);
        } else if i < chain(c).len() - 1 {
            assert(chain(c)[i].lineage.len() < chain(c)[chain(c).len() - 1].lineage.len());
        }
    }
    assert forall|i: int| 0 <= i < chain(d).len() implies ((#[trigger] chain(d)[i]).origin is None <==> i == 0) by {
        if i < chain(c).len() {
            assert(chain(d)[i] == chain(c)[i]);
        }
    }
    assert forall|i: int| 0 <= i < chain(d).len() && (#[trigger] chain(d)[i]).origin is Some implies chain(
        d,
    )[i].origin->0 < d.next by {
        if i < chain(c).len() {
            assert(chain(d)[i] == chain(c)[i]);
        }
    }
}

/// A new instance starts one line of descent, with every known position behind the
/// next one.
pub proof fn law_genesis(instance: Seq<char>)
    ensures
        descends(genesis_cursor(instance)),
        ordered(genesis_cursor(instance)),
{
}

/// An instance classifies its own point as the same point.
pub proof fn law_own_point(c: CursorView)
    ensures
        relation_of(c, point_of(c)) == ImportRelation::SamePoint,
{
    law_position_numeral(c.point);
}

/// A commit keeps the line of descent, takes a position that was never handed out,
/// and leaves the point before it behind as a rollback target; where the commit
/// starts no new lineage, the point before it sees the new one as its continuation.
pub proof fn law_advance(c: CursorView)
    requires
        descends(c),
        ordered(c),
        c.next < u64::MAX,
    ensures
        descends(advanced(c)),
        ordered(advanced(c)),
        advanced(c).point >= c.next,
        relation_of(advanced(c), point_of(c)) == ImportRelation::Rollback,
        !c.branch_pending ==> relation_of(c, point_of(advanced(c))) == ImportRelation::FastForward,
{
    let d = advanced(c);
    law_position_numeral(c.point);
    law_position_numeral(d.point);
    if c.branch_pending {
        reveal_strlit("#b");
        lemma_branched(c, branch_name(c.active.lineage, c.next));
        lemma_stepped(branched(c, branch_name(c.active.lineage, c.next)));
        lemma_link_place(d, d.ancestors.len() - 1);
        assert(chain(d)[d.ancestors.len() as int] == d.active);
    } else {
        lemma_stepped(c);
    }
}

/// A reconciliation keeps the line of descent, takes a position that was never
/// handed out, and leaves the point before it behind as a rollback target.
pub proof fn law_reconciled(c: CursorView)
    requires
        descends(c),
        ordered(c),
        c.next < u64::MAX,
    ensures
        descends(reconciled(c)),
        ordered(reconciled(c)),
        reconciled(c).point >= c.next,
        reconciled(c).active.lineage != c.active.lineage,
        relation_of(reconciled(c), point_of(c)) == ImportRelation::Rollback,
{
    let d = reconciled(c);
    law_position_numeral(c.point);
    reveal_strlit("#m");
    lemma_branched(c, reconciled_name(c.active.lineage, c.next));
    lemma_stepped(branched(c, reconciled_name(c.active.lineage, c.next)));
    lemma_link_place(d, d.ancestors.len() - 1);
    assert(chain(d)[d.ancestors.len() as int] == d.active);
}

proof fn lemma_stepped(c: CursorView)
    requires
        descends(c),
        ordered(c),
        c.next < u64::MAX,
    ensures
        descends(stepped(c)),
        ordered(stepped(c)),
{
    assert(chain(stepped(c)) == chain(c));
}

/// A point classified as a continuation is the current point once the instance has
/// moved forward to it.
pub proof fn law_fast_forward(c: CursorView, incoming: PointView)
    requires
        descends(c),
        ordered(c),
        relation_of(c, incoming) == ImportRelation::FastForward,
        position_of(incoming.point) != Some(u64::MAX),
    ensures
        relation_of(forwarded(c, incoming), incoming) == ImportRelation::SamePoint,
        descends(forwarded(c, incoming)),
        ordered(forwarded(c, incoming)),
        forwarded(c, incoming).next >= c.next,
{
    assert(chain(forwarded(c, incoming)) == chain(c));
}

proof fn lemma_rolled_back(c: CursorView, incoming: PointView)
    requires
        descends(c),
        ordered(c),
        relation_of(c, incoming) == ImportRelation::Rollback,
    ensures
        rolled_back(c, incoming).active.lineage == incoming.lineage,
        descends(rolled_back(c, incoming)),
        ordered(rolled_back(c, incoming)),
{
    let d = rolled_back(c, incoming);
    if incoming.lineage == c.active.lineage {
        assert(chain(d) == chain(c));
    } else {
        lemma_link_found(c.ancestors, incoming.lineage);
        let i = link_index(c.ancestors, incoming.lineage)->0;
        assert(chain(d) =~= chain(c).take(i + 1));
        assert forall|k: int| 0 <= k < chain(d).len() implies #[trigger] chain(d)[k] == chain(c)[k] by {}
        assert(chain(c)[i + 1].origin is Some);
    }
}

/// A point classified as a rollback target is the current point once the instance
/// has moved back to it. No position is handed out again.
pub proof fn law_rollback(c: CursorView, incoming: PointView)
    requires
        descends(c),
        ordered(c),
        relation_of(c, incoming) == ImportRelation::Rollback,
    ensures
        relation_of(rolled_back(c, incoming), incoming) == ImportRelation::SamePoint,
        descends(rolled_back(c, incoming)),
        ordered(rolled_back(c, incoming)),
        rolled_back(c, incoming).next == c.next,
{
    lemma_rolled_back(c, incoming);
}

/// A commit after a rollback starts a new lineage from the selected point. The head
/// it displaced on that lineage is then a diverged one, and the selected point a
/// rollback target.
pub proof fn law_divergence(c: CursorView, incoming: PointView)
    requires
        descends(c),
        ordered(c),
        c.next < u64::MAX,
        relation_of(c, incoming) == ImportRelation::Rollback,
    ensures
        ({
            let d = advanced(rolled_back(c, incoming));
            &&& d.active.lineage != incoming.lineage
            &&& relation_of(d, incoming) == ImportRelation::Rollback
            &&& incoming.lineage == c.active.lineage ==> relation_of(d, point_of(c)) == ImportRelation::Merge
        }),
{
    lemma_rolled_back(c, incoming);
    let r = rolled_back(c, incoming);
    let d = advanced(r);
    law_position_numeral(c.point);
    law_advance(r);
    lemma_link_place(d, d.ancestors.len() - 1);
    assert(chain(d)[d.ancestors.len() as int] == d.active);
}

/// How an artifact relates to a history: one of another instance does not.
pub open spec fn artifact_relation(c: CursorView, own: bool, incoming: PointView) -> ImportRelation {
    if own {
        relation_of(c, incoming)
    } else {
        ImportRelation::Unrelated
    }
}

/// A history after a movement to another of its points.
pub open spec fn moved_to(c: CursorView, relation: ImportRelation, incoming: PointView) -> CursorView {
    match relation {
        ImportRelation::FastForward => forwarded(c, incoming),
        ImportRelation::Rollback => rolled_back(c, incoming),
        _ => c,
    }
}

impl HistoryCursor {
    /// Tell how an artifact relates to this history, given whether it is of this
    /// instance.
    pub fn classify_artifact(&self, own: bool, incoming: &HistoryPoint) -> (r: ImportRelation)
        ensures
            r == artifact_relation(self@, own, incoming@),
    {
        if own {
            self.classify(incoming)
        } else {
            ImportRelation::Unrelated
        }
    }

    /// Import an artifact under a policy: a movement the policy permits is made once the
    /// incoming point has been reinstalled. Where that fails, the history stays.
    pub fn import<E>(
        &mut self,
        own: bool,
        incoming: &HistoryPoint,
        policy: &Vec<ImportRelation>,
        reinstalled: Result<(), E>,
    ) -> (r: Result<ImportReport, E>)
        requires
            ({
                let relation = artifact_relation(old(self)@, own, incoming@);
                relation == ImportRelation::FastForward && policy@.contains(relation) ==> position_of(incoming@.point)
                    != Some(u64::MAX)
            }),
        ensures
            ({
                let relation = artifact_relation(old(self)@, own, incoming@);
                let permitted = is_movement(relation) && policy@.contains(relation);
                match r {
                    Ok(report) => {
                        &&& report.relation == relation
                        &&& report.applied == permitted
                        &&& permitted ==> reinstalled is Ok
                        &&& final(self)@ == (if permitted {
                            moved_to(old(self)@, relation, incoming@)
                        } else {
                            old(self)@
                        })
                    },
                    Err(e) => permitted && reinstalled == Err::<(), E>(e) && final(self)@ == old(self)@,
                }
            }),
    {
        let relation = self.classify_artifact(own, incoming);
        let report = import_decision(relation, policy);
        if report.applied {
            if let Err(e) = reinstalled {
                return Err(e);
            }
            match relation {
                ImportRelation::FastForward => self.apply_fast_forward(incoming),
                ImportRelation::Rollback => self.apply_rollback(incoming),
                _ => {},
            }
        }
        Ok(report)
    }
}

/// An import that is no movement leaves the history where it is, whatever the policy
/// permits.
pub proof fn law_no_movement(c: CursorView, own: bool, incoming: PointView)
    requires
        !is_movement(artifact_relation(c, own, incoming)),
    ensures
        moved_to(c, artifact_relation(c, own, incoming), incoming) == c,
{
}

} // verus!
