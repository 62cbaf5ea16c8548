//! Key rings as readers see them: a row of metadata for each version, and which of
//! them are current and accepted. And the policy a definition declares for a ring.

use crate::address::KeyValue;
use crate::cell::{cell_views, copy_row, lemma_row, row_views, Cell, CellView, Row, RowId, RowView};
use crate::doc::{member, member_of, string, text_of, Doc};
use crate::integer::Integer;
use crate::keyring::{
    first_in, in_order, is_accepted, KeyOperation, KeyState, KeyVersion, KeyringPolicy, PolicyView, ProtectionClass,
    Ring, RingView, RotationMode, RotationSchedule, VersionId, VersionView,
};
use crate::patch::{same_id, IdView};
use crate::text::{concat3, law_numeral, numeral, render_number, same_text};
use crate::time::{Duration, Timestamp};
use crate::value::{copy_value, Value, ValueView};
use vstd::prelude::*;

verus! {

/// The identity of a version's row: the name of the ring and the ordinal.
pub open spec fn version_row_id(name: Seq<char>, id: u64) -> IdView {
    seq![seq![ValueView::Text(name + "#v"@ + numeral(id as nat))]]
}

/// The ordinal of a version as a value, within the range of ordinals readers see.
pub open spec fn ordinal_value(id: u64) -> ValueView {
    ValueView::Int(
        if id <= i64::MAX {
            id as int
        } else {
            i64::MAX as int
        },
    )
}

/// An instant as a cell; one that has not come is absent.
pub open spec fn instant_cell(at: Option<Timestamp>) -> CellView {
    CellView::Scalar(
        match at {
            Some(t) => ValueView::Timestamp(t),
            None => ValueView::Absent,
        },
    )
}

/// The row of a version: what may be shown of it.
pub open spec fn version_row(name: Seq<char>, v: VersionView) -> RowView {
    RowView {
        id: version_row_id(name, v.id),
        key: ordinal_value(v.id),
        cells: seq![
            ("id"@, CellView::Scalar(ordinal_value(v.id))),
            ("algorithm"@, CellView::Scalar(ValueView::Text(v.algorithm))),
            ("public_key"@, CellView::Scalar(v.public_key)),
            ("created_at"@, CellView::Scalar(ValueView::Timestamp(v.created_at))),
            ("activated_at"@, instant_cell(v.activated_at)),
            ("retired_at"@, instant_cell(v.retired_at)),
            ("revoked_at"@, instant_cell(v.revoked_at)),
            (
                "attestation"@,
                CellView::Scalar(
                    match v.attestation {
                        Some(a) => a,
                        None => ValueView::Absent,
                    },
                ),
            ),
        ],
    }
}

/// The rows of a ring's versions, in order.
pub open spec fn version_rows(ring: RingView) -> Seq<RowView> {
    Seq::new(ring.versions.len(), |i: int| version_row(ring.name, ring.versions[i]))
}

/// A ring's versions at an instant: their rows, and the identities of the current and
/// of the accepted ones.
pub struct KeyringSnapshot {
    pub name: String,
    pub rows: Vec<Row>,
    pub active: Vec<RowId>,
    pub accepted: Vec<RowId>,
}

/// What identities denote.
pub open spec fn id_views(ids: Seq<RowId>) -> Seq<IdView> {
    Seq::new(ids.len(), |i: int| ids[i]@)
}

/// The identities of rows.
pub open spec fn row_ids(rows: Seq<RowView>) -> Seq<IdView> {
    Seq::new(rows.len(), |i: int| rows[i].id)
}

/// The identity of the active version, where there is one.
pub open spec fn active_ids(ring: RingView) -> Seq<IdView> {
    match first_in(ring.versions, KeyState::Active) {
        Some(i) => seq![version_row_id(ring.name, ring.versions[i].id)],
        None => Seq::empty(),
    }
}

/// The identities of the first `n` versions that are accepted at an instant.
pub open spec fn accepted_ids(ring: RingView, now: Timestamp, n: int) -> Seq<IdView>
    decreases n,
{
    if n <= 0 {
        Seq::empty()
    } else if is_accepted(ring.policy, ring.versions[n - 1], now) {
        accepted_ids(ring, now, n - 1).push(version_row_id(ring.name, ring.versions[n - 1].id))
    } else {
        accepted_ids(ring, now, n - 1)
    }
}

/// The rows with one of these identities, in order.
pub open spec fn rows_with(rows: Seq<RowView>, ids: Seq<IdView>) -> Seq<RowView>
    decreases rows.len(),
{
    if rows.len() == 0 {
        Seq::empty()
    } else if ids.contains(rows.last().id) {
        rows_with(rows.drop_last(), ids).push(rows.last())
    } else {
        rows_with(rows.drop_last(), ids)
    }
}

/// Whether two rows of identities hold the same ones.
pub open spec fn same_identities(a: Seq<IdView>, b: Seq<IdView>) -> bool {
    forall|id: IdView| #[trigger] a.contains(id) <==> b.contains(id)
}

fn row_id(name: &str, id: VersionId) -> (r: RowId)
    ensures
        r@ == version_row_id(name@, id.0),
{
    let ordinal = render_number(id.0 as u128);
    let text = concat3(name, "#v", ordinal.as_str());
    let mut keys: Vec<KeyValue> = Vec::new();
    keys.push(KeyValue::single(Value::Text(text)));
    let r = RowId { keys };
    proof {
        assert(r@ =~= version_row_id(name@, id.0));
    }
    r
}

fn ordinal(id: VersionId) -> (r: Value)
    ensures
        r@ == ordinal_value(id.0),
{
    if id.0 <= 0x7fff_ffff_ffff_ffff {
        Value::Int(Integer::of(id.0 as i128))
    } else {
        Value::Int(Integer::of(0x7fff_ffff_ffff_ffff))
    }
}

fn instant(at: Option<Timestamp>) -> (r: Cell)
    ensures
        r@ == instant_cell(at),
{
    match at {
        Some(t) => Cell::Scalar(Value::Timestamp(t)),
        None => Cell::Scalar(Value::Absent),
    }
}

fn render_version(name: &str, v: &KeyVersion) -> (r: Row)
    ensures
        r@ == version_row(name@, v@),
{
    let attestation = match &v.attestation {
        Some(a) => copy_value(a),
        None => Value::Absent,
    };
    let mut cells: Vec<(String, Cell)> = Vec::new();
    cells.push((String::from_str("id"), Cell::Scalar(ordinal(v.id))));
    cells.push((String::from_str("algorithm"), Cell::Scalar(Value::Text(v.algorithm.clone()))));
    cells.push((String::from_str("public_key"), Cell::Scalar(copy_value(&v.public_key))));
    cells.push((String::from_str("created_at"), Cell::Scalar(Value::Timestamp(v.created_at))));
    cells.push((String::from_str("activated_at"), instant(v.activated_at)));
    cells.push((String::from_str("retired_at"), instant(v.retired_at)));
    cells.push((String::from_str("revoked_at"), instant(v.revoked_at)));
    cells.push((String::from_str("attestation"), Cell::Scalar(attestation)));
    let r = Row { id: row_id(name, v.id), key: ordinal(v.id), cells };
    proof {
        lemma_row(r);
        assert(cell_views(cells@) =~= version_row(name@, v@).cells);
    }
    r
}

fn holds_id(ids: &Vec<RowId>, id: &RowId) -> (r: bool)
    ensures
        r == id_views(ids@).contains(id@),
{
    let ghost all = id_views(ids@);
    let mut i: usize = 0;
    while i < ids.len()
        invariant
            all == id_views(ids@),
            i <= ids@.len(),
            forall|j: int| 0 <= j < i ==> #[trigger] all[j] != id@,
        decreases ids@.len() - i,
    {
        if same_id(&ids[i], id) {
            proof {
                assert(all[i as int] == id@);
            }
            return true;
        }
        i = i + 1;
    }
    false
}

/// Whether each of these rows has an identity another row of these has.
fn all_ids_among(rows: &Vec<Row>, others: &Vec<Row>) -> (r: bool)
    ensures
        r == (forall|id: IdView| #[trigger]
            row_ids(row_views(rows@)).contains(id) ==> row_ids(row_views(others@)).contains(id)),
{
    let ghost own = row_ids(row_views(rows@));
    let ghost among = row_ids(row_views(others@));
    let mut i: usize = 0;
    while i < rows.len()
        invariant
            own == row_ids(row_views(rows@)),
            among == row_ids(row_views(others@)),
            i <= rows@.len(),
            forall|j: int| 0 <= j < i ==> among.contains(#[trigger] own[j]),
        decreases rows@.len() - i,
    {
        let mut found = false;
        let mut k: usize = 0;
        while k < others.len() && !found
            invariant
                among == row_ids(row_views(others@)),
                own == row_ids(row_views(rows@)),
                i < rows@.len(),
                k <= others@.len(),
                found ==> among.contains(own[i as int]),
                !found ==> forall|j: int| 0 <= j < k ==> #[trigger] among[j] != own[i as int],
            decreases others@.len() - k,
        {
            proof {
                lemma_row(others@[k as int]);
                lemma_row(rows@[i as int]);
            }
            if same_id(&others[k].id, &rows[i].id) {
                proof {
                    assert(among[k as int] == own[i as int]);
                }
                found = true;
            }
            k = k + 1;
        }
        if !found {
            proof {
                assert(own.contains(own[i as int]));
                assert(!among.contains(own[i as int]));
            }
            return false;
        }
        i = i + 1;
    }
    true
}

impl KeyringSnapshot {
    /// A ring's versions at an instant.
    pub fn of(ring: &Ring, now: Timestamp) -> (r: KeyringSnapshot)
        ensures
            r.name@ == ring@.name,
            row_views(r.rows@) == version_rows(ring@),
            id_views(r.active@) == active_ids(ring@),
            id_views(r.accepted@) == accepted_ids(ring@, now, ring@.versions.len() as int),
    {
        let name = ring.name.as_str();
        let ghost versions = ring@.versions;
        let mut rows: Vec<Row> = Vec::new();
        let mut accepted: Vec<RowId> = Vec::new();
        let mut i: usize = 0;
        proof {
            assert(id_views(accepted@) =~= Seq::<IdView>::empty());
        }
        while i < ring.versions.len()
            invariant
                versions == ring@.versions,
                name@ == ring@.name,
                i <= ring.versions@.len(),
                rows@.len() == i,
                forall|j: int| 0 <= j < i ==> (#[trigger] rows@[j])@ == version_row(name@, versions[j]),
                id_views(accepted@) == accepted_ids(ring@, now, i as int),
            decreases ring.versions@.len() - i,
        {
            let ghost before = id_views(accepted@);
            rows.push(render_version(name, &ring.versions[i]));
            if ring.accepts(&ring.versions[i], now) {
                accepted.push(row_id(name, ring.versions[i].id));
                proof {
                    assert(id_views(accepted@) =~= before.push(version_row_id(name@, versions[i as int].id)));
                }
            }
            i = i + 1;
        }
        let mut active: Vec<RowId> = Vec::new();
        if let Some(v) = ring.current() {
            active.push(row_id(name, v.id));
        }
        proof {
            assert(id_views(active@) =~= active_ids(ring@));
            assert(row_views(rows@) =~= version_rows(ring@));
        }
        KeyringSnapshot { name: ring.name.clone(), rows, active, accepted }
    }

    /// Whether these rows are exactly the ring's versions.
    fn matches(&self, base: &Vec<Row>) -> (r: bool)
        ensures
            r == same_identities(row_ids(row_views(base@)), row_ids(row_views(self.rows@))),
    {
        all_ids_among(base, &self.rows) && all_ids_among(&self.rows, base)
    }

    fn subset(&self, ids: &Vec<RowId>) -> (r: Vec<Row>)
        ensures
            row_views(r@) == rows_with(row_views(self.rows@), id_views(ids@)),
    {
        let ghost all = row_views(self.rows@);
        let mut r: Vec<Row> = Vec::new();
        let mut i: usize = 0;
        proof {
            assert(all.take(0) =~= Seq::<RowView>::empty());
            assert(row_views(r@) =~= Seq::<RowView>::empty());
        }
        while i < self.rows.len()
            invariant
                all == row_views(self.rows@),
                i <= self.rows@.len(),
                row_views(r@) == rows_with(all.take(i as int), id_views(ids@)),
            decreases self.rows@.len() - i,
        {
            let ghost before = row_views(r@);
            proof {
                assert(all.take(i + 1).drop_last() =~= all.take(i as int));
                assert(all.take(i + 1).last() == self.rows@[i as int]@);
                lemma_row(self.rows@[i as int]);
            }
            if holds_id(ids, &self.rows[i].id) {
                r.push(copy_row(&self.rows[i]));
                proof {
                    assert(row_views(r@) =~= before.push(self.rows@[i as int]@));
                }
            }
            i = i + 1;
        }
        proof {
            assert(all.take(i as int) =~= all);
        }
        r
    }

    /// The row of the active version.
    pub fn current(&self) -> (r: Vec<Row>)
        ensures
            row_views(r@) == rows_with(row_views(self.rows@), id_views(self.active@)),
    {
        self.subset(&self.active)
    }

    /// The rows of the accepted versions.
    pub fn accepted_rows(&self) -> (r: Vec<Row>)
        ensures
            row_views(r@) == rows_with(row_views(self.rows@), id_views(self.accepted@)),
    {
        self.subset(&self.accepted)
    }
}

/// The first snapshot whose versions are exactly these rows.
pub open spec fn snapshot_of(snapshots: Seq<KeyringSnapshot>, base: Seq<RowView>) -> Option<KeyringSnapshot>
    decreases snapshots.len(),
{
    if snapshots.len() == 0 {
        None
    } else if same_identities(row_ids(base), row_ids(row_views(snapshots[0].rows@))) {
        Some(snapshots[0])
    } else {
        snapshot_of(snapshots.drop_first(), base)
    }
}

/// Find the snapshot whose versions are exactly these rows.
pub fn snapshot_for<'a>(snapshots: &'a Vec<KeyringSnapshot>, base: &Vec<Row>) -> (r: Option<&'a KeyringSnapshot>)
    ensures
        match r {
            Some(s) => snapshot_of(snapshots@, row_views(base@)) == Some(*s),
            None => snapshot_of(snapshots@, row_views(base@)) is None,
        },
{
    let mut i: usize = 0;
    proof {
        assert(snapshots@.skip(0) =~= snapshots@);
    }
    while i < snapshots.len()
        invariant
            i <= snapshots@.len(),
            snapshot_of(snapshots@, row_views(base@)) == snapshot_of(snapshots@.skip(i as int), row_views(base@)),
        decreases snapshots@.len() - i,
    {
        if snapshots[i].matches(base) {
            return Some(&snapshots[i]);
        }
        proof {
            assert(snapshots@.skip(i as int).drop_first() =~= snapshots@.skip(i + 1));
        }
        i = i + 1;
    }
    None
}

proof fn lemma_distinct_ids(name: Seq<char>, a: u64, b: u64)
    requires
        version_row_id(name, a) == version_row_id(name, b),
    ensures
        a == b,
{
    let x = version_row_id(name, a)[0][0];
    let y = version_row_id(name, b)[0][0];
    assert(x == y);
    let prefix = name + "#v"@;
    let s = prefix + numeral(a as nat);
    let t = prefix + numeral(b as nat);
    assert(s == t);
    assert(s.skip(prefix.len() as int) =~= numeral(a as nat));
    assert(t.skip(prefix.len() as int) =~= numeral(b as nat));
    law_numeral(a as nat);
    law_numeral(b as nat);
}

proof fn lemma_accepted_ids(ring: RingView, now: Timestamp, n: int, i: int)
    requires
        in_order(ring),
        0 <= n <= ring.versions.len(),
        0 <= i < ring.versions.len(),
    ensures
        accepted_ids(ring, now, n).contains(version_row_id(ring.name, ring.versions[i].id)) <==> i < n && is_accepted(
            ring.policy,
            ring.versions[i],
            now,
        ),
    decreases n,
{
    if n > 0 {
        lemma_accepted_ids(ring, now, n - 1, i);
        let id = version_row_id(ring.name, ring.versions[i].id);
        let last = version_row_id(ring.name, ring.versions[n - 1].id);
        let before = accepted_ids(ring, now, n - 1);
        let after = accepted_ids(ring, now, n);
        if id == last {
            lemma_distinct_ids(ring.name, ring.versions[i].id, ring.versions[n - 1].id);
            if i < n - 1 {
                assert(ring.versions[i].id < ring.versions[n - 1].id);
            } else if i > n - 1 {
                assert(ring.versions[n - 1].id < ring.versions[i].id);
            }
        }
        if is_accepted(ring.policy, ring.versions[n - 1], now) {
            assert(after[before.len() as int] == last);
            if before.contains(id) {
                let k = choose|k: int| 0 <= k < before.len() && before[k] == id;
                assert(after[k] == id);
            }
            if after.contains(id) && id != last {
                let k = choose|k: int| 0 <= k < after.len() && after[k] == id;
                assert(before[k] == id);
            }
        }
    }
}

/// In a snapshot, a version is among the accepted ones exactly where the ring accepts
/// it at that instant.
pub proof fn law_snapshot_accepted(ring: RingView, now: Timestamp, i: int)
    requires
        in_order(ring),
        0 <= i < ring.versions.len(),
    ensures
        accepted_ids(ring, now, ring.versions.len() as int).contains(version_row_id(ring.name, ring.versions[i].id))
            <==> is_accepted(ring.policy, ring.versions[i], now),
{
    lemma_accepted_ids(ring, now, ring.versions.len() as int, i);
}

/// What reading the durations a ring's declaration writes came to: the one of a
/// schedule written as a bare duration, and those of the members of a schedule and of
/// the declaration.
pub struct DeclaredDurations {
    pub rotate: Option<Duration>,
    pub every: Option<Duration>,
    pub overlap: Option<Duration>,
    pub retain: Option<Duration>,
}

/// The operation a name means.
pub open spec fn operation_of(name: Seq<char>) -> Option<KeyOperation> {
    if name == "sign"@ {
        Some(KeyOperation::Sign)
    } else if name == "verify"@ {
        Some(KeyOperation::Verify)
    } else if name == "decrypt"@ {
        Some(KeyOperation::Decrypt)
    } else if name == "key_agreement"@ || name == "keyAgreement"@ {
        Some(KeyOperation::KeyAgreement)
    } else if name == "wrap"@ {
        Some(KeyOperation::Wrap)
    } else if name == "mac"@ {
        Some(KeyOperation::Mac)
    } else {
        None
    }
}

/// The operation a name means.
fn operation(name: &str) -> (r: Option<KeyOperation>)
    ensures
        r == operation_of(name@),
{
    if same_text(name, "sign") {
        Some(KeyOperation::Sign)
    } else if same_text(name, "verify") {
        Some(KeyOperation::Verify)
    } else if same_text(name, "decrypt") {
        Some(KeyOperation::Decrypt)
    } else if same_text(name, "key_agreement") || same_text(name, "keyAgreement") {
        Some(KeyOperation::KeyAgreement)
    } else if same_text(name, "wrap") {
        Some(KeyOperation::Wrap)
    } else if same_text(name, "mac") {
        Some(KeyOperation::Mac)
    } else {
        None
    }
}

/// The operations a list names, each once.
pub open spec fn operations_in(items: Seq<Doc>) -> Seq<KeyOperation>
    decreases items.len(),
{
    if items.len() == 0 {
        Seq::empty()
    } else {
        let before = operations_in(items.drop_last());
        match text_of(items.last()) {
            Some(name) => match operation_of(name) {
                Some(op) => if before.contains(op) {
                    before
                } else {
                    before.push(op)
                },
                None => before,
            },
            None => before,
        }
    }
}

/// The operations a declaration allows.
pub open spec fn declared_usage(keyring: Doc) -> Seq<KeyOperation> {
    match member_of(keyring, "$usage"@) {
        Some(Doc::List(items)) => operations_in(items@),
        _ => Seq::empty(),
    }
}

/// The schedule a declaration gives: a bare duration rotates automatically without
/// overlap; an object gives the cadence, the overlap, and who drives it.
pub open spec fn declared_schedule(rotate: Doc, durations: DeclaredDurations) -> Option<RotationSchedule> {
    match text_of(rotate) {
        Some(_) => match durations.rotate {
            Some(every) => Some(
                RotationSchedule { every, overlap: Duration { nanos: 0 }, mode: RotationMode::Automatic },
            ),
            None => None,
        },
        None => match (declared_text(rotate, "$every"@), durations.every) {
            (Some(_), Some(every)) => Some(
                RotationSchedule {
                    every,
                    overlap: match (declared_text(rotate, "$overlap"@), durations.overlap) {
                        (Some(_), Some(overlap)) => overlap,
                        _ => Duration { nanos: 0 },
                    },
                    mode: if declared_text(rotate, "$mode"@) == Some("manual"@) {
                        RotationMode::Manual
                    } else {
                        RotationMode::Automatic
                    },
                },
            ),
            _ => None,
        },
    }
}

/// The text of a member of a document.
pub open spec fn declared_text(doc: Doc, name: Seq<char>) -> Option<Seq<char>> {
    match member_of(doc, name) {
        Some(d) => text_of(d),
        None => None,
    }
}

/// The protection a name means.
pub open spec fn protection_of(name: Option<Seq<char>>) -> Option<ProtectionClass> {
    match name {
        Some(name) => if name == "software"@ {
            Some(ProtectionClass::Software)
        } else if name == "hardware"@ {
            Some(ProtectionClass::Hardware)
        } else {
            None
        },
        None => None,
    }
}

/// The policy a declaration gives a ring; none without an algorithm.
pub open spec fn declared_policy(keyring: Doc, durations: DeclaredDurations) -> Option<PolicyView> {
    match declared_text(keyring, "$algorithm"@) {
        None => None,
        Some(algorithm) => Some(
            PolicyView {
                algorithm,
                usage: declared_usage(keyring),
                rotate: match member_of(keyring, "$rotate"@) {
                    Some(rotate) => declared_schedule(rotate, durations),
                    None => None,
                },
                retain: match declared_text(keyring, "$retain"@) {
                    Some(_) => durations.retain,
                    None => None,
                },
                protection: protection_of(declared_text(keyring, "$protection"@)),
            },
        ),
    }
}

fn text_member<'a>(doc: &'a Doc, name: &str) -> (r: Option<&'a String>)
    ensures
        match r {
            Some(t) => declared_text(*doc, name@) == Some(t@),
            None => declared_text(*doc, name@) is None,
        },
{
    match member(doc, name) {
        Some(d) => string(d),
        None => None,
    }
}

fn holds_operation(ops: &Vec<KeyOperation>, op: KeyOperation) -> (r: bool)
    ensures
        r == ops@.contains(op),
{
    let mut i: usize = 0;
    while i < ops.len()
        invariant
            i <= ops@.len(),
            forall|j: int| 0 <= j < i ==> #[trigger] ops@[j] != op,
        decreases ops@.len() - i,
    {
        if ops[i] == op {
            return true;
        }
        i = i + 1;
    }
    false
}

fn read_usage(keyring: &Doc) -> (r: Vec<KeyOperation>)
    ensures
        r@ == declared_usage(*keyring),
{
    let mut r: Vec<KeyOperation> = Vec::new();
    if let Some(Doc::List(items)) = member(keyring, "$usage") {
        let mut i: usize = 0;
        proof {
            assert(items@.take(0) =~= Seq::<Doc>::empty());
        }
        while i < items.len()
            invariant
                i <= items@.len(),
                r@ == operations_in(items@.take(i as int)),
            decreases items@.len() - i,
        {
            proof {
                assert(items@.take(i + 1).drop_last() =~= items@.take(i as int));
                assert(items@.take(i + 1).last() == items@[i as int]);
            }
            if let Some(name) = string(&items[i]) {
                if let Some(op) = operation(name.as_str()) {
                    if !holds_operation(&r, op) {
                        r.push(op);
                    }
                }
            }
            i = i + 1;
        }
        proof {
            assert(items@.take(i as int) =~= items@);
        }
    }
    r
}

fn read_schedule(rotate: &Doc, durations: &DeclaredDurations) -> (r: Option<RotationSchedule>)
    ensures
        r == declared_schedule(*rotate, *durations),
{
    if string(rotate).is_some() {
        return match durations.rotate {
            Some(every) => Some(
                RotationSchedule { every, overlap: Duration { nanos: 0 }, mode: RotationMode::Automatic },
            ),
            None => None,
        };
    }
    let every = match (text_member(rotate, "$every"), durations.every) {
        (Some(_), Some(every)) => every,
        _ => {
            return None;
        },
    };
    let overlap = match (text_member(rotate, "$overlap"), durations.overlap) {
        (Some(_), Some(overlap)) => overlap,
        _ => Duration { nanos: 0 },
    };
    let mode = match text_member(rotate, "$mode") {
        Some(mode) => if same_text(mode.as_str(), "manual") {
            RotationMode::Manual
        } else {
            RotationMode::Automatic
        },
        None => RotationMode::Automatic,
    };
    Some(RotationSchedule { every, overlap, mode })
}

/// Read the policy a declaration gives a ring.
pub fn policy_from_doc(keyring: &Doc, durations: &DeclaredDurations) -> (r: Option<KeyringPolicy>)
    ensures
        match r {
            Some(policy) => declared_policy(*keyring, *durations) == Some(policy@),
            None => declared_policy(*keyring, *durations) is None,
        },
{
    let algorithm = match text_member(keyring, "$algorithm") {
        Some(text) => text.clone(),
        None => {
            return None;
        },
    };
    let rotate = match member(keyring, "$rotate") {
        Some(rotate) => read_schedule(rotate, durations),
        None => None,
    };
    let retain = match text_member(keyring, "$retain") {
        Some(_) => durations.retain,
        None => None,
    };
    let protection = match text_member(keyring, "$protection") {
        Some(name) => if same_text(name.as_str(), "software") {
            Some(ProtectionClass::Software)
        } else if same_text(name.as_str(), "hardware") {
            Some(ProtectionClass::Hardware)
        } else {
            None
        },
        None => None,
    };
    Some(KeyringPolicy { algorithm, usage: read_usage(keyring), rotate, retain, protection })
}

} // verus!
