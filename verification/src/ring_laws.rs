//! What key rings, tokens and host bindings keep to, operation by operation.

use crate::cell::{CellView, RowView};
use crate::doc::{text_of, Doc};
use crate::host::{
    accepted_from, contracts_bound, invoked, ops_of, ring_from, signing_ring, token_of, token_verified, CoseErrorView,
    CoseToken, EffectClass, Function, GuardError, HostEffect, HostOrigin, Requirement, SignatureError,
};
use crate::keyring::{
    activated, brought_up, destroyed, due_at, first_in, in_order, is_accepted, lead_reached, lemma_first_found,
    lemma_version_found, recorded, revoked, rotated, taken, verified, version_at, IssuedView, KeyOperation, KeyState,
    KeyringError, KeyringErrorView, PolicyView, RingView, RotationMode, RotationOutcome, RotationSchedule, SessionToken,
    VerifyError, VersionId, VersionView,
};
use crate::keyring_view::{
    active_ids, declared_schedule, declared_text, operation_of, operations_in, rows_with, version_rows,
    DeclaredDurations,
};
use crate::patch::IdView;
use crate::rejection::{RejectionReason, RejectionView};
use crate::text::texts;
use crate::time::{shifted, ticks, Duration, Precision, Timestamp};
use crate::value::ValueView;
use vstd::prelude::*;

verus! {

/// A timestamp moved by ticks is that many ticks later, as long as its count has room,
/// and counts in the same precision.
pub proof fn law_shifted(t: Timestamp, n: int)
    requires
        i128::MIN <= t.count + n <= i128::MAX,
    ensures
        shifted(t, n).count == t.count + n,
        shifted(t, n).precision == t.precision,
        shifted(t, n).instant() == t.instant() + n * t.precision.nanos(),
{
    let k = t.precision.nanos();
    assert((t.count + n) * k == t.count * k + n * k) by (nonlinear_arith);
}

/// A duration has as many ticks of a precision as its nanoseconds fill: whole seconds
/// are whole, and a part of a tick counts for nothing.
pub proof fn law_ticks(seconds: int, d: Duration)
    requires
        0 <= seconds <= 1_000_000_000_000,
        d.nanos == seconds * 1_000_000_000,
    ensures
        ticks(d, Precision::Seconds) == seconds,
        ticks(d, Precision::Milliseconds) == seconds * 1_000,
        ticks(d, Precision::Microseconds) == seconds * 1_000_000,
        ticks(d, Precision::Nanoseconds) == d.nanos,
{
    assert(seconds * 1_000_000_000 * 1_000_000_000 <= i128::MAX);
}

/// The first version in a state is in it and none before it is, and there is none only
/// if no version is in it.
pub proof fn law_first_in(versions: Seq<VersionView>, state: KeyState, i: int)
    ensures
        first_in(versions, state) is None <==> forall|k: int|
            0 <= k < versions.len() ==> (#[trigger] versions[k]).state != state,
        0 <= i < versions.len() && versions[i].state == state && (forall|k: int|
            0 <= k < i ==> (#[trigger] versions[k]).state != state) ==> first_in(versions, state) == Some(i),
    decreases versions.len(),
{
    if versions.len() > 0 {
        let rest = versions.drop_last();
        law_first_in(rest, state, i);
        assert(versions[versions.len() - 1] == versions.last());
        if first_in(versions, state) is None {
            assert forall|k: int| 0 <= k < versions.len() implies (#[trigger] versions[k]).state != state by {
                if k < rest.len() {
                    assert(rest[k] == versions[k]);
                }
            }
        } else if forall|k: int| 0 <= k < versions.len() ==> (#[trigger] versions[k]).state != state {
            assert forall|k: int| 0 <= k < rest.len() implies (#[trigger] rest[k]).state != state by {
                assert(rest[k] == versions[k]);
            }
            assert(versions[versions.len() - 1].state != state);
        }
        if 0 <= i < versions.len() && versions[i].state == state && (forall|k: int|
            0 <= k < i ==> (#[trigger] versions[k]).state != state) {
            if i < rest.len() {
                assert(rest[i] == versions[i]);
                assert forall|k: int| 0 <= k < i implies (#[trigger] rest[k]).state != state by {
                    assert(rest[k] == versions[k]);
                }
            } else {
                assert forall|k: int| 0 <= k < rest.len() implies (#[trigger] rest[k]).state != state by {
                    assert(rest[k] == versions[k]);
                }
            }
        }
    }
}

/// The version of an ordinal has it, and there is none only if no version has it.
pub proof fn law_version_at(versions: Seq<VersionView>, id: u64, i: int)
    ensures
        version_at(versions, id) is None <==> forall|k: int|
            0 <= k < versions.len() ==> (#[trigger] versions[k]).id != id,
        0 <= i < versions.len() && versions[i].id == id && (forall|k: int|
            0 <= k < i ==> (#[trigger] versions[k]).id != id) ==> version_at(versions, id) == Some(i),
    decreases versions.len(),
{
    if versions.len() > 0 {
        let rest = versions.drop_last();
        law_version_at(rest, id, i);
        assert(versions[versions.len() - 1] == versions.last());
        if version_at(versions, id) is None {
            assert forall|k: int| 0 <= k < versions.len() implies (#[trigger] versions[k]).id != id by {
                if k < rest.len() {
                    assert(rest[k] == versions[k]);
                }
            }
        } else if forall|k: int| 0 <= k < versions.len() ==> (#[trigger] versions[k]).id != id {
            assert forall|k: int| 0 <= k < rest.len() implies (#[trigger] rest[k]).id != id by {
                assert(rest[k] == versions[k]);
            }
            assert(versions[versions.len() - 1].id != id);
        }
        if 0 <= i < versions.len() && versions[i].id == id && (forall|k: int|
            0 <= k < i ==> (#[trigger] versions[k]).id != id) {
            if i < rest.len() {
                assert(rest[i] == versions[i]);
                assert forall|k: int| 0 <= k < i implies (#[trigger] rest[k]).id != id by {
                    assert(rest[k] == versions[k]);
                }
            } else {
                assert forall|k: int| 0 <= k < rest.len() implies (#[trigger] rest[k]).id != id by {
                    assert(rest[k] == versions[k]);
                }
            }
        }
    }
}

/// The active version is accepted, at every instant. A retired one is accepted until
/// what the ring retains it for has passed since it retired, and without a limit always.
/// A pending, a revoked or a destroyed one never is.
pub proof fn law_accepted(policy: PolicyView, v: VersionView, now: Timestamp, at: Timestamp, retain: Duration)
    ensures
        v.state == KeyState::Active ==> is_accepted(policy, v, now),
        v.state == KeyState::Pending || v.state == KeyState::Revoked || v.state == KeyState::Destroyed ==> !is_accepted(
            policy,
            v,
            now,
        ),
        v.state == KeyState::Retired && policy.retain is None ==> is_accepted(policy, v, now),
        v.state == KeyState::Retired && v.retired_at is None ==> is_accepted(policy, v, now),
        v.state == KeyState::Retired && policy.retain == Some(retain) && v.retired_at == Some(at) && i128::MIN
            <= at.count + ticks(retain, at.precision) <= i128::MAX ==> (is_accepted(policy, v, now) <==> now.instant()
            < at.instant() + ticks(retain, at.precision) * at.precision.nanos()),
{
    let n = ticks(retain, at.precision);
    if i128::MIN <= at.count + n <= i128::MAX {
        law_shifted(at, n);
    }
}

/// A token is verified if and only if this ring signed it and accepts a version of its
/// number; then it is that version.
pub proof fn law_verified(ring: RingView, token_ring: Seq<char>, version: u64, now: Timestamp)
    ensures
        token_ring != ring.name ==> verified(ring, token_ring, version, now) == Err::<VersionId, VerifyError>(
            VerifyError::WrongRing,
        ),
        verified(ring, token_ring, version, now) is Ok <==> token_ring == ring.name && exists|i: int|
            0 <= i < ring.versions.len() && (#[trigger] ring.versions[i]).id == version && is_accepted(
                ring.policy,
                ring.versions[i],
                now,
            ),
        verified(ring, token_ring, version, now) matches Ok(id) ==> id.0 == version,
{
}

/// A recorded key is the last version: pending, made now, with the key's own algorithm,
/// public part, attestation and handle, and under the next ordinal, which moves on.
pub proof fn law_recorded_key(ring: RingView, key: IssuedView, now: Timestamp)
    requires
        ring.next_id < u64::MAX,
    ensures
        ({
            let after = recorded(ring, key, now);
            let v = after.versions.last();
            &&& after.versions.len() == ring.versions.len() + 1
            &&& v.id == ring.next_id
            &&& v.algorithm == key.algorithm
            &&& v.public_key == key.public_key
            &&& v.attestation == key.attestation
            &&& v.handle == key.handle
            &&& v.created_at == now
            &&& v.state == KeyState::Pending
            &&& v.activated_at is None
            &&& v.retired_at is None
            &&& v.revoked_at is None
            &&& after.next_id == ring.next_id + 1
            &&& after.policy == ring.policy
            &&& after.name == ring.name
            &&& after.overdue == ring.overdue
            &&& forall|i: int| 0 <= i < ring.versions.len() ==> #[trigger] after.versions[i] == ring.versions[i]
        }),
{
}

/// An activation changes the state and the instant of the activated version, retires
/// the one that was active, and leaves every other version, and every key, as it was.
pub proof fn law_activation_local(ring: RingView, id: u64, now: Timestamp, i: int, k: int)
    requires
        version_at(ring.versions, id) == Some(i),
        0 <= k < ring.versions.len(),
    ensures
        ({
            let after = activated(ring, id, now);
            &&& after.versions.len() == ring.versions.len()
            &&& after.versions[i].state == KeyState::Active
            &&& after.versions[i].activated_at == Some(now)
            &&& k != i && ring.versions[k].state != KeyState::Active ==> after.versions[k] == ring.versions[k]
            &&& k != i && ring.versions[k].state == KeyState::Active ==> after.versions[k] == (VersionView {
                state: KeyState::Retired,
                retired_at: Some(now),
                ..ring.versions[k]
            })
            &&& after.versions[k].id == ring.versions[k].id
            &&& after.versions[k].handle == ring.versions[k].handle
            &&& after.versions[k].algorithm == ring.versions[k].algorithm
            &&& after.versions[k].public_key == ring.versions[k].public_key
            &&& after.versions[k].created_at == ring.versions[k].created_at
            &&& after.next_id == ring.next_id
            &&& after.policy == ring.policy
            &&& after.name == ring.name
        }),
{
    lemma_version_found(ring.versions, id);
}

/// Revoking marks the version of the ordinal and no other, and is refused where the
/// ring has none. Destroying marks its version and no other.
pub proof fn law_revocation_local(ring: RingView, id: u64, now: Timestamp, i: int, k: int)
    requires
        0 <= k < ring.versions.len(),
        0 <= i < ring.versions.len(),
    ensures
        version_at(ring.versions, id) is None ==> revoked(ring, id, now) == Err::<RingView, KeyringErrorView>(
            KeyringErrorView::UnknownVersion(id),
        ),
        version_at(ring.versions, id) == Some(i) ==> (revoked(ring, id, now) matches Ok(after) && after.versions.len()
            == ring.versions.len() && after.versions[i].state == KeyState::Revoked && after.versions[i].revoked_at
            == Some(now) && after.versions[i].handle == ring.versions[i].handle && (k != i ==> after.versions[k]
            == ring.versions[k]) && after.policy == ring.policy && after.next_id == ring.next_id && after.name
            == ring.name),
        destroyed(ring, i).versions[i].state == KeyState::Destroyed,
        k != i ==> destroyed(ring, i).versions[k] == ring.versions[k],
        destroyed(ring, i).versions.len() == ring.versions.len(),
        destroyed(ring, i).policy == ring.policy,
{
}

/// A rotation takes the version that is pending, where there is one, and records no
/// key; without one it records the key it was given.
pub proof fn law_rotation_takes(ring: RingView, key: IssuedView, at: Timestamp, i: int)
    requires
        ring.next_id < u64::MAX,
        in_order(ring),
    ensures
        first_in(ring.versions, KeyState::Pending) == Some(i) ==> {
            let (turned, id) = rotated(ring, Some(key), at);
            &&& id == ring.versions[i].id
            &&& turned.versions.len() == ring.versions.len()
            &&& turned.next_id == ring.next_id
            &&& turned.versions[i].state == KeyState::Active
        },
        first_in(ring.versions, KeyState::Pending) is None ==> {
            let (turned, id) = rotated(ring, Some(key), at);
            &&& id == ring.next_id
            &&& turned.versions.len() == ring.versions.len() + 1
            &&& turned.next_id == ring.next_id + 1
            &&& turned.versions.last().state == KeyState::Active
            &&& turned.versions.last().handle == key.handle
            &&& turned.versions.last().activated_at == Some(at)
        },
{
    lemma_first_found(ring.versions, KeyState::Pending);
    if let Some(j) = first_in(ring.versions, KeyState::Pending) {
        assert forall|k: int| 0 <= k < j implies (#[trigger] ring.versions[k]).id != ring.versions[j].id by {
            assert(ring.versions[k].id < ring.versions[j].id);
        }
        law_version_at(ring.versions, ring.versions[j].id, j);
    } else {
        let grown = recorded(ring, key, at);
        let n = ring.versions.len() as int;
        assert forall|k: int| 0 <= k < n implies (#[trigger] grown.versions[k]).id != ring.next_id by {
            assert(grown.versions[k] == ring.versions[k]);
            assert(ring.versions[k].id < ring.next_id);
        }
        law_version_at(grown.versions, ring.next_id, n);
    }
}

/// A key a provider answered with becomes the active version; a failure is passed on
/// and changes nothing.
pub proof fn law_taken(ring: RingView, answer: Result<IssuedView, KeyringErrorView>, now: Timestamp)
    requires
        in_order(ring),
        ring.next_id < u64::MAX,
    ensures
        answer matches Err(e) ==> taken(ring, answer, now) == (ring, Err::<u64, KeyringErrorView>(e)),
        answer matches Ok(key) ==> {
            let (after, id) = taken(ring, answer, now);
            &&& id == Ok::<u64, KeyringErrorView>(ring.next_id)
            &&& after.versions.len() == ring.versions.len() + 1
            &&& after.versions.last().id == ring.next_id
            &&& after.versions.last().state == KeyState::Active
            &&& after.versions.last().handle == key.handle
            &&& after.versions.last().activated_at == Some(now)
        },
{
    if let Ok(key) = answer {
        let grown = recorded(ring, key, now);
        let n = ring.versions.len() as int;
        assert forall|k: int| 0 <= k < n implies (#[trigger] grown.versions[k]).id != ring.next_id by {
            assert(grown.versions[k] == ring.versions[k]);
            assert(ring.versions[k].id < ring.next_id);
        }
        law_version_at(grown.versions, ring.next_id, n);
    }
}

/// An automatic ring with an active version is due one cadence after that version was
/// activated. A ring without a schedule, one an operator drives, and one without an
/// active version are never due.
pub proof fn law_due_at(ring: RingView, schedule: RotationSchedule, i: int, at: Timestamp)
    ensures
        ring.policy.rotate is None ==> due_at(ring) is None,
        ring.policy.rotate == Some(schedule) && schedule.mode == RotationMode::Manual ==> due_at(ring) is None,
        first_in(ring.versions, KeyState::Active) is None ==> due_at(ring) is None,
        ring.policy.rotate == Some(schedule) && schedule.mode == RotationMode::Automatic && first_in(
            ring.versions,
            KeyState::Active,
        ) == Some(i) && ring.versions[i].activated_at == Some(at) ==> (due_at(ring) matches Some((due, s)) && s
            == schedule && due == shifted(at, ticks(schedule.every, at.precision))),
{
}

/// Ahead of its boundary a ring does not turn over: it records the next key once its
/// lead is reached, where none is pending and the provider made one, and is otherwise as
/// it was. A ring that is never due is as it was.
pub proof fn law_ahead_of_boundary(
    ring: RingView,
    now: Timestamp,
    due: Timestamp,
    schedule: RotationSchedule,
    key: IssuedView,
    failure: KeyringErrorView,
)
    ensures
        due_at(ring) is None ==> brought_up(ring, now, Seq::empty()) == Some((ring, RotationOutcome::NotDue)),
        due_at(ring) == Some((due, schedule)) && now.instant() < due.instant() && !lead_reached(ring, due, schedule, now)
            ==> brought_up(ring, now, Seq::empty()) == Some((ring, RotationOutcome::NotDue)),
        due_at(ring) == Some((due, schedule)) && now.instant() < due.instant() && lead_reached(ring, due, schedule, now)
            ==> brought_up(ring, now, seq![Ok::<IssuedView, KeyringErrorView>(key)]) == Some(
            (recorded(ring, key, now), RotationOutcome::NotDue),
        ) && brought_up(ring, now, seq![Err::<IssuedView, KeyringErrorView>(failure)]) == Some(
            (ring, RotationOutcome::NotDue),
        ),
        lead_reached(ring, due, schedule, now) <==> (forall|k: int|
            0 <= k < ring.versions.len() ==> (#[trigger] ring.versions[k]).state != KeyState::Pending) && now.instant()
            >= shifted(due, -ticks(schedule.overlap, due.precision)).instant(),
{
    law_first_in(ring.versions, KeyState::Pending, 0);
}

/// A ring shows a row for each of its versions, in order, with what may be shown of it,
/// and the active one is the one that is active.
pub proof fn law_versions_shown(ring: RingView, i: int)
    requires
        0 <= i < ring.versions.len(),
    ensures
        version_rows(ring).len() == ring.versions.len(),
        ({
            let v = ring.versions[i];
            let row = version_rows(ring)[i];
            &&& row.cells.len() == 8
            &&& row.cells[1] == ("algorithm"@, CellView::Scalar(ValueView::Text(v.algorithm)))
            &&& row.cells[2] == ("public_key"@, CellView::Scalar(v.public_key))
            &&& row.cells[3] == ("created_at"@, CellView::Scalar(ValueView::Timestamp(v.created_at)))
            &&& v.activated_at matches Some(t) ==> row.cells[4] == (
                "activated_at"@,
                CellView::Scalar(ValueView::Timestamp(t)),
            )
            &&& v.retired_at matches Some(t) ==> row.cells[5] == (
                "retired_at"@,
                CellView::Scalar(ValueView::Timestamp(t)),
            )
            &&& v.revoked_at matches Some(t) ==> row.cells[6] == (
                "revoked_at"@,
                CellView::Scalar(ValueView::Timestamp(t)),
            )
            &&& v.activated_at is None ==> row.cells[4].1 == CellView::Scalar(ValueView::Absent)
            &&& v.retired_at is None ==> row.cells[5].1 == CellView::Scalar(ValueView::Absent)
            &&& v.revoked_at is None ==> row.cells[6].1 == CellView::Scalar(ValueView::Absent)
            &&& v.attestation matches Some(a) ==> row.cells[7] == ("attestation"@, CellView::Scalar(a))
            &&& v.id <= i64::MAX ==> row.key == ValueView::Int(v.id as int)
        }),
        first_in(ring.versions, KeyState::Active) == Some(i) ==> active_ids(ring) == seq![version_rows(ring)[i].id],
        first_in(ring.versions, KeyState::Active) is None ==> active_ids(ring).len() == 0,
{
}

/// The rows shown by identity are those of a list that have one of the identities.
pub proof fn law_rows_with(rows: Seq<RowView>, ids: Seq<IdView>, row: RowView)
    ensures
        rows_with(rows, ids).contains(row) <==> rows.contains(row) && ids.contains(row.id),
    decreases rows.len(),
{
    if rows.len() > 0 {
        let rest = rows.drop_last();
        law_rows_with(rest, ids, row);
        let before = rows_with(rest, ids);
        let after = rows_with(rows, ids);
        assert(rows[rows.len() - 1] == rows.last());
        if rest.contains(row) {
            let i = choose|i: int| 0 <= i < rest.len() && rest[i] == row;
            assert(rows[i] == row);
        }
        if rows.contains(row) && row != rows.last() {
            let i = choose|i: int| 0 <= i < rows.len() && rows[i] == row;
            assert(rest[i] == row);
        }
        if ids.contains(rows.last().id) {
            assert(after[before.len() as int] == rows.last());
            if before.contains(row) {
                let i = choose|i: int| 0 <= i < before.len() && before[i] == row;
                assert(after[i] == row);
            }
            if after.contains(row) && row != rows.last() {
                let i = choose|i: int| 0 <= i < after.len() && after[i] == row;
                assert(before[i] == row);
            }
        }
    }
}

/// A declaration allows exactly the operations its list names, each once.
pub proof fn law_operations(items: Seq<Doc>, op: KeyOperation)
    ensures
        operations_in(items).contains(op) <==> exists|i: int|
            0 <= i < items.len() && (text_of(#[trigger] items[i]) matches Some(name) && operation_of(name) == Some(op)),
        operations_in(items).no_duplicates(),
    decreases items.len(),
{
    if items.len() > 0 {
        let rest = items.drop_last();
        law_operations(rest, op);
        let before = operations_in(rest);
        let after = operations_in(items);
        assert(items[items.len() - 1] == items.last());
        if exists|i: int|
            0 <= i < rest.len() && (text_of(#[trigger] rest[i]) matches Some(name) && operation_of(name) == Some(op)) {
            let i = choose|i: int|
                0 <= i < rest.len() && (text_of(#[trigger] rest[i]) matches Some(name) && operation_of(name) == Some(op));
            assert(items[i] == rest[i]);
        }
        if exists|i: int|
            0 <= i < items.len() && (text_of(#[trigger] items[i]) matches Some(name) && operation_of(name) == Some(op)) {
            let i = choose|i: int|
                0 <= i < items.len() && (text_of(#[trigger] items[i]) matches Some(name) && operation_of(name) == Some(
                    op,
                ));
            if i < rest.len() {
                assert(rest[i] == items[i]);
            }
        }
        if after != before {
            let added = after.last();
            assert(after == before.push(added));
            assert(after[before.len() as int] == added);
            if before.contains(op) {
                let i = choose|i: int| 0 <= i < before.len() && before[i] == op;
                assert(after[i] == op);
            }
            if after.contains(op) && op != added {
                let i = choose|i: int| 0 <= i < after.len() && after[i] == op;
                assert(before[i] == op);
            }
            assert forall|i: int, j: int| 0 <= i < after.len() && 0 <= j < after.len() && i != j implies after[i]
                != after[j] by {
                if i < before.len() && j < before.len() {
                } else if i < before.len() {
                    assert(before.contains(before[i]));
                } else {
                    assert(before.contains(before[j]));
                }
            }
        }
    }
}

/// Operations are named by their own names.
pub proof fn law_operation_names()
    ensures
        operation_of("sign"@) == Some(KeyOperation::Sign),
        operation_of("verify"@) == Some(KeyOperation::Verify),
        operation_of("decrypt"@) == Some(KeyOperation::Decrypt),
        operation_of("wrap"@) == Some(KeyOperation::Wrap),
        operation_of("mac"@) == Some(KeyOperation::Mac),
{
    reveal_strlit("sign");
    reveal_strlit("verify");
    reveal_strlit("decrypt");
    reveal_strlit("key_agreement");
    reveal_strlit("keyAgreement");
    reveal_strlit("wrap");
    reveal_strlit("mac");
    assert("sign"@.len() == 4 && "verify"@.len() == 6 && "decrypt"@.len() == 7 && "key_agreement"@.len() == 13
        && "keyAgreement"@.len() == 12 && "wrap"@.len() == 4 && "mac"@.len() == 3);
    assert("sign"@[0] != "wrap"@[0]);
}

/// A schedule written as a bare duration rotates automatically at it, without overlap.
/// One written as an object has its cadence and overlap, and an operator drives it
/// where its mode says so.
pub proof fn law_declared_schedule(rotate: Doc, durations: DeclaredDurations, every: Duration, overlap: Duration)
    ensures
        text_of(rotate) is Some && durations.rotate == Some(every) ==> declared_schedule(rotate, durations) == Some(
            RotationSchedule { every, overlap: Duration { nanos: 0 }, mode: RotationMode::Automatic },
        ),
        text_of(rotate) is None && declared_text(rotate, "$every"@) is Some && durations.every == Some(every) ==> (
        declared_schedule(rotate, durations) matches Some(s) && s.every == every && (s.mode == RotationMode::Manual
            <==> declared_text(rotate, "$mode"@) == Some("manual"@)) && (declared_text(rotate, "$overlap"@) is Some
            && durations.overlap == Some(overlap) ==> s.overlap == overlap) && (declared_text(rotate, "$overlap"@) is None
            ==> s.overlap.nanos == 0)),
        text_of(rotate) is None && declared_text(rotate, "$every"@) is None ==> declared_schedule(rotate, durations) is None,
{
}

/// A requirement that can be read and is provided binds its contract under its local
/// name, unless a later one of the name does. Under the lenient discipline one that
/// cannot be read or is not provided is left out, and nothing fails.
pub proof fn law_bound(wanted: Seq<Requirement>, strict: bool, n: nat, i: int)
    requires
        n <= wanted.len(),
        0 <= i < n,
        contracts_bound(wanted, strict, n) is Ok,
        wanted[i].contract is Ok,
        wanted[i].provided is Ok,
        forall|k: int| i < k < n ==> (#[trigger] wanted[k]).local@ != wanted[i].local@,
    ensures
        contracts_bound(wanted, strict, n)->Ok_0.contains_key(wanted[i].local@),
        contracts_bound(wanted, strict, n)->Ok_0[wanted[i].local@] == wanted[i].contract->Ok_0@,
    decreases n,
{
    if i < n - 1 {
        law_bound(wanted, strict, (n - 1) as nat, i);
        assert(wanted[n - 1].local@ != wanted[i].local@);
    }
}

/// The lenient discipline never fails, and binds no name but that of a requirement that
/// can be read and is provided.
pub proof fn law_lenient(wanted: Seq<Requirement>, n: nat, local: Seq<char>)
    requires
        n <= wanted.len(),
    ensures
        contracts_bound(wanted, false, n) is Ok,
        contracts_bound(wanted, false, n)->Ok_0.contains_key(local) ==> exists|k: int|
            0 <= k < n && (#[trigger] wanted[k]).local@ == local && wanted[k].contract is Ok && wanted[k].provided is Ok,
    decreases n,
{
    if n > 0 {
        law_lenient(wanted, (n - 1) as nat, local);
        if contracts_bound(wanted, false, n)->Ok_0.contains_key(local) {
            if contracts_bound(wanted, false, (n - 1) as nat)->Ok_0.contains_key(local) {
                let k = choose|k: int|
                    0 <= k < n - 1 && (#[trigger] wanted[k]).local@ == local && wanted[k].contract is Ok
                        && wanted[k].provided is Ok;
                assert(wanted[k].local@ == local);
            } else {
                assert(wanted[n - 1].local@ == local);
            }
        }
    }
}

/// The last function of a name is the one an expression sees under it, with its types
/// and its effect.
pub proof fn law_ops(functions: Seq<Function>, origin: HostOrigin, n: nat, i: int)
    requires
        n <= functions.len(),
        0 <= i < n,
        forall|k: int| i < k < n ==> (#[trigger] functions[k]).name@ != functions[i].name@,
    ensures
        ({
            let ops = ops_of(functions, origin, n);
            let f = functions[i];
            &&& ops.contains_key(f.name@)
            &&& ops[f.name@].params == texts(f.params@)
            &&& ops[f.name@].result == f.result@
            &&& ops[f.name@].origin == origin
            &&& f.effect == EffectClass::Pure <==> ops[f.name@].effect == HostEffect::Pure
            &&& f.effect == EffectClass::Verifier <==> ops[f.name@].effect == HostEffect::Verifier
            &&& f.effect == EffectClass::Generated <==> ops[f.name@].effect == HostEffect::Generated
        }),
    decreases n,
{
    if i < n - 1 {
        law_ops(functions, origin, (n - 1) as nat, i);
        assert(functions[n - 1].name@ != functions[i].name@);
    }
}

/// A linked-in codec serves a call before any registered component; without either the
/// namespace is unresolved. A guarded failure is a refusal of the host.
pub proof fn law_invoked(
    local: Seq<char>,
    function: Seq<char>,
    v: ValueView,
    called: Option<Result<ValueView, GuardError>>,
    e: GuardError,
)
    ensures
        invoked(local, function, Some(Ok(v)), called) == Ok::<ValueView, RejectionView>(v),
        invoked(local, function, None, Some(Ok(v))) == Ok::<ValueView, RejectionView>(v),
        invoked(local, function, Some(Err(e)), called) matches Err(x) && x.reason == RejectionReason::Host,
        invoked(local, function, None, Some(Err(e))) matches Err(x) && x.reason == RejectionReason::Host,
        invoked(local, function, None, None) matches Err(x) && x.reason == RejectionReason::Malformed,
{
}

proof fn lemma_ring_first(rings: Seq<RingView>, name: Seq<char>, from: nat)
    ensures
        ring_from(rings, name, from) is None <==> forall|k: int|
            from <= k < rings.len() ==> (#[trigger] rings[k]).name != name,
        ring_from(rings, name, from) matches Some(i) ==> from <= i < rings.len() && rings[i].name == name && forall|k: int|
            from <= k < i ==> (#[trigger] rings[k]).name != name,
    decreases rings.len() - from,
{
    if from < rings.len() {
        lemma_ring_first(rings, name, from + 1);
        if rings[from as int].name == name {
        } else {
            if ring_from(rings, name, from) is None {
                assert forall|k: int| from <= k < rings.len() implies (#[trigger] rings[k]).name != name by {}
            }
        }
    }
}

proof fn lemma_accepted_first(ring: RingView, id: u64, now: Timestamp, from: nat)
    ensures
        accepted_from(ring, id, now, from) is None <==> forall|k: int|
            from <= k < ring.versions.len() ==> (#[trigger] ring.versions[k]).id != id || !is_accepted(
                ring.policy,
                ring.versions[k],
                now,
            ),
        accepted_from(ring, id, now, from) matches Some(i) ==> from <= i < ring.versions.len() && ring.versions[i].id == id
            && is_accepted(ring.policy, ring.versions[i], now),
    decreases ring.versions.len() - from,
{
    if from < ring.versions.len() {
        lemma_accepted_first(ring, id, now, from + 1);
        if accepted_from(ring, id, now, from) is None {
            assert forall|k: int| from <= k < ring.versions.len() implies (#[trigger] ring.versions[k]).id != id
                || !is_accepted(ring.policy, ring.versions[k], now) by {}
        }
    }
}

/// A token is taken if and only if it is one, a ring of the asked name exists and signed
/// it, the first such ring accepts its version now, and its signature is one over its
/// claims. What it is refused with says which of these does not hold.
pub proof fn law_token(
    rings: Seq<RingView>,
    ring: Seq<char>,
    token: CoseToken,
    now: Timestamp,
    signature: Result<(), SignatureError>,
)
    ensures
        token_verified(rings, ring, None, now, signature) == Err::<(ValueView, u64), CoseErrorView>(
            CoseErrorView::Malformed,
        ),
        (forall|k: int| 0 <= k < rings.len() ==> (#[trigger] rings[k]).name != ring) ==> token_verified(
            rings,
            ring,
            Some(token),
            now,
            signature,
        ) == Err::<(ValueView, u64), CoseErrorView>(CoseErrorView::UnknownRing(ring)),
        forall|i: int|
            0 <= i < rings.len() && (#[trigger] rings[i]).name == ring && (forall|k: int|
                0 <= k < i ==> (#[trigger] rings[k]).name != ring) ==> {
                let out = token_verified(rings, ring, Some(token), now, signature);
                let accepts = exists|v: int|
                    0 <= v < rings[i].versions.len() && (#[trigger] rings[i].versions[v]).id == token.version
                        && is_accepted(rings[i].policy, rings[i].versions[v], now);
                &&& token.ring@ != ring ==> out == Err::<(ValueView, u64), CoseErrorView>(CoseErrorView::WrongRing)
                &&& token.ring@ == ring && !accepts ==> out == Err::<(ValueView, u64), CoseErrorView>(
                    CoseErrorView::VersionNotAccepted,
                )
                &&& token.ring@ == ring && accepts && signature is Ok ==> out == Ok::<(ValueView, u64), CoseErrorView>(
                    (token.claims@, token.version),
                )
                &&& token.ring@ == ring && accepts && signature is Err ==> out is Err
                &&& token.ring@ == ring && accepts ==> (signature matches Err(SignatureError::Invalid) ==> out == Err::<
                    (ValueView, u64),
                    CoseErrorView,
                >(CoseErrorView::ClaimsTampered))
            },
{
    lemma_ring_first(rings, ring, 0);
    assert forall|i: int|
        0 <= i < rings.len() && (#[trigger] rings[i]).name == ring && (forall|k: int|
            0 <= k < i ==> (#[trigger] rings[k]).name != ring) implies {
        let out = token_verified(rings, ring, Some(token), now, signature);
        let accepts = exists|v: int|
            0 <= v < rings[i].versions.len() && (#[trigger] rings[i].versions[v]).id == token.version && is_accepted(
                rings[i].policy,
                rings[i].versions[v],
                now,
            );
        &&& token.ring@ != ring ==> out == Err::<(ValueView, u64), CoseErrorView>(CoseErrorView::WrongRing)
        &&& token.ring@ == ring && !accepts ==> out == Err::<(ValueView, u64), CoseErrorView>(
            CoseErrorView::VersionNotAccepted,
        )
        &&& token.ring@ == ring && accepts && signature is Ok ==> out == Ok::<(ValueView, u64), CoseErrorView>(
            (token.claims@, token.version),
        )
        &&& token.ring@ == ring && accepts && signature is Err ==> out is Err
        &&& token.ring@ == ring && accepts ==> (signature matches Err(SignatureError::Invalid) ==> out == Err::<
            (ValueView, u64),
            CoseErrorView,
        >(CoseErrorView::ClaimsTampered))
    } by {
        let j = ring_from(rings, ring, 0)->0;
        if j < i {
            assert(rings[j].name != ring);
        } else if i < j {
            assert(rings[i].name != ring);
        }
        lemma_accepted_first(rings[i], token.version, now, 0);
    }
}

/// Claims are signed by the first ring of the name asked; without claims, or without a
/// ring, the request is refused. The token carries the claims as they were given, and
/// the version and signature of the ring.
pub proof fn law_signing(
    rings: Seq<RingView>,
    ring: Seq<char>,
    claims: ValueView,
    signed: Result<SessionToken, KeyringError>,
    i: int,
)
    ensures
        signing_ring(rings, ring, None) is Err,
        (forall|k: int| 0 <= k < rings.len() ==> (#[trigger] rings[k]).name != ring) ==> signing_ring(
            rings,
            ring,
            Some(claims),
        ) is Err,
        0 <= i < rings.len() && rings[i].name == ring && (forall|k: int| 0 <= k < i ==> (#[trigger] rings[k]).name != ring)
            ==> signing_ring(rings, ring, Some(claims)) == Ok::<int, RejectionView>(i),
        signed matches Ok(t) ==> token_of(ring, claims, signed) == Ok::<
            (Seq<char>, u64, ValueView, Seq<u8>),
            RejectionView,
        >((ring, t.version.0, claims, t.signature@)),
        signed is Err ==> token_of(ring, claims, signed) is Err,
{
    lemma_ring_first(rings, ring, 0);
    if 0 <= i < rings.len() && rings[i].name == ring && (forall|k: int|
        0 <= k < i ==> (#[trigger] rings[k]).name != ring) {
        let j = ring_from(rings, ring, 0)->0;
        if j < i {
            assert(rings[j].name != ring);
        } else if i < j {
            assert(rings[i].name != ring);
        }
    }
}

} // verus!
