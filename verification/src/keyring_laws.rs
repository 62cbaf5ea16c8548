//! What holds of a ring over its whole life: its versions are numbered in the order
//! they were recorded, and a ring that was late has turned over at every boundary.

use crate::keyring::{
    activated, boundaries, caught_up, destroyed, first_in, in_order, lateness, law_activate, law_record, law_rotation,
    lemma_first_found, lemma_version_found, next_boundary, recorded, revoked, rotated, version_at, IssuedView, KeyState,
    KeyringErrorView, RingView, RotationOutcome, VersionId,
};
use crate::time::{Duration, Timestamp};
use vstd::prelude::*;

verus! {

/// Whether the versions of a ring are numbered from one on in the order they were
/// recorded, and the next one follows.
pub open spec fn numbered(ring: RingView) -> bool {
    &&& ring.next_id == ring.versions.len() + 1
    &&& forall|i: int| 0 <= i < ring.versions.len() ==> (#[trigger] ring.versions[i]).id == i + 1
}

/// Whatever happens to a ring, its versions stay numbered from one on in the order they
/// were recorded.
pub proof fn law_numbered(ring: RingView, key: IssuedView, id: u64, i: int, now: Timestamp)
    requires
        numbered(ring),
        ring.next_id < u64::MAX,
        0 <= i < ring.versions.len(),
    ensures
        numbered(recorded(ring, key, now)),
        numbered(activated(ring, id, now)),
        numbered(rotated(ring, Some(key), now).0),
        numbered(destroyed(ring, i)),
        revoked(ring, id, now) matches Ok(after) ==> numbered(after),
{
    lemma_version_found(ring.versions, id);
    lemma_numbered_record(ring, key, now);
    lemma_numbered_activate(ring, id, now);
    lemma_numbered_rotation(ring, Some(key), now);
    let gone = destroyed(ring, i);
    assert forall|j: int| 0 <= j < gone.versions.len() implies (#[trigger] gone.versions[j]).id == j + 1 by {
        assert(ring.versions[j].id == j + 1);
    }
    if let Ok(after) = revoked(ring, id, now) {
        assert forall|j: int| 0 <= j < after.versions.len() implies (#[trigger] after.versions[j]).id == j + 1 by {
            assert(ring.versions[j].id == j + 1);
        }
    }
}

proof fn lemma_numbered_record(ring: RingView, key: IssuedView, now: Timestamp)
    requires
        numbered(ring),
        ring.next_id < u64::MAX,
    ensures
        numbered(recorded(ring, key, now)),
{
    let after = recorded(ring, key, now);
    assert forall|j: int| 0 <= j < after.versions.len() implies (#[trigger] after.versions[j]).id == j + 1 by {
        if j < ring.versions.len() {
            assert(after.versions[j] == ring.versions[j]);
        }
    }
}

proof fn lemma_numbered_activate(ring: RingView, id: u64, now: Timestamp)
    requires
        numbered(ring),
    ensures
        numbered(activated(ring, id, now)),
{
    lemma_version_found(ring.versions, id);
    let after = activated(ring, id, now);
    assert forall|j: int| 0 <= j < after.versions.len() implies (#[trigger] after.versions[j]).id == j + 1 by {
        assert(ring.versions[j].id == j + 1);
    }
}

proof fn lemma_numbered_rotation(ring: RingView, key: Option<IssuedView>, at: Timestamp)
    requires
        numbered(ring),
        ring.next_id < u64::MAX,
    ensures
        numbered(rotated(ring, key, at).0),
{
    match first_in(ring.versions, KeyState::Pending) {
        Some(i) => {
            lemma_numbered_activate(ring, ring.versions[i].id, at);
        },
        None => {
            lemma_numbered_record(ring, key->0, at);
            lemma_numbered_activate(recorded(ring, key->0, at), ring.next_id, at);
        },
    }
}

/// Whether some version of a ring became the active one at an instant.
pub open spec fn turned_at(ring: RingView, at: Timestamp) -> bool {
    exists|i: int|
        0 <= i < ring.versions.len() && (#[trigger] ring.versions[i]).state != KeyState::Pending
            && ring.versions[i].activated_at == Some(at)
}

/// The boundary that lies a number of cadences after this one.
pub open spec fn boundary_at(due: Timestamp, every: Duration, k: nat) -> Timestamp
    decreases k,
{
    if k == 0 {
        due
    } else {
        boundary_at(next_boundary(due, every), every, (k - 1) as nat)
    }
}

/// A rotation makes a version the active one at its instant, keeps the versions that
/// turned over before, and takes an ordinal only for a new key.
proof fn lemma_rotation(ring: RingView, key: Option<IssuedView>, at: Timestamp)
    requires
        in_order(ring),
        ring.next_id < u64::MAX,
        first_in(ring.versions, KeyState::Pending) is Some || key is Some,
    ensures
        in_order(rotated(ring, key, at).0),
        turned_at(rotated(ring, key, at).0, at),
        forall|t: Timestamp| #[trigger] turned_at(ring, t) ==> turned_at(rotated(ring, key, at).0, t),
        rotated(ring, key, at).0.next_id == ring.next_id + (if first_in(ring.versions, KeyState::Pending) is Some {
            0int
        } else {
            1int
        }),
{
    let after = rotated(ring, key, at).0;
    lemma_first_found(ring.versions, KeyState::Pending);
    match first_in(ring.versions, KeyState::Pending) {
        Some(i) => {
            let id = ring.versions[i].id;
            lemma_version_found(ring.versions, id);
            let found = version_at(ring.versions, id)->0;
            assert(found == i) by {
                if found < i {
                    assert(ring.versions[found].id < ring.versions[i].id);
                } else if i < found {
                    assert(ring.versions[i].id < ring.versions[found].id);
                }
            }
            law_activate(ring, id, at, i);
            assert(after.versions[i].state == KeyState::Active && after.versions[i].activated_at == Some(at));
            assert forall|t: Timestamp| #[trigger] turned_at(ring, t) implies turned_at(after, t) by {
                let j = choose|j: int|
                    0 <= j < ring.versions.len() && (#[trigger] ring.versions[j]).state != KeyState::Pending
                        && ring.versions[j].activated_at == Some(t);
                assert(j != i);
                assert(after.versions[j].state != KeyState::Pending && after.versions[j].activated_at == Some(t));
            }
        },
        None => {
            let grown = recorded(ring, key->0, at);
            law_record(ring, key->0, at, at);
            let last = ring.versions.len() as int;
            lemma_version_found(grown.versions, ring.next_id);
            let found = version_at(grown.versions, ring.next_id)->0;
            assert(grown.versions[last].id == ring.next_id);
            assert(found == last) by {
                if found < last {
                    assert(grown.versions[found].id < grown.versions[last].id);
                }
            }
            law_activate(grown, ring.next_id, at, last);
            assert(after.versions[last].state == KeyState::Active && after.versions[last].activated_at == Some(at));
            assert forall|t: Timestamp| #[trigger] turned_at(ring, t) implies turned_at(after, t) by {
                let j = choose|j: int|
                    0 <= j < ring.versions.len() && (#[trigger] ring.versions[j]).state != KeyState::Pending
                        && ring.versions[j].activated_at == Some(t);
                assert(grown.versions[j] == ring.versions[j]);
                assert(after.versions[j].state != KeyState::Pending && after.versions[j].activated_at == Some(t));
            }
        },
    }
}

/// Bringing a ring up to date keeps the versions that turned over before, whatever the
/// provider answers.
pub proof fn law_turns_stay(
    ring: RingView,
    due: Timestamp,
    every: Duration,
    now: Timestamp,
    answers: Seq<Result<IssuedView, KeyringErrorView>>,
    so_far: RotationOutcome,
    at: Timestamp,
)
    requires
        in_order(ring),
        ring.next_id + boundaries(due, every, now) <= u64::MAX,
        caught_up(ring, due, every, now, answers, so_far) is Some,
        turned_at(ring, at),
    ensures
        turned_at(caught_up(ring, due, every, now, answers, so_far)->Some_0.0, at),
    decreases lateness(due, now),
{
    let pending = first_in(ring.versions, KeyState::Pending) is Some;
    let after = caught_up(ring, due, every, now, answers, so_far)->Some_0.0;
    if now.instant() < due.instant() || !pending && answers[0] is Err {
        assert(after.versions == ring.versions);
    } else {
        let key = if pending {
            None
        } else {
            Some(answers[0]->Ok_0)
        };
        let rest = if pending {
            answers
        } else {
            answers.drop_first()
        };
        lemma_rotation(ring, key, due);
        let (turned, id) = rotated(ring, key, due);
        let clear = RingView { overdue: false, ..turned };
        assert(turned_at(turned, at));
        assert(turned_at(clear, at));
        let next = next_boundary(due, every);
        if next.instant() > due.instant() {
            law_turns_stay(clear, next, every, now, rest, RotationOutcome::Rotated(VersionId(id)), at);
        }
    }
}

/// A ring that was late and is brought up to date has turned over once at every
/// boundary that has passed, and has taken an ordinal for each key it was given.
pub proof fn law_every_boundary(
    ring: RingView,
    due: Timestamp,
    every: Duration,
    now: Timestamp,
    answers: Seq<Result<IssuedView, KeyringErrorView>>,
    so_far: RotationOutcome,
    k: nat,
)
    requires
        in_order(ring),
        ring.next_id + boundaries(due, every, now) <= u64::MAX,
        caught_up(ring, due, every, now, answers, so_far) is Some,
        caught_up(ring, due, every, now, answers, so_far)->Some_0.1 != RotationOutcome::KeptCurrentOverdue,
        k < boundaries(due, every, now),
    ensures
        ({
            let after = caught_up(ring, due, every, now, answers, so_far)->Some_0.0;
            &&& turned_at(after, boundary_at(due, every, k))
            &&& after.next_id == ring.next_id + answers.len()
            &&& numbered(ring) ==> numbered(after)
        }),
    decreases lateness(due, now),
{
    let pending = first_in(ring.versions, KeyState::Pending) is Some;
    let after = caught_up(ring, due, every, now, answers, so_far)->Some_0.0;
    let key = if pending {
        None
    } else {
        Some(answers[0]->Ok_0)
    };
    let rest = if pending {
        answers
    } else {
        answers.drop_first()
    };
    lemma_rotation(ring, key, due);
    if numbered(ring) {
        lemma_numbered_rotation(ring, key, due);
    }
    let (turned, id) = rotated(ring, key, due);
    let clear = RingView { overdue: false, ..turned };
    let outcome = RotationOutcome::Rotated(VersionId(id));
    assert(turned_at(turned, due));
    assert(turned_at(clear, due));
    let next = next_boundary(due, every);
    if next.instant() <= due.instant() {
        assert(after == clear);
    } else {
        if k == 0 {
            law_turns_stay(clear, next, every, now, rest, outcome, due);
            if boundaries(next, every, now) > 0 {
                law_every_boundary(clear, next, every, now, rest, outcome, 0);
            } else {
                assert(after == clear);
            }
        } else {
            law_every_boundary(clear, next, every, now, rest, outcome, (k - 1) as nat);
        }
    }
}

/// Wherever a provider fails while a ring is brought up to date, the ring keeps the
/// version it had turned over to as its active one, and is overdue; nothing is asked
/// after the failure.
pub proof fn law_failure_stops(
    ring: RingView,
    due: Timestamp,
    every: Duration,
    now: Timestamp,
    answers: Seq<Result<IssuedView, KeyringErrorView>>,
    so_far: RotationOutcome,
)
    requires
        in_order(ring),
        ring.next_id + boundaries(due, every, now) <= u64::MAX,
        first_in(ring.versions, KeyState::Active) is Some,
        so_far != RotationOutcome::KeptCurrentOverdue,
        caught_up(ring, due, every, now, answers, so_far) is Some,
        caught_up(ring, due, every, now, answers, so_far)->Some_0.1 == RotationOutcome::KeptCurrentOverdue,
    ensures
        ({
            let after = caught_up(ring, due, every, now, answers, so_far)->Some_0.0;
            &&& after.overdue
            &&& in_order(after)
            &&& first_in(after.versions, KeyState::Active) is Some
            &&& answers.len() > 0
            &&& answers.last() is Err
            &&& forall|i: int| 0 <= i < answers.len() - 1 ==> (#[trigger] answers[i]) is Ok
        }),
    decreases lateness(due, now),
{
    let pending = first_in(ring.versions, KeyState::Pending) is Some;
    if !pending && answers[0] is Err {
        assert(answers.last() == answers[0]);
        let after = RingView { overdue: true, ..ring };
        assert(in_order(after));
    } else {
        let key = if pending {
            None
        } else {
            Some(answers[0]->Ok_0)
        };
        let rest = if pending {
            answers
        } else {
            answers.drop_first()
        };
        law_rotation(ring, key, due, now, first_in(ring.versions, KeyState::Active)->Some_0);
        lemma_rotation(ring, key, due);
        let (turned, id) = rotated(ring, key, due);
        let clear = RingView { overdue: false, ..turned };
        assert(in_order(clear));
        let next = next_boundary(due, every);
        law_failure_stops(clear, next, every, now, rest, RotationOutcome::Rotated(VersionId(id)));
        assert forall|i: int| 0 <= i < answers.len() - 1 implies (#[trigger] answers[i]) is Ok by {
            if !pending && i > 0 {
                assert(rest[i - 1] == answers[i]);
            } else if pending {
                assert(rest[i] == answers[i]);
            }
        }
    }
}

} // verus!
