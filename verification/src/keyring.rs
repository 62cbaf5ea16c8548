//! Key rings: the life of key versions, their rotation on a schedule, and which of
//! them are accepted for verification.

use crate::text::{concat, concat5, numeral, render_number, same_text};
use crate::time::{instant_add, shifted, sub_duration, ticks, Duration, Timestamp};
use crate::value::{Value, ValueView};
use vstd::prelude::*;

verus! {

/// The identity of a key version within its ring.
#[derive(Debug, Clone, Copy, PartialEq, Eq, PartialOrd, Ord, Hash, Structural)]
pub struct VersionId(pub u64);

impl VersionId {
    /// The ordinal of the version.
    pub fn get(self) -> (r: u64)
        ensures
            r == self.0,
    {
        self.0
    }
}

/// Where a key version is in its life.
#[derive(Debug, Clone, Copy, PartialEq, Eq, Structural)]
pub enum KeyState {
    /// Its material exists; it is not selected yet.
    Pending,
    /// Selected for new operations.
    Active,
    /// Accepted for verification as long as the ring retains it.
    Retired,
    /// Rejected.
    Revoked,
    /// Its material is destroyed.
    Destroyed,
}

/// The handle of a key's material. Only the ring reads it, to operate with the key.
#[derive(Debug, Clone, Copy)]
pub struct KeyHandle {
    token: u64,
}

impl KeyHandle {
    /// What the provider calls the key.
    pub closed spec fn token(self) -> u64 {
        self.token
    }
}

/// A key version: what may be shown of it, and the handle of its material.
#[derive(Debug)]
pub struct KeyVersion {
    pub id: VersionId,
    pub algorithm: String,
    pub public_key: Value,
    pub created_at: Timestamp,
    pub activated_at: Option<Timestamp>,
    pub retired_at: Option<Timestamp>,
    pub revoked_at: Option<Timestamp>,
    pub attestation: Option<Value>,
    pub state: KeyState,
    pub handle: KeyHandle,
}

/// What a [`KeyVersion`] denotes.
#[verifier::ext_equal]
pub struct VersionView {
    pub id: u64,
    pub algorithm: Seq<char>,
    pub public_key: ValueView,
    pub created_at: Timestamp,
    pub activated_at: Option<Timestamp>,
    pub retired_at: Option<Timestamp>,
    pub revoked_at: Option<Timestamp>,
    pub attestation: Option<ValueView>,
    pub state: KeyState,
    pub handle: u64,
}

/// What an optional value denotes.
pub open spec fn optional(v: Option<Value>) -> Option<ValueView> {
    match v {
        Some(v) => Some(v@),
        None => None,
    }
}

impl View for KeyVersion {
    type V = VersionView;

    open spec fn view(&self) -> VersionView {
        VersionView {
            id: self.id.0,
            algorithm: self.algorithm@,
            public_key: self.public_key@,
            created_at: self.created_at,
            activated_at: self.activated_at,
            retired_at: self.retired_at,
            revoked_at: self.revoked_at,
            attestation: optional(self.attestation),
            state: self.state,
            handle: self.handle.token(),
        }
    }
}

impl KeyVersion {
    /// The algorithm the version signs with.
    pub fn algorithm(&self) -> (r: &str)
        ensures
            r@ == self@.algorithm,
    {
        self.algorithm.as_str()
    }

    /// When the version was made.
    pub fn created_at(&self) -> (r: Timestamp)
        ensures
            r == self@.created_at,
    {
        self.created_at
    }

    /// When the version became the one that signs.
    pub fn activated_at(&self) -> (r: Option<Timestamp>)
        ensures
            r == self@.activated_at,
    {
        self.activated_at
    }

    /// When another version took its place.
    pub fn retired_at(&self) -> (r: Option<Timestamp>)
        ensures
            r == self@.retired_at,
    {
        self.retired_at
    }

    /// When the version was revoked.
    pub fn revoked_at(&self) -> (r: Option<Timestamp>)
        ensures
            r == self@.revoked_at,
    {
        self.revoked_at
    }

    /// What the provider attests of the version.
    pub fn attestation(&self) -> (r: Option<&Value>)
        ensures
            match r {
                Some(v) => self@.attestation == Some(v@),
                None => self@.attestation is None,
            },
    {
        match &self.attestation {
            Some(v) => Some(v),
            None => None,
        }
    }

    /// Where the version is in its life.
    pub fn state(&self) -> (r: KeyState)
        ensures
            r == self@.state,
    {
        self.state
    }
}

/// What key versions denote.
pub open spec fn version_views(versions: Seq<KeyVersion>) -> Seq<VersionView> {
    Seq::new(versions.len(), |i: int| versions[i]@)
}

/// Who drives scheduled rotation.
#[derive(Debug, Clone, Copy, PartialEq, Eq, Structural)]
pub enum RotationMode {
    /// New versions are made and activated on schedule.
    Automatic,
    /// An operator binds and activates each version.
    Manual,
}

/// A rotation schedule: how often, how long before a cutover the next version is
/// shown, and who drives it.
#[derive(Debug, Clone, Copy, PartialEq, Eq, Structural)]
pub struct RotationSchedule {
    pub every: Duration,
    pub overlap: Duration,
    pub mode: RotationMode,
}

/// An operation a key is used for.
#[derive(Debug, Clone, Copy, PartialEq, Eq, Structural)]
pub enum KeyOperation {
    Sign,
    Verify,
    Decrypt,
    KeyAgreement,
    Wrap,
    Mac,
}

/// How key material is protected.
#[derive(Debug, Clone, Copy, PartialEq, Eq, Structural)]
pub enum ProtectionClass {
    Software,
    Hardware,
}

/// The policy of a ring.
#[derive(Debug)]
pub struct KeyringPolicy {
    pub algorithm: String,
    pub usage: Vec<KeyOperation>,
    /// Without a schedule nothing rotates by itself.
    pub rotate: Option<RotationSchedule>,
    /// How long a retired version is accepted; without a limit, until it is revoked or
    /// destroyed.
    pub retain: Option<Duration>,
    pub protection: Option<ProtectionClass>,
}

/// What a [`KeyringPolicy`] denotes.
#[verifier::ext_equal]
pub struct PolicyView {
    pub algorithm: Seq<char>,
    pub usage: Seq<KeyOperation>,
    pub rotate: Option<RotationSchedule>,
    pub retain: Option<Duration>,
    pub protection: Option<ProtectionClass>,
}

impl View for KeyringPolicy {
    type V = PolicyView;

    open spec fn view(&self) -> PolicyView {
        PolicyView {
            algorithm: self.algorithm@,
            usage: self.usage@,
            rotate: self.rotate,
            retain: self.retain,
            protection: self.protection,
        }
    }
}

/// What a ring demands of its provider.
#[derive(Debug)]
pub struct ProviderRequirement {
    pub algorithm: String,
    pub operations: Vec<KeyOperation>,
    pub automatic: bool,
    pub external_binding: bool,
    pub protection: Option<ProtectionClass>,
    pub needs_disable: bool,
    pub needs_destroy: bool,
    pub needs_attestation: bool,
}

/// What a provider makes a key by.
#[derive(Debug)]
pub struct KeySpec {
    pub algorithm: String,
    pub operations: Vec<KeyOperation>,
    pub protection: Option<ProtectionClass>,
}

/// Whether this is what a policy demands of a provider.
pub open spec fn demanded(requirement: ProviderRequirement, policy: PolicyView) -> bool {
    let manual = policy.rotate is Some && policy.rotate->0.mode == RotationMode::Manual;
    &&& requirement.algorithm@ == policy.algorithm
    &&& requirement.operations@ == policy.usage
    &&& requirement.automatic == !manual
    &&& requirement.external_binding == manual
    &&& requirement.protection == policy.protection
    &&& requirement.needs_disable == policy.rotate is Some
    &&& !requirement.needs_destroy
    &&& !requirement.needs_attestation
}

/// Whether a provider makes a key of a ring with this policy by this.
pub open spec fn made_by(spec: KeySpec, policy: PolicyView) -> bool {
    &&& spec.algorithm@ == policy.algorithm
    &&& spec.operations@ == policy.usage
    &&& spec.protection == policy.protection
}

fn copy_operations(v: &Vec<KeyOperation>) -> (r: Vec<KeyOperation>)
    ensures
        r@ == v@,
{
    let mut r: Vec<KeyOperation> = Vec::new();
    let mut i: usize = 0;
    while i < v.len()
        invariant
            i <= v@.len(),
            r@ == v@.take(i as int),
        decreases v@.len() - i,
    {
        r.push(v[i]);
        proof {
            assert(v@.take(i + 1) =~= v@.take(i as int).push(v@[i as int]));
        }
        i = i + 1;
    }
    proof {
        assert(v@.take(i as int) =~= v@);
    }
    r
}

impl KeyringPolicy {
    /// What the policy demands of a provider: a ring that an operator drives binds
    /// outside keys, any other makes its own; a ring that rotates disables old ones.
    pub fn requirement(&self) -> (r: ProviderRequirement)
        ensures
            r.algorithm@ == self@.algorithm,
            r.operations@ == self@.usage,
            r.automatic == !(self@.rotate is Some && self@.rotate->0.mode == RotationMode::Manual),
            r.external_binding == !r.automatic,
            r.protection == self@.protection,
            r.needs_disable == self@.rotate is Some,
            !r.needs_destroy,
            !r.needs_attestation,
    {
        let manual = self.is_manual();
        ProviderRequirement {
            algorithm: self.algorithm.clone(),
            operations: copy_operations(&self.usage),
            automatic: !manual,
            external_binding: manual,
            protection: self.protection,
            needs_disable: self.rotate.is_some(),
            needs_destroy: false,
            needs_attestation: false,
        }
    }

    fn is_manual(&self) -> (r: bool)
        ensures
            r == (self@.rotate is Some && self@.rotate->0.mode == RotationMode::Manual),
    {
        match self.rotate {
            Some(schedule) => schedule.mode == RotationMode::Manual,
            None => false,
        }
    }

    /// Take the public part of a key that is of the declared algorithm.
    pub fn check_public(&self, public: PublicKey) -> (r: Result<PublicKey, KeyringError>)
        ensures
            match r {
                Ok(p) => p == public && public.algorithm@ == self@.algorithm,
                Err(e) => public.algorithm@ != self@.algorithm && e@ == (KeyringErrorView::AlgorithmMismatch {
                    declared: self@.algorithm,
                    found: public.algorithm@,
                }),
            },
    {
        if same_text(public.algorithm.as_str(), self.algorithm.as_str()) {
            Ok(public)
        } else {
            Err(
                KeyringError::AlgorithmMismatch { declared: self.algorithm.clone(), found: public.algorithm },
            )
        }
    }

    /// What a provider makes a key of this ring by.
    fn spec(&self) -> (r: KeySpec)
        ensures
            r.algorithm@ == self@.algorithm,
            r.operations@ == self@.usage,
            r.protection == self@.protection,
    {
        KeySpec {
            algorithm: self.algorithm.clone(),
            operations: copy_operations(&self.usage),
            protection: self.protection,
        }
    }
}

/// Why a ring could not do something.
#[derive(Debug)]
pub enum KeyringError {
    /// The provider does not meet the policy.
    Capability(String),
    /// The provider failed.
    Provider(String),
    /// The provider gave an invalid public key.
    PublicKey(String),
    /// A key is of another algorithm than the policy declares.
    AlgorithmMismatch { declared: String, found: String },
    /// The ring has no active version.
    NoActiveVersion,
    /// The ring has no such version.
    UnknownVersion(u64),
}

/// What a [`KeyringError`] says.
#[verifier::ext_equal]
pub enum KeyringErrorView {
    Capability(Seq<char>),
    Provider(Seq<char>),
    PublicKey(Seq<char>),
    AlgorithmMismatch { declared: Seq<char>, found: Seq<char> },
    NoActiveVersion,
    UnknownVersion(u64),
}

impl View for KeyringError {
    type V = KeyringErrorView;

    open spec fn view(&self) -> KeyringErrorView {
        match self {
            KeyringError::Capability(m) => KeyringErrorView::Capability(m@),
            KeyringError::Provider(m) => KeyringErrorView::Provider(m@),
            KeyringError::PublicKey(m) => KeyringErrorView::PublicKey(m@),
            KeyringError::AlgorithmMismatch { declared, found } => KeyringErrorView::AlgorithmMismatch {
                declared: declared@,
                found: found@,
            },
            KeyringError::NoActiveVersion => KeyringErrorView::NoActiveVersion,
            KeyringError::UnknownVersion(id) => KeyringErrorView::UnknownVersion(*id),
        }
    }
}

/// A ring's failure in words.
pub open spec fn keyring_error_text(e: KeyringErrorView) -> Seq<char> {
    match e {
        KeyringErrorView::Capability(m) => "provider fails keyring capability check: "@ + m,
        KeyringErrorView::Provider(m) => "provider operation failed: "@ + m,
        KeyringErrorView::PublicKey(m) => "provider returned an invalid public key: "@ + m,
        KeyringErrorView::AlgorithmMismatch { declared, found } => "version algorithm `"@ + found
            + "` does not match policy `"@ + declared + "`"@,
        KeyringErrorView::NoActiveVersion => "keyring has no active version"@,
        KeyringErrorView::UnknownVersion(id) => "keyring has no version "@ + numeral(id as nat),
    }
}

impl KeyringError {
    /// The failure in words.
    pub fn text(&self) -> (r: String)
        ensures
            r@ == keyring_error_text(self@),
    {
        match self {
            KeyringError::Capability(m) => concat("provider fails keyring capability check: ", m.as_str()),
            KeyringError::Provider(m) => concat("provider operation failed: ", m.as_str()),
            KeyringError::PublicKey(m) => concat("provider returned an invalid public key: ", m.as_str()),
            KeyringError::AlgorithmMismatch { declared, found } => concat5(
                "version algorithm `",
                found.as_str(),
                "` does not match policy `",
                declared.as_str(),
                "`",
            ),
            KeyringError::NoActiveVersion => String::from_str("keyring has no active version"),
            KeyringError::UnknownVersion(id) => {
                let ordinal = render_number(*id as u128);
                concat("keyring has no version ", ordinal.as_str())
            },
        }
    }
}

/// What came of bringing a ring up to date.
#[derive(Debug, Clone, Copy, PartialEq, Eq, Structural)]
pub enum RotationOutcome {
    /// No rotation was due.
    NotDue,
    /// The due rotations were done; this version is active now.
    Rotated(VersionId),
    /// The provider failed; the current version stays active and the ring is overdue.
    KeptCurrentOverdue,
}

/// A token: the ring and the version that signed it, and the signature.
#[derive(Debug)]
pub struct SessionToken {
    pub ring: String,
    pub version: VersionId,
    pub signature: Vec<u8>,
}

impl SessionToken {
    /// The version that signed the token.
    pub fn version(&self) -> (r: VersionId)
        ensures
            r == self.version,
    {
        self.version
    }

    /// The ring that signed the token.
    pub fn ring(&self) -> (r: &str)
        ensures
            r@ == self.ring@,
    {
        self.ring.as_str()
    }

    /// The signature of the provider.
    pub fn signature(&self) -> (r: &[u8])
        ensures
            r@ == self.signature@,
    {
        self.signature.as_slice()
    }
}

/// Why a token was not verified.
#[derive(Debug, Clone, Copy, PartialEq, Eq, Structural)]
pub enum VerifyError {
    /// Another ring signed it.
    WrongRing,
    /// Its version is not accepted now.
    VersionNotAccepted,
}

impl VerifyError {
    /// The failure in words.
    pub fn text(&self) -> (r: String)
        ensures
            r@ == (match *self {
                VerifyError::WrongRing => "token was signed by a different keyring"@,
                VerifyError::VersionNotAccepted => "token version is no longer accepted"@,
            }),
    {
        match self {
            VerifyError::WrongRing => String::from_str("token was signed by a different keyring"),
            VerifyError::VersionNotAccepted => String::from_str("token version is no longer accepted"),
        }
    }
}

/// A key a provider made or bound, with its verified public part.
#[derive(Debug)]
pub struct Issued {
    pub handle: u64,
    pub algorithm: String,
    pub public_key: Value,
    pub attestation: Option<Value>,
}

/// What an [`Issued`] denotes.
#[verifier::ext_equal]
pub struct IssuedView {
    pub handle: u64,
    pub algorithm: Seq<char>,
    pub public_key: ValueView,
    pub attestation: Option<ValueView>,
}

impl View for Issued {
    type V = IssuedView;

    open spec fn view(&self) -> IssuedView {
        IssuedView {
            handle: self.handle,
            algorithm: self.algorithm@,
            public_key: self.public_key@,
            attestation: optional(self.attestation),
        }
    }
}

/// The public part of a key.
#[derive(Debug)]
pub struct PublicKey {
    pub algorithm: String,
    pub material: Value,
}

/// The versions of a ring, and its policy.
pub struct Ring {
    pub name: String,
    pub policy: KeyringPolicy,
    pub versions: Vec<KeyVersion>,
    pub next_id: u64,
    pub overdue: bool,
}

/// What a [`Ring`] denotes.
#[verifier::ext_equal]
pub struct RingView {
    pub name: Seq<char>,
    pub policy: PolicyView,
    pub versions: Seq<VersionView>,
    pub next_id: u64,
    pub overdue: bool,
}

impl View for Ring {
    type V = RingView;

    open spec fn view(&self) -> RingView {
        RingView {
            name: self.name@,
            policy: self.policy@,
            versions: version_views(self.versions@),
            next_id: self.next_id,
            overdue: self.overdue,
        }
    }
}

/// Whether a ring is in order: ordinals ascend and are behind the next one, and at
/// most one version is active.
pub open spec fn in_order(ring: RingView) -> bool {
    &&& forall|i: int, j: int|
        0 <= i < j < ring.versions.len() ==> (#[trigger] ring.versions[i]).id < (#[trigger] ring.versions[j]).id
    &&& forall|i: int| 0 <= i < ring.versions.len() ==> (#[trigger] ring.versions[i]).id < ring.next_id
    &&& forall|i: int, j: int|
        0 <= i < j < ring.versions.len() ==> !((#[trigger] ring.versions[i]).state == KeyState::Active && (
        #[trigger] ring.versions[j]).state == KeyState::Active)
}

/// The first version in a state.
pub open spec fn first_in(versions: Seq<VersionView>, state: KeyState) -> Option<int>
    decreases versions.len(),
{
    if versions.len() == 0 {
        None
    } else {
        match first_in(versions.drop_last(), state) {
            Some(i) => Some(i),
            None => if versions.last().state == state {
                Some(versions.len() - 1)
            } else {
                None
            },
        }
    }
}

/// The first version with an ordinal.
pub open spec fn version_at(versions: Seq<VersionView>, id: u64) -> Option<int>
    decreases versions.len(),
{
    if versions.len() == 0 {
        None
    } else {
        match version_at(versions.drop_last(), id) {
            Some(i) => Some(i),
            None => if versions.last().id == id {
                Some(versions.len() - 1)
            } else {
                None
            },
        }
    }
}

/// Whether a version is accepted for verification at an instant: the active one, and a
/// retired one as long as the ring retains it.
pub open spec fn is_accepted(policy: PolicyView, version: VersionView, now: Timestamp) -> bool {
    match version.state {
        KeyState::Active => true,
        KeyState::Retired => match (policy.retain, version.retired_at) {
            (Some(retain), Some(at)) => now.instant() < shifted(at, ticks(retain, at.precision)).instant(),
            _ => true,
        },
        _ => false,
    }
}

/// A ring with a key recorded as a pending version.
pub open spec fn recorded(ring: RingView, key: IssuedView, now: Timestamp) -> RingView {
    RingView {
        versions: ring.versions.push(
            VersionView {
                id: ring.next_id,
                algorithm: key.algorithm,
                public_key: key.public_key,
                created_at: now,
                activated_at: None,
                retired_at: None,
                revoked_at: None,
                attestation: key.attestation,
                state: KeyState::Pending,
                handle: key.handle,
            },
        ),
        next_id: (ring.next_id + 1) as u64,
        ..ring
    }
}

/// A version that is no longer the active one.
pub open spec fn stood_down(version: VersionView, now: Timestamp) -> VersionView {
    if version.state == KeyState::Active {
        VersionView { state: KeyState::Retired, retired_at: Some(now), ..version }
    } else {
        version
    }
}

/// Versions of which none is active any more.
pub open spec fn all_stood_down(versions: Seq<VersionView>, now: Timestamp) -> Seq<VersionView> {
    Seq::new(versions.len(), |i: int| stood_down(versions[i], now))
}

/// A ring whose active version is this one; the one that was active is retired.
pub open spec fn activated(ring: RingView, id: u64, now: Timestamp) -> RingView {
    let down = all_stood_down(ring.versions, now);
    RingView {
        versions: match version_at(ring.versions, id) {
            Some(i) => down.update(
                i,
                VersionView { state: KeyState::Active, activated_at: Some(now), ..down[i] },
            ),
            None => down,
        },
        ..ring
    }
}

/// A ring in which a version is revoked.
pub open spec fn revoked(ring: RingView, id: u64, now: Timestamp) -> Result<RingView, KeyringErrorView> {
    match version_at(ring.versions, id) {
        Some(i) => Ok(
            RingView {
                versions: ring.versions.update(
                    i,
                    VersionView { state: KeyState::Revoked, revoked_at: Some(now), ..ring.versions[i] },
                ),
                ..ring
            },
        ),
        None => Err(KeyringErrorView::UnknownVersion(id)),
    }
}

/// A ring in which the material of a version is destroyed.
pub open spec fn destroyed(ring: RingView, i: int) -> RingView {
    RingView {
        versions: ring.versions.update(i, VersionView { state: KeyState::Destroyed, ..ring.versions[i] }),
        ..ring
    }
}

/// A ring after one rotation at an instant: a pending version is activated, or a new
/// key is recorded and activated. The active version's ordinal comes with it.
pub open spec fn rotated(ring: RingView, key: Option<IssuedView>, at: Timestamp) -> (RingView, u64) {
    match first_in(ring.versions, KeyState::Pending) {
        Some(i) => (activated(ring, ring.versions[i].id, at), ring.versions[i].id),
        None => (activated(recorded(ring, key->0, at), ring.next_id, at), ring.next_id),
    }
}

/// How far an instant is past a boundary.
pub open spec fn lateness(due: Timestamp, now: Timestamp) -> nat {
    if now.instant() < due.instant() {
        0
    } else {
        (now.instant() - due.instant() + 1) as nat
    }
}

/// The boundary after this one.
pub open spec fn next_boundary(due: Timestamp, every: Duration) -> Timestamp {
    shifted(due, ticks(every, due.precision))
}

/// How many boundaries have passed: one for each whole cadence, or a single one where
/// the cadence does not advance.
pub open spec fn boundaries(due: Timestamp, every: Duration, now: Timestamp) -> nat
    decreases lateness(due, now),
{
    if now.instant() < due.instant() {
        0
    } else if next_boundary(due, every).instant() <= due.instant() {
        1
    } else {
        1 + boundaries(next_boundary(due, every), every, now)
    }
}

/// A ring brought up to date over the boundaries that have passed, by what the
/// provider answered, in order: one rotation at each boundary, a failure keeps the
/// current version and ends it. Nothing where the answers do not fit.
pub open spec fn caught_up(
    ring: RingView,
    due: Timestamp,
    every: Duration,
    now: Timestamp,
    answers: Seq<Result<IssuedView, KeyringErrorView>>,
    so_far: RotationOutcome,
) -> Option<(RingView, RotationOutcome)>
    decreases lateness(due, now),
{
    if now.instant() < due.instant() {
        if answers.len() == 0 {
            Some((ring, so_far))
        } else {
            None
        }
    } else {
        let pending = first_in(ring.versions, KeyState::Pending) is Some;
        if !pending && answers.len() == 0 {
            None
        } else if !pending && answers[0] is Err {
            if answers.len() == 1 {
                Some((RingView { overdue: true, ..ring }, RotationOutcome::KeptCurrentOverdue))
            } else {
                None
            }
        } else {
            let key = if pending {
                None
            } else {
                Some(answers[0]->Ok_0)
            };
            let rest = if pending {
                answers
            } else {
                answers.drop_first()
            };
            let (turned, id) = rotated(ring, key, due);
            let turned = RingView { overdue: false, ..turned };
            let next = next_boundary(due, every);
            if next.instant() <= due.instant() {
                if rest.len() == 0 {
                    Some((turned, RotationOutcome::Rotated(VersionId(id))))
                } else {
                    None
                }
            } else {
                caught_up(turned, next, every, now, rest, RotationOutcome::Rotated(VersionId(id)))
            }
        }
    }
}

/// The handle of the active version's material.
pub open spec fn active_handle(ring: RingView) -> Option<u64> {
    match first_in(ring.versions, KeyState::Active) {
        Some(i) => Some(ring.versions[i].handle),
        None => None,
    }
}

/// Something a ring asks of its provider.
pub enum Asked {
    /// To make a key, which comes to this once it is inspected.
    Made(Result<IssuedView, KeyringErrorView>),
    /// To disable the key with this handle.
    Disabled(u64),
}

/// What turning a ring over asks of its provider, in order: a key where no version is
/// pending, and, once it has turned over, to disable the key of the version that was
/// active.
pub open spec fn asked_once(ring: RingView, answers: Seq<Result<IssuedView, KeyringErrorView>>) -> Seq<Asked> {
    let pending = first_in(ring.versions, KeyState::Pending) is Some;
    let made = if pending {
        Seq::empty()
    } else {
        seq![Asked::Made(answers[0])]
    };
    if !pending && answers[0] is Err {
        made
    } else {
        match active_handle(ring) {
            Some(handle) => made.push(Asked::Disabled(handle)),
            None => made,
        }
    }
}

/// What a ring that is brought up to date over the boundaries that have passed asks of
/// its provider, in order.
pub open spec fn asked_over(
    ring: RingView,
    due: Timestamp,
    every: Duration,
    now: Timestamp,
    answers: Seq<Result<IssuedView, KeyringErrorView>>,
) -> Seq<Asked>
    decreases lateness(due, now),
{
    let pending = first_in(ring.versions, KeyState::Pending) is Some;
    if now.instant() < due.instant() || !pending && answers.len() == 0 {
        Seq::empty()
    } else {
        let key = if pending {
            None
        } else {
            Some(answers[0]->Ok_0)
        };
        let rest = if pending {
            answers
        } else {
            answers.drop_first()
        };
        let turned = RingView { overdue: false, ..rotated(ring, key, due).0 };
        let next = next_boundary(due, every);
        if !pending && answers[0] is Err || next.instant() <= due.instant() {
            asked_once(ring, answers)
        } else {
            asked_once(ring, answers) + asked_over(turned, next, every, now, rest)
        }
    }
}

/// When the next rotation of a ring is due: an automatic ring with an active version
/// has a boundary one cadence after that version was activated.
pub open spec fn due_at(ring: RingView) -> Option<(Timestamp, RotationSchedule)> {
    match ring.policy.rotate {
        None => None,
        Some(schedule) => if schedule.mode != RotationMode::Automatic {
            None
        } else {
            match first_in(ring.versions, KeyState::Active) {
                None => None,
                Some(i) => match ring.versions[i].activated_at {
                    None => None,
                    Some(at) => Some((next_boundary(at, schedule.every), schedule)),
                },
            }
        },
    }
}

/// Whether the next version of a ring is to be shown ahead of its cutover.
pub open spec fn lead_reached(ring: RingView, due: Timestamp, schedule: RotationSchedule, now: Timestamp) -> bool {
    &&& first_in(ring.versions, KeyState::Pending) is None
    &&& now.instant() >= shifted(due, -ticks(schedule.overlap, due.precision)).instant()
}

impl Ring {
    fn find_in(&self, state: KeyState) -> (r: Option<usize>)
        ensures
            match r {
                Some(i) => i < self.versions@.len() && first_in(self@.versions, state) == Some(i as int),
                None => first_in(self@.versions, state) is None,
            },
    {
        let ghost all = self@.versions;
        let mut i: usize = 0;
        proof {
            assert(all.take(0) =~= Seq::<VersionView>::empty());
        }
        while i < self.versions.len()
            invariant
                all == self@.versions,
                i <= self.versions@.len(),
                first_in(all.take(i as int), state) is None,
            decreases self.versions@.len() - i,
        {
            proof {
                assert(all.take(i + 1).drop_last() =~= all.take(i as int));
                assert(all.take(i + 1).last() == all[i as int]);
            }
            if self.versions[i].state == state {
                proof {
                    lemma_first_prefix(all, state, i + 1);
                }
                return Some(i);
            }
            i = i + 1;
        }
        proof {
            assert(all.take(i as int) =~= all);
        }
        None
    }

    fn find_version(&self, id: VersionId) -> (r: Option<usize>)
        ensures
            match r {
                Some(i) => i < self.versions@.len() && version_at(self@.versions, id.0) == Some(i as int),
                None => version_at(self@.versions, id.0) is None,
            },
    {
        let ghost all = self@.versions;
        let mut i: usize = 0;
        proof {
            assert(all.take(0) =~= Seq::<VersionView>::empty());
        }
        while i < self.versions.len()
            invariant
                all == self@.versions,
                i <= self.versions@.len(),
                version_at(all.take(i as int), id.0) is None,
            decreases self.versions@.len() - i,
        {
            proof {
                assert(all.take(i + 1).drop_last() =~= all.take(i as int));
                assert(all.take(i + 1).last() == all[i as int]);
            }
            if self.versions[i].id == id {
                proof {
                    lemma_version_prefix(all, id.0, i + 1);
                }
                return Some(i);
            }
            i = i + 1;
        }
        proof {
            assert(all.take(i as int) =~= all);
        }
        None
    }

    /// The active version, where the ring has one.
    pub fn current(&self) -> (r: Option<&KeyVersion>)
        ensures
            match (r, first_in(self@.versions, KeyState::Active)) {
                (Some(v), Some(i)) => v@ == self@.versions[i],
                (None, None) => true,
                _ => false,
            },
    {
        match self.find_in(KeyState::Active) {
            Some(i) => Some(&self.versions[i]),
            None => None,
        }
    }

    pub fn accepts(&self, version: &KeyVersion, now: Timestamp) -> (r: bool)
        ensures
            r == is_accepted(self@.policy, version@, now),
    {
        match version.state {
            KeyState::Active => true,
            KeyState::Retired => match (self.policy.retain, version.retired_at) {
                (Some(retain), Some(at)) => now.earlier_than(instant_add(at, retain)),
                _ => true,
            },
            _ => false,
        }
    }

    /// The places of the versions accepted at an instant.
    pub fn accepted(&self, now: Timestamp) -> (r: Vec<usize>)
        ensures
            forall|j: int| 0 <= j < r@.len() ==> (#[trigger] r@[j]) < self@.versions.len(),
            forall|j: int, k: int| 0 <= j < k < r@.len() ==> #[trigger] r@[j] < #[trigger] r@[k],
            forall|i: int|
                0 <= i < self@.versions.len() ==> (is_accepted(self@.policy, #[trigger] self@.versions[i], now)
                    <==> exists|j: int| 0 <= j < r@.len() && #[trigger] r@[j] == i),
    {
        let ghost all = self@.versions;
        let mut r: Vec<usize> = Vec::new();
        let mut i: usize = 0;
        while i < self.versions.len()
            invariant
                all == self@.versions,
                i <= self.versions@.len(),
                forall|j: int| 0 <= j < r@.len() ==> (#[trigger] r@[j]) < i,
                forall|j: int, k: int| 0 <= j < k < r@.len() ==> #[trigger] r@[j] < #[trigger] r@[k],
                forall|k: int|
                    0 <= k < i ==> (is_accepted(self@.policy, #[trigger] all[k], now) <==> exists|j: int|
                        0 <= j < r@.len() && #[trigger] r@[j] == k),
            decreases self.versions@.len() - i,
        {
            let ghost before = r@;
            let accepted = self.accepts(&self.versions[i], now);
            if accepted {
                r.push(i);
            }
            proof {
                assert forall|k: int| 0 <= k < i + 1 implies (is_accepted(self@.policy, #[trigger] all[k], now)
                    <==> exists|j: int| 0 <= j < r@.len() && #[trigger] r@[j] == k) by {
                    if k < i {
                        if is_accepted(self@.policy, all[k], now) {
                            let j = choose|j: int| 0 <= j < before.len() && #[trigger] before[j] == k;
                            assert(r@[j] == k);
                        }
                        if exists|j: int| 0 <= j < r@.len() && #[trigger] r@[j] == k {
                            let j = choose|j: int| 0 <= j < r@.len() && #[trigger] r@[j] == k;
                            assert(before[j] == k);
                        }
                    } else if accepted {
                        assert(r@[before.len() as int] == k);
                    }
                }
            }
            i = i + 1;
        }
        r
    }

    /// Verify a token at an instant: its ring must be this one, and its version must be
    /// accepted.
    pub fn verify(&self, token: &SessionToken, now: Timestamp) -> (r: Result<VersionId, VerifyError>)
        ensures
            r == verified(self@, token.ring@, token.version.0, now),
    {
        if !same_text(token.ring.as_str(), self.name.as_str()) {
            return Err(VerifyError::WrongRing);
        }
        let ghost all = self@.versions;
        let mut i: usize = 0;
        while i < self.versions.len()
            invariant
                all == self@.versions,
                token.ring@ == self@.name,
                i <= self.versions@.len(),
                forall|j: int|
                    0 <= j < i ==> !((#[trigger] all[j]).id == token.version.0 && is_accepted(self@.policy, all[j], now)),
            decreases self.versions@.len() - i,
        {
            if self.versions[i].id == token.version && self.accepts(&self.versions[i], now) {
                proof {
                    assert(all[i as int].id == token.version.0);
                }
                return Ok(token.version);
            }
            i = i + 1;
        }
        Err(VerifyError::VersionNotAccepted)
    }

    /// Record a key of the ring's algorithm as a pending version.
    pub fn record(&mut self, key: Issued, now: Timestamp) -> (r: VersionId)
        requires
            old(self).next_id < u64::MAX,
        ensures
            final(self)@ == recorded(old(self)@, key@, now),
            r.0 == old(self)@.next_id,
    {
        let ghost before = self@;
        let id = VersionId(self.next_id);
        self.next_id = self.next_id + 1;
        self.versions.push(
            KeyVersion {
                id,
                algorithm: key.algorithm,
                public_key: key.public_key,
                created_at: now,
                activated_at: None,
                retired_at: None,
                revoked_at: None,
                attestation: key.attestation,
                state: KeyState::Pending,
                handle: KeyHandle { token: key.handle },
            },
        );
        proof {
            assert(self@.versions =~= recorded(before, key@, now).versions);
        }
        id
    }

    /// Activate a version, and retire the one that was active.
    pub fn activate(&mut self, version: VersionId, now: Timestamp)
        ensures
            final(self)@ == activated(old(self)@, version.0, now),
    {
        let ghost before = self@;
        let ghost down = all_stood_down(before.versions, now);
        let target = self.find_version(version);
        let mut i: usize = 0;
        while i < self.versions.len()
            invariant
                before == old(self)@,
                down == all_stood_down(before.versions, now),
                i <= self.versions@.len(),
                self.versions@.len() == before.versions.len(),
                self@ == (RingView { versions: self@.versions, ..before }),
                forall|j: int| 0 <= j < i ==> (#[trigger] self@.versions[j]) == down[j],
                forall|j: int| i <= j < before.versions.len() ==> (#[trigger] self@.versions[j]) == before.versions[j],
            decreases self.versions@.len() - i,
        {
            let ghost so_far = self@.versions;
            proof {
                assert(so_far[i as int] == before.versions[i as int]);
            }
            if self.versions[i].state == KeyState::Active {
                self.versions[i].state = KeyState::Retired;
                self.versions[i].retired_at = Some(now);
            }
            proof {
                assert(self@.versions =~= so_far.update(i as int, down[i as int]));
            }
            i = i + 1;
        }
        proof {
            assert(self@.versions =~= down);
        }
        if let Some(i) = target {
            self.versions[i].state = KeyState::Active;
            self.versions[i].activated_at = Some(now);
        }
        proof {
            assert(self@.versions =~= activated(before, version.0, now).versions);
        }
    }

    /// Revoke a version: it is rejected from now on.
    pub fn revoke(&mut self, version: VersionId, now: Timestamp) -> (r: Result<(), KeyringError>)
        ensures
            match (r, revoked(old(self)@, version.0, now)) {
                (Ok(_), Ok(ring)) => final(self)@ == ring,
                (Err(e), Err(x)) => e@ == x && final(self)@ == old(self)@,
                _ => false,
            },
    {
        let ghost before = self@;
        match self.find_version(version) {
            Some(i) => {
                self.versions[i].state = KeyState::Revoked;
                self.versions[i].revoked_at = Some(now);
                proof {
                    assert(self@.versions =~= revoked(before, version.0, now)->Ok_0.versions);
                }
                Ok(())
            },
            None => Err(KeyringError::UnknownVersion(version.0)),
        }
    }

    /// Turn the ring over at an instant, by a pending version or by this key.
    pub fn rotate(&mut self, key: Option<Issued>, at: Timestamp) -> (r: VersionId)
        requires
            first_in(old(self)@.versions, KeyState::Pending) is Some || key is Some && old(self).next_id < u64::MAX,
        ensures
            (final(self)@, r.0) == rotated(
                old(self)@,
                match key {
                    Some(k) => Some(k@),
                    None => None,
                },
                at,
            ),
    {
        if let Some(i) = self.find_in(KeyState::Pending) {
            let id = self.versions[i].id;
            self.activate(id, at);
            return id;
        }
        match key {
            Some(key) => {
                let id = self.record(key, at);
                self.activate(id, at);
                id
            },
            None => {
                proof {
                    assert(false);
                }
                VersionId(self.next_id)
            },
        }
    }
}

/// What verifying a token comes to.
pub open spec fn verified(ring: RingView, token_ring: Seq<char>, version: u64, now: Timestamp) -> Result<
    VersionId,
    VerifyError,
> {
    if token_ring != ring.name {
        Err(VerifyError::WrongRing)
    } else if exists|i: int|
        0 <= i < ring.versions.len() && (#[trigger] ring.versions[i]).id == version && is_accepted(
            ring.policy,
            ring.versions[i],
            now,
        ) {
        Ok(VersionId(version))
    } else {
        Err(VerifyError::VersionNotAccepted)
    }
}

proof fn lemma_first_prefix(versions: Seq<VersionView>, state: KeyState, n: int)
    requires
        0 <= n <= versions.len(),
        first_in(versions.take(n), state) is Some,
    ensures
        first_in(versions, state) == first_in(versions.take(n), state),
    decreases versions.len() - n,
{
    if n == versions.len() {
        assert(versions.take(n) =~= versions);
    } else {
        assert(versions.take(n + 1).drop_last() =~= versions.take(n));
        lemma_first_prefix(versions, state, n + 1);
    }
}

proof fn lemma_version_prefix(versions: Seq<VersionView>, id: u64, n: int)
    requires
        0 <= n <= versions.len(),
        version_at(versions.take(n), id) is Some,
    ensures
        version_at(versions, id) == version_at(versions.take(n), id),
    decreases versions.len() - n,
{
    if n == versions.len() {
        assert(versions.take(n) =~= versions);
    } else {
        assert(versions.take(n + 1).drop_last() =~= versions.take(n));
        lemma_version_prefix(versions, id, n + 1);
    }
}

impl Ring {
    /// Take a key that a provider answered with: record and activate it. Where the
    /// provider failed, nothing changes.
    pub fn take(&mut self, answer: Result<Issued, KeyringError>, now: Timestamp) -> (r: Result<VersionId, KeyringError>)
        requires
            old(self).next_id < u64::MAX,
        ensures
            (final(self)@, ordinal(r)) == taken(old(self)@, answer_view(answer), now),
    {
        match answer {
            Err(e) => Err(e),
            Ok(key) => {
                let ghost before = self@;
                let ghost issued = key@;
                let id = self.record(key, now);
                self.activate(id, now);
                proof {
                    assert(self@ == activated(recorded(before, issued, now), id.0, now));
                }
                Ok(id)
            },
        }
    }
}

/// A host that keeps key material: it makes keys, binds those made elsewhere, shows
/// their public part, and operates with them.
pub trait KeyProvider: Sized {
    /// What the provider lacks of a requirement, where it lacks something.
    fn shortfall(&self, requirement: &ProviderRequirement) -> Option<String>;

    /// Make a key.
    fn generate(&mut self, spec: &KeySpec) -> Result<u64, KeyringError>;

    /// Bind a key that was made elsewhere.
    fn bind(&mut self, external: &str, spec: &KeySpec) -> Result<u64, KeyringError>;

    /// Read and check the public part of a key.
    fn public_key(&self, handle: u64) -> Result<PublicKey, KeyringError>;

    /// Attest a key, where the provider can.
    fn attest(&self, handle: u64) -> Result<Option<Value>, KeyringError>;

    /// Disable a key for new operations.
    fn disable(&mut self, handle: u64) -> Result<(), KeyringError>;

    /// Destroy the material of a key.
    fn destroy(&mut self, handle: u64) -> Result<(), KeyringError>;

    /// Sign a message.
    fn sign(&self, handle: u64, algorithm: &str, message: &[u8]) -> Result<Vec<u8>, KeyringError>;
}

/// A ring over a provider.
pub struct Keyring<P: KeyProvider> {
    pub ring: Ring,
    pub provider: P,
}

/// What a ring that brings itself up to date comes to by what its provider answers.
pub open spec fn brought_up(
    ring: RingView,
    now: Timestamp,
    answers: Seq<Result<IssuedView, KeyringErrorView>>,
) -> Option<(RingView, RotationOutcome)> {
    match due_at(ring) {
        None => if answers.len() == 0 {
            Some((ring, RotationOutcome::NotDue))
        } else {
            None
        },
        Some((due, schedule)) => if now.instant() < due.instant() {
            if lead_reached(ring, due, schedule, now) {
                if answers.len() != 1 {
                    None
                } else {
                    match answers[0] {
                        Ok(key) => Some((recorded(ring, key, now), RotationOutcome::NotDue)),
                        Err(_) => Some((ring, RotationOutcome::NotDue)),
                    }
                }
            } else if answers.len() == 0 {
                Some((ring, RotationOutcome::NotDue))
            } else {
                None
            }
        } else {
            caught_up(ring, due, schedule.every, now, answers, RotationOutcome::NotDue)
        },
    }
}

/// What a ring that brings itself up to date asks of its provider, in order.
pub open spec fn asked(
    ring: RingView,
    now: Timestamp,
    answers: Seq<Result<IssuedView, KeyringErrorView>>,
) -> Seq<Asked> {
    match due_at(ring) {
        None => Seq::empty(),
        Some((due, schedule)) => if now.instant() < due.instant() {
            if answers.len() == 1 {
                seq![Asked::Made(answers[0])]
            } else {
                Seq::empty()
            }
        } else {
            asked_over(ring, due, schedule.every, now, answers)
        },
    }
}

/// Whether a provider went through these states, from one to another, in a number of
/// steps.
pub open spec fn went_through<P>(states: Seq<P>, from: P, to: P, steps: nat) -> bool {
    states.len() == steps + 1 && states[0] == from && states[steps as int] == to
}

/// Whether a key may be recorded: it is of the ring's algorithm.
pub open spec fn fits(policy: PolicyView, answer: Result<IssuedView, KeyringErrorView>) -> bool {
    answer matches Ok(key) ==> key.algorithm == policy.algorithm
}

/// What a key of this handle is inspected to, by what the provider answers: its public
/// part is read, and attested only where it is of the ring's algorithm.
pub open spec fn inspected<P: KeyProvider>(
    provider: P,
    policy: PolicyView,
    handle: u64,
    answer: Result<IssuedView, KeyringErrorView>,
) -> bool {
    exists|public: Result<PublicKey, KeyringError>| #[trigger]
        call_ensures(P::public_key, (&provider, handle), public) && match public {
            Err(e) => answer == Err::<IssuedView, KeyringErrorView>(e@),
            Ok(key) => if key.algorithm@ != policy.algorithm {
                answer == Err::<IssuedView, KeyringErrorView>(
                    KeyringErrorView::AlgorithmMismatch { declared: policy.algorithm, found: key.algorithm@ },
                )
            } else {
                exists|attested: Result<Option<Value>, KeyringError>| #[trigger]
                    call_ensures(P::attest, (&provider, handle), attested) && match attested {
                        Err(e) => answer == Err::<IssuedView, KeyringErrorView>(e@),
                        Ok(attestation) => answer == Ok::<IssuedView, KeyringErrorView>(
                            IssuedView {
                                handle,
                                algorithm: key.algorithm@,
                                public_key: key.material@,
                                attestation: optional(attestation),
                            },
                        ),
                    }
            },
        }
}

/// What a request for a key comes to: the provider gave no handle, or the key of the
/// handle it gave is inspected.
pub open spec fn requested<P: KeyProvider>(
    provider: P,
    policy: PolicyView,
    given: Result<u64, KeyringError>,
    answer: Result<IssuedView, KeyringErrorView>,
) -> bool {
    match given {
        Err(e) => answer == Err::<IssuedView, KeyringErrorView>(e@),
        Ok(handle) => inspected(provider, policy, handle, answer),
    }
}

/// What a ring answers to a request for a signature over a message: without an active
/// version a refusal, and with one what the provider answers when it is asked to sign
/// the message with the key of that version.
pub open spec fn signs<P: KeyProvider>(
    keyring: Keyring<P>,
    message: &[u8],
    answer: Result<SessionToken, KeyringError>,
) -> bool {
    match first_in(keyring.ring@.versions, KeyState::Active) {
        None => answer matches Err(e) && e@ is NoActiveVersion,
        Some(i) => exists|algorithm: &str, signed: Result<Vec<u8>, KeyringError>|
            algorithm@ == keyring.ring@.versions[i].algorithm && #[trigger] call_ensures(
                P::sign,
                (&keyring.provider, keyring.ring@.versions[i].handle, algorithm, message),
                signed,
            ) && match (answer, signed) {
                (Ok(token), Ok(signature)) => token.ring@ == keyring.ring@.name && token.version.0
                    == keyring.ring@.versions[i].id && token.signature@ == signature@,
                (Err(e), Err(x)) => e@ == x@,
                _ => false,
            },
    }
}

/// A ring that takes a key a provider answered with: the key is recorded and activated,
/// or the failure is passed on and nothing changes.
pub open spec fn taken(ring: RingView, answer: Result<IssuedView, KeyringErrorView>, now: Timestamp) -> (
    RingView,
    Result<u64, KeyringErrorView>,
) {
    match answer {
        Ok(key) => (activated(recorded(ring, key, now), ring.next_id, now), Ok(ring.next_id)),
        Err(e) => (ring, Err(e)),
    }
}

/// The ordinal of the version an operation came to, or its failure.
pub open spec fn ordinal(r: Result<VersionId, KeyringError>) -> Result<u64, KeyringErrorView> {
    match r {
        Ok(id) => Ok(id.0),
        Err(e) => Err(e@),
    }
}

/// What an answer of a provider denotes.
pub open spec fn answer_view(answer: Result<Issued, KeyringError>) -> Result<IssuedView, KeyringErrorView> {
    match answer {
        Ok(key) => Ok(key@),
        Err(e) => Err(e@),
    }
}

/// How many ordinals bringing a ring up to date can use.
pub open spec fn ordinals_needed(ring: RingView, now: Timestamp) -> nat {
    match due_at(ring) {
        None => 0,
        Some((due, schedule)) => if now.instant() < due.instant() {
            1
        } else {
            boundaries(due, schedule.every, now)
        },
    }
}

/// Whether a catch-up that started on one ring goes on from another: what the rest of
/// the answers makes of the one, they make of the other behind those that were given.
pub open spec fn continues(
    start: RingView,
    first: Timestamp,
    ring: RingView,
    due: Timestamp,
    every: Duration,
    now: Timestamp,
    done: Seq<Result<IssuedView, KeyringErrorView>>,
    log: Seq<Asked>,
    outcome: RotationOutcome,
) -> bool {
    forall|rest: Seq<Result<IssuedView, KeyringErrorView>>|
        #![trigger done + rest]
        caught_up(ring, due, every, now, rest, outcome) == caught_up(
            start,
            first,
            every,
            now,
            done + rest,
            RotationOutcome::NotDue,
        ) && log + asked_over(ring, due, every, now, rest) == asked_over(start, first, every, now, done + rest)
}

proof fn lemma_nothing_done(start: RingView, first: Timestamp, every: Duration, now: Timestamp)
    ensures
        continues(
            start,
            first,
            start,
            first,
            every,
            now,
            Seq::empty(),
            Seq::empty(),
            RotationOutcome::NotDue,
        ),
{
    let done = Seq::<Result<IssuedView, KeyringErrorView>>::empty();
    assert forall|rest: Seq<Result<IssuedView, KeyringErrorView>>|
        #![trigger done + rest]
        caught_up(start, first, every, now, rest, RotationOutcome::NotDue) == caught_up(
            start,
            first,
            every,
            now,
            done + rest,
            RotationOutcome::NotDue,
        ) && Seq::<Asked>::empty() + asked_over(start, first, every, now, rest) == asked_over(
            start,
            first,
            every,
            now,
            done + rest,
        ) by {
        assert(done + rest =~= rest);
        let log = asked_over(start, first, every, now, rest);
        assert(Seq::<Asked>::empty() + log =~= log);
    }
}

proof fn lemma_stopped(
    start: RingView,
    first: Timestamp,
    ring: RingView,
    due: Timestamp,
    every: Duration,
    now: Timestamp,
    done: Seq<Result<IssuedView, KeyringErrorView>>,
    log: Seq<Asked>,
    outcome: RotationOutcome,
    answer: Seq<Result<IssuedView, KeyringErrorView>>,
)
    requires
        continues(start, first, ring, due, every, now, done, log, outcome),
        now.instant() >= due.instant(),
        first_in(ring.versions, KeyState::Pending) is None,
        answer.len() == 1,
        answer[0] is Err,
    ensures
        caught_up(start, first, every, now, done + answer, RotationOutcome::NotDue) == Some(
            (RingView { overdue: true, ..ring }, RotationOutcome::KeptCurrentOverdue),
        ),
        asked_over(start, first, every, now, done + answer) == log + asked_once(ring, answer),
{
    assert(asked_over(ring, due, every, now, answer) == asked_once(ring, answer));
}

proof fn lemma_turned(
    start: RingView,
    first: Timestamp,
    ring: RingView,
    due: Timestamp,
    every: Duration,
    now: Timestamp,
    done: Seq<Result<IssuedView, KeyringErrorView>>,
    log: Seq<Asked>,
    outcome: RotationOutcome,
    answer: Seq<Result<IssuedView, KeyringErrorView>>,
)
    requires
        continues(start, first, ring, due, every, now, done, log, outcome),
        now.instant() >= due.instant(),
        answer.len() == if first_in(ring.versions, KeyState::Pending) is Some {
            0nat
        } else {
            1nat
        },
        first_in(ring.versions, KeyState::Pending) is None ==> answer[0] is Ok,
    ensures
        ({
            let key = if first_in(ring.versions, KeyState::Pending) is Some {
                None
            } else {
                Some(answer[0]->Ok_0)
            };
            let turned = RingView { overdue: false, ..rotated(ring, key, due).0 };
            let result = RotationOutcome::Rotated(VersionId(rotated(ring, key, due).1));
            let next = next_boundary(due, every);
            if next.instant() <= due.instant() {
                &&& caught_up(start, first, every, now, done + answer, RotationOutcome::NotDue) == Some(
                    (turned, result),
                )
                &&& asked_over(start, first, every, now, done + answer) == log + asked_once(ring, answer)
            } else {
                continues(
                    start,
                    first,
                    turned,
                    next,
                    every,
                    now,
                    done + answer,
                    log + asked_once(ring, answer),
                    result,
                )
            }
        }),
{
    let pending = first_in(ring.versions, KeyState::Pending) is Some;
    let key = if pending {
        None
    } else {
        Some(answer[0]->Ok_0)
    };
    let turned = RingView { overdue: false, ..rotated(ring, key, due).0 };
    let result = RotationOutcome::Rotated(VersionId(rotated(ring, key, due).1));
    let next = next_boundary(due, every);
    let once = asked_once(ring, answer);
    let given = done + answer;
    if next.instant() <= due.instant() {
        if !pending {
            assert(answer.drop_first().len() == 0);
        }
        assert(caught_up(ring, due, every, now, answer, outcome) == Some((turned, result)));
        assert(asked_over(ring, due, every, now, answer) == once);
    } else {
        assert forall|rest: Seq<Result<IssuedView, KeyringErrorView>>|
            #![trigger given + rest]
            caught_up(turned, next, every, now, rest, result) == caught_up(
                start,
                first,
                every,
                now,
                given + rest,
                RotationOutcome::NotDue,
            ) && (log + once) + asked_over(turned, next, every, now, rest) == asked_over(
                start,
                first,
                every,
                now,
                given + rest,
            ) by {
            let all = answer + rest;
            assert(given + rest =~= done + all);
            if pending {
                assert(all =~= rest);
            } else {
                assert(all[0] == answer[0]);
                assert(all.drop_first() =~= rest);
            }
            assert(asked_once(ring, all) == once);
            let further = asked_over(turned, next, every, now, rest);
            assert(asked_over(ring, due, every, now, all) == once + further);
            assert((log + once) + further =~= log + (once + further));
        }
    }
}

proof fn lemma_up_to_date(
    start: RingView,
    first: Timestamp,
    ring: RingView,
    due: Timestamp,
    every: Duration,
    now: Timestamp,
    done: Seq<Result<IssuedView, KeyringErrorView>>,
    log: Seq<Asked>,
    outcome: RotationOutcome,
)
    requires
        continues(start, first, ring, due, every, now, done, log, outcome),
        now.instant() < due.instant(),
    ensures
        caught_up(start, first, every, now, done, RotationOutcome::NotDue) == Some((ring, outcome)),
        asked_over(start, first, every, now, done) == log,
{
    let none = Seq::<Result<IssuedView, KeyringErrorView>>::empty();
    assert(done + none =~= done);
    assert(log + asked_over(ring, due, every, now, none) =~= log);
}

impl<P: KeyProvider> Keyring<P> {
    /// The versions of the ring, oldest first.
    pub fn versions(&self) -> (r: &Vec<KeyVersion>)
        ensures
            version_views(r@) == self.ring@.versions,
    {
        &self.ring.versions
    }

    /// Whether a scheduled rotation could not be made in time.
    pub fn is_overdue(&self) -> (r: bool)
        ensures
            r == self.ring@.overdue,
    {
        self.ring.overdue
    }

    /// The provider, to operate on its keys.
    pub fn provider_mut(&mut self) -> (r: &mut P)
        ensures
            *r == old(self).provider,
            final(self).provider == *final(r),
            final(self).ring == old(self).ring,
    {
        &mut self.provider
    }

    /// A ring without versions over a provider that meets its policy.
    pub fn load(name: String, provider: P, policy: KeyringPolicy) -> (r: Result<Keyring<P>, KeyringError>)
        ensures
            exists|requirement: ProviderRequirement, lack: Option<String>|
                demanded(requirement, policy@) && #[trigger] call_ensures(
                    P::shortfall,
                    (&provider, &requirement),
                    lack,
                ) && match (r, lack) {
                    (Ok(k), None) => {
                        &&& k.provider == provider
                        &&& k.ring@.name == name@
                        &&& k.ring@.policy == policy@
                        &&& k.ring@.versions == Seq::<VersionView>::empty()
                        &&& k.ring@.next_id == 1
                        &&& !k.ring@.overdue
                        &&& in_order(k.ring@)
                    },
                    (Err(e), Some(m)) => e@ == KeyringErrorView::Capability(m@),
                    _ => false,
                },
    {
        let requirement = policy.requirement();
        if let Some(lack) = provider.shortfall(&requirement) {
            return Err(KeyringError::Capability(lack));
        }
        let ring = Ring { name, policy, versions: Vec::new(), next_id: 1, overdue: false };
        proof {
            assert(ring@.versions =~= Seq::<VersionView>::empty());
        }
        Ok(Keyring { ring, provider })
    }

    /// Read the public part of a key, check that it is of the ring's algorithm, and
    /// have it attested.
    fn inspect(&self, handle: u64) -> (r: Result<Issued, KeyringError>)
        ensures
            fits(self.ring@.policy, answer_view(r)),
            r matches Ok(key) ==> key.handle == handle,
            inspected(self.provider, self.ring@.policy, handle, answer_view(r)),
    {
        let public = match self.provider.public_key(handle) {
            Ok(public) => public,
            Err(e) => {
                return Err(e);
            },
        };
        let public = match self.ring.policy.check_public(public) {
            Ok(public) => public,
            Err(e) => {
                return Err(e);
            },
        };
        let attestation = match self.provider.attest(handle) {
            Ok(attestation) => attestation,
            Err(e) => {
                return Err(e);
            },
        };
        Ok(Issued { handle, algorithm: public.algorithm, public_key: public.material, attestation })
    }

    /// Have the provider make a key.
    fn issue(&mut self) -> (r: Result<Issued, KeyringError>)
        ensures
            final(self).ring == old(self).ring,
            fits(final(self).ring@.policy, answer_view(r)),
            exists|p: &mut P, spec: KeySpec, given: Result<u64, KeyringError>|
                *p == old(self).provider && *final(p) == final(self).provider && made_by(spec, old(self).ring@.policy)
                    && #[trigger] call_ensures(P::generate, (p, &spec), given) && requested(
                    final(self).provider,
                    old(self).ring@.policy,
                    given,
                    answer_view(r),
                ),
    {
        let spec = self.ring.policy.spec();
        match self.provider.generate(&spec) {
            Err(e) => Err(e),
            Ok(handle) => self.inspect(handle),
        }
    }

    /// Give a new ring its first version. A ring that an operator drives has none until
    /// one is bound; in any other a key is made and activated, or the provider failed
    /// and nothing changes.
    pub fn bootstrap(&mut self, now: Timestamp) -> (r: Result<(), KeyringError>)
        requires
            old(self).ring.next_id < u64::MAX,
        ensures
            ({
                let ring = old(self).ring@;
                let manual = ring.policy.rotate is Some && ring.policy.rotate->0.mode == RotationMode::Manual;
                match r {
                    Ok(_) => if manual {
                        final(self).ring@ == ring
                    } else {
                        exists|key: IssuedView|
                            key.algorithm == ring.policy.algorithm && final(self).ring@ == activated(
                                #[trigger] recorded(ring, key, now),
                                ring.next_id,
                                now,
                            )
                    },
                    Err(_) => !manual && final(self).ring@ == ring,
                }
            }),
            !(old(self).ring@.policy.rotate is Some && old(self).ring@.policy.rotate->0.mode == RotationMode::Manual)
                ==> exists|
                p: &mut P,
                spec: KeySpec,
                given: Result<u64, KeyringError>,
                answer: Result<IssuedView, KeyringErrorView>,
            |
                *p == old(self).provider && *final(p) == final(self).provider && made_by(spec, old(self).ring@.policy)
                    && #[trigger] call_ensures(P::generate, (p, &spec), given) && #[trigger] requested(
                    final(self).provider,
                    old(self).ring@.policy,
                    given,
                    answer,
                ) && final(self).ring@ == taken(old(self).ring@, answer, now).0 && match (r, answer) {
                    (Ok(_), Ok(_)) => true,
                    (Err(e), Err(x)) => e@ == x,
                    _ => false,
                },
    {
        if self.ring.policy.is_manual() {
            return Ok(());
        }
        let answer = self.issue();
        let ghost answered = answer_view(answer);
        let ghost before = self.ring@;
        let r = match self.ring.take(answer, now) {
            Err(e) => Err(e),
            Ok(_) => Ok(()),
        };
        proof {
            assert(self.ring@ == taken(before, answered, now).0);
            assert(exists|p: &mut P, spec: KeySpec, given: Result<u64, KeyringError>|
                *p == old(self).provider && *final(p) == self.provider && made_by(spec, before.policy)
                    && #[trigger] call_ensures(P::generate, (p, &spec), given) && requested(
                    self.provider,
                    before.policy,
                    given,
                    answered,
                ));
            if let Ok(key) = answered {
                assert(self.ring@ == activated(recorded(before, key, now), before.next_id, now));
            }
        }
        r
    }

    /// Do every rotation that is due, one at each boundary that has passed, before the
    /// next operation; ahead of a boundary, show the next version once its lead is
    /// reached. Every key is one that the provider was asked to make, and after each
    /// rotation it is asked to disable the key of the version that was active.
    pub fn ensure_current(&mut self, now: Timestamp) -> (r: RotationOutcome)
        requires
            old(self).ring.next_id + ordinals_needed(old(self).ring@, now) <= u64::MAX,
        ensures
            exists|answers: Seq<Result<IssuedView, KeyringErrorView>>, states: Seq<P>|
                #[trigger] brought_up(old(self).ring@, now, answers) == Some((final(self).ring@, r)) && (forall|i: int|
                    0 <= i < answers.len() ==> fits(old(self).ring@.policy, #[trigger] answers[i]))
                    && #[trigger] went_through(
                    states,
                    old(self).provider,
                    final(self).provider,
                    asked(old(self).ring@, now, answers).len(),
                ) && (forall|i: int|
                    0 <= i < asked(old(self).ring@, now, answers).len()
                        ==> ((#[trigger] asked(old(self).ring@, now, answers)[i]) is Made
                        ==> exists|p: &mut P, spec: KeySpec, given: Result<u64, KeyringError>|
                            *p == states[i] && *final(p) == states[i + 1] && made_by(spec, old(self).ring@.policy)
                                && #[trigger] call_ensures(P::generate, (p, &spec), given) && requested(
                                states[i + 1],
                                old(self).ring@.policy,
                                given,
                                asked(old(self).ring@, now, answers)[i]->Made_0,
                            )) && (asked(old(self).ring@, now, answers)[i] is Disabled
                                ==> exists|p: &mut P, done: Result<(), KeyringError>|
                            *p == states[i] && *final(p) == states[i + 1] && #[trigger] call_ensures(
                                P::disable,
                                (p, asked(old(self).ring@, now, answers)[i]->Disabled_0),
                                done,
                            ))),
    {
        let ghost start = self.ring@;
        let ghost provider = self.provider;
        let ghost none = Seq::<Result<IssuedView, KeyringErrorView>>::empty();
        let ghost still = seq![provider];
        let schedule = match self.ring.policy.rotate {
            Some(schedule) => schedule,
            None => {
                proof {
                    assert(brought_up(start, now, none) == Some((start, RotationOutcome::NotDue)));
                    assert(went_through(still, provider, self.provider, asked(start, now, none).len()));
                }
                return RotationOutcome::NotDue;
            },
        };
        if schedule.mode != RotationMode::Automatic {
            proof {
                assert(brought_up(start, now, none) == Some((start, RotationOutcome::NotDue)));
                assert(went_through(still, provider, self.provider, asked(start, now, none).len()));
            }
            return RotationOutcome::NotDue;
        }
        let activated_at = match self.ring.current() {
            Some(active) => active.activated_at,
            None => None,
        };
        let activated_at = match activated_at {
            Some(at) => at,
            None => {
                proof {
                    assert(brought_up(start, now, none) == Some((start, RotationOutcome::NotDue)));
                    assert(went_through(still, provider, self.provider, asked(start, now, none).len()));
                }
                return RotationOutcome::NotDue;
            },
        };
        let first = instant_add(activated_at, schedule.every);
        proof {
            assert(due_at(start) == Some((first, schedule)));
        }
        if now.earlier_than(first) {
            let (Ghost(answers), Ghost(states)) = self.expose_pending(now, schedule, first);
            proof {
                assert(brought_up(start, now, answers) == Some((self.ring@, RotationOutcome::NotDue)));
                assert(went_through(states, provider, self.provider, asked(start, now, answers).len()));
            }
            return RotationOutcome::NotDue;
        }
        let (r, Ghost(answers), Ghost(states)) = self.catch_up(first, schedule.every, now);
        proof {
            assert(brought_up(start, now, answers) == Some((self.ring@, r)));
            assert(went_through(states, provider, self.provider, asked(start, now, answers).len()));
        }
        r
    }

    /// Show the next version of the ring once the lead before its cutover is reached.
    fn expose_pending(&mut self, now: Timestamp, schedule: RotationSchedule, due: Timestamp) -> (r: (
        Ghost<Seq<Result<IssuedView, KeyringErrorView>>>,
        Ghost<Seq<P>>,
    ))
        requires
            due_at(old(self).ring@) == Some((due, schedule)),
            now.instant() < due.instant(),
            old(self).ring.next_id < u64::MAX,
        ensures
            brought_up(old(self).ring@, now, r.0@) == Some((final(self).ring@, RotationOutcome::NotDue)),
            forall|i: int| 0 <= i < r.0@.len() ==> fits(old(self).ring@.policy, #[trigger] r.0@[i]),
            went_through(
                r.1@,
                old(self).provider,
                final(self).provider,
                asked(old(self).ring@, now, r.0@).len(),
            ),
            forall|i: int|
                0 <= i < asked(old(self).ring@, now, r.0@).len()
                    ==> ((#[trigger] asked(old(self).ring@, now, r.0@)[i]) is Made
                    ==> exists|p: &mut P, spec: KeySpec, given: Result<u64, KeyringError>|
                        *p == r.1@[i] && *final(p) == r.1@[i + 1] && made_by(spec, old(self).ring@.policy)
                            && #[trigger] call_ensures(P::generate, (p, &spec), given) && requested(
                            r.1@[i + 1],
                            old(self).ring@.policy,
                            given,
                            asked(old(self).ring@, now, r.0@)[i]->Made_0,
                        )) && (asked(old(self).ring@, now, r.0@)[i] is Disabled
                            ==> exists|p: &mut P, done: Result<(), KeyringError>|
                        *p == r.1@[i] && *final(p) == r.1@[i + 1] && #[trigger] call_ensures(
                            P::disable,
                            (p, asked(old(self).ring@, now, r.0@)[i]->Disabled_0),
                            done,
                        )),
    {
        let ghost start = self.ring@;
        let ghost provider = self.provider;
        let ghost none = Seq::<Result<IssuedView, KeyringErrorView>>::empty();
        let shown = self.ring.find_in(KeyState::Pending).is_some();
        if shown || now.earlier_than(sub_duration(due, schedule.overlap)) {
            let ghost still = seq![provider];
            return (Ghost(none), Ghost(still));
        }
        let answer = self.issue();
        let ghost answers = seq![answer_view(answer)];
        let ghost states = seq![provider, self.provider];
        proof {
            assert(answers[0] == answer_view(answer));
            assert(states[0] == provider && states[1] == self.provider);
            assert(asked(start, now, answers) == seq![Asked::Made(answers[0])]);
        }
        if let Ok(key) = answer {
            let _id = self.ring.record(key, now);
        }
        (Ghost(answers), Ghost(states))
    }

    /// Turn the ring over at a boundary. Where the provider fails, the ring keeps its
    /// current version and is overdue.
    fn turn_over(&mut self, due: Timestamp) -> (r: (
        Option<VersionId>,
        Ghost<Seq<Result<IssuedView, KeyringErrorView>>>,
        Ghost<Seq<P>>,
    ))
        requires
            old(self).ring.next_id < u64::MAX,
        ensures
            ({
                let ring = old(self).ring@;
                let pending = first_in(ring.versions, KeyState::Pending) is Some;
                let key = if pending {
                    None
                } else {
                    Some(r.1@[0]->Ok_0)
                };
                &&& r.1@.len() == if pending {
                    0nat
                } else {
                    1nat
                }
                &&& !pending ==> fits(ring.policy, r.1@[0]) && (r.1@[0] is Ok <==> r.0 is Some)
                &&& match r.0 {
                    None => !pending && final(self).ring@ == (RingView { overdue: true, ..ring }),
                    Some(id) => final(self).ring@ == (RingView { overdue: false, ..rotated(ring, key, due).0 })
                        && id.0 == rotated(ring, key, due).1,
                }
            }),
            went_through(
                r.2@,
                old(self).provider,
                final(self).provider,
                asked_once(old(self).ring@, r.1@).len(),
            ),
            forall|i: int|
                0 <= i < asked_once(old(self).ring@, r.1@).len()
                    ==> ((#[trigger] asked_once(old(self).ring@, r.1@)[i]) is Made
                    ==> exists|p: &mut P, spec: KeySpec, given: Result<u64, KeyringError>|
                        *p == r.2@[i] && *final(p) == r.2@[i + 1] && made_by(spec, old(self).ring@.policy)
                            && #[trigger] call_ensures(P::generate, (p, &spec), given) && requested(
                            r.2@[i + 1],
                            old(self).ring@.policy,
                            given,
                            asked_once(old(self).ring@, r.1@)[i]->Made_0,
                        )) && (asked_once(old(self).ring@, r.1@)[i] is Disabled
                            ==> exists|p: &mut P, done: Result<(), KeyringError>|
                        *p == r.2@[i] && *final(p) == r.2@[i + 1] && #[trigger] call_ensures(
                            P::disable,
                            (p, asked_once(old(self).ring@, r.1@)[i]->Disabled_0),
                            done,
                        )),
    {
        let ghost ring = self.ring@;
        let ghost provider = self.provider;
        let retired: Option<u64> = match self.ring.current() {
            Some(active) => Some(active.handle.token),
            None => None,
        };
        let ghost mut answers = Seq::<Result<IssuedView, KeyringErrorView>>::empty();
        let ghost mut states = seq![provider];
        let key = if self.ring.find_in(KeyState::Pending).is_some() {
            None
        } else {
            let issued = self.issue();
            proof {
                answers = seq![answer_view(issued)];
                states = seq![provider, self.provider];
            }
            match issued {
                Ok(key) => Some(key),
                Err(_) => {
                    self.ring.overdue = true;
                    proof {
                        assert(asked_once(ring, answers) =~= seq![Asked::Made(answers[0])]);
                        assert(states[0] == provider && states[1] == self.provider);
                    }
                    return (None, Ghost(answers), Ghost(states));
                },
            }
        };
        let ghost issued = match &key {
            Some(k) => Some(k@),
            None => None,
        };
        let ghost turning = self.provider;
        proof {
            assert(answers.len() == 1 ==> exists|p: &mut P, spec: KeySpec, given: Result<u64, KeyringError>|
                *p == provider && *final(p) == turning && made_by(spec, ring.policy) && #[trigger] call_ensures(
                    P::generate,
                    (p, &spec),
                    given,
                ) && requested(turning, ring.policy, given, answers[0]));
        }
        let id = self.ring.rotate(key, due);
        self.ring.overdue = false;
        proof {
            assert(retired == active_handle(ring));
        }
        if let Some(handle) = retired {
            let _done = self.provider.disable(handle);
            let ghost log = asked_once(ring, answers);
            proof {
                let n = answers.len() as int;
                assert(exists|p: &mut P, done: Result<(), KeyringError>|
                    *p == turning && *final(p) == self.provider && #[trigger] call_ensures(
                        P::disable,
                        (p, handle),
                        done,
                    ));
                assert(log.len() == n + 1);
                assert(log[n] == Asked::Disabled(handle));
                states = states.push(self.provider);
                assert(states[n] == turning && states[n + 1] == self.provider);
                if n == 1 {
                    assert(log[0] == Asked::Made(answers[0]));
                    assert(states[0] == provider && states[1] == turning);
                }
                assert forall|i: int| 0 <= i < log.len()
                    implies ((#[trigger] log[i]) is Made
                    ==> exists|p: &mut P, spec: KeySpec, given: Result<u64, KeyringError>|
                        *p == states[i] && *final(p) == states[i + 1] && made_by(spec, ring.policy)
                            && #[trigger] call_ensures(P::generate, (p, &spec), given) && requested(
                            states[i + 1],
                            ring.policy,
                            given,
                            log[i]->Made_0,
                        )) && (log[i] is Disabled ==> exists|p: &mut P, done: Result<(), KeyringError>|
                        *p == states[i] && *final(p) == states[i + 1] && #[trigger] call_ensures(
                            P::disable,
                            (p, log[i]->Disabled_0),
                            done,
                        )) by {
                    if i == n {
                        assert(log[i] == Asked::Disabled(handle));
                        assert(states[i] == turning && states[i + 1] == self.provider);
                        assert(exists|p: &mut P, done: Result<(), KeyringError>|
                            *p == states[i] && *final(p) == states[i + 1] && #[trigger] call_ensures(
                                P::disable,
                                (p, handle),
                                done,
                            ));
                        assert(log[i]->Disabled_0 == handle);
                        assert(!(log[i] is Made));
                        assert(exists|p: &mut P, done: Result<(), KeyringError>|
                            *p == states[i] && *final(p) == states[i + 1] && #[trigger] call_ensures(
                                P::disable,
                                (p, log[i]->Disabled_0),
                                done,
                            ));
                    } else {
                        assert(n == 1 && i == 0);
                        assert(log[i] == Asked::Made(answers[0]));
                        assert(states[i] == provider && states[i + 1] == turning);
                        assert(exists|p: &mut P, spec: KeySpec, given: Result<u64, KeyringError>|
                            *p == states[i] && *final(p) == states[i + 1] && made_by(spec, ring.policy)
                                && #[trigger] call_ensures(P::generate, (p, &spec), given) && requested(
                                states[i + 1],
                                ring.policy,
                                given,
                                answers[0],
                            ));
                    }
                }
            }
        } else {
            proof {
                if answers.len() == 1 {
                    assert(asked_once(ring, answers) =~= seq![Asked::Made(answers[0])]);
                    assert(states[0] == provider && states[1] == turning);
                }
            }
        }
        (Some(id), Ghost(answers), Ghost(states))
    }

    /// Do one rotation at each boundary that has passed.
    fn catch_up(&mut self, first: Timestamp, every: Duration, now: Timestamp) -> (r: (
        RotationOutcome,
        Ghost<Seq<Result<IssuedView, KeyringErrorView>>>,
        Ghost<Seq<P>>,
    ))
        requires
            old(self).ring.next_id + boundaries(first, every, now) <= u64::MAX,
        ensures
            caught_up(old(self).ring@, first, every, now, r.1@, RotationOutcome::NotDue) == Some(
                (final(self).ring@, r.0),
            ),
            forall|i: int| 0 <= i < r.1@.len() ==> fits(old(self).ring@.policy, #[trigger] r.1@[i]),
            went_through(
                r.2@,
                old(self).provider,
                final(self).provider,
                asked_over(old(self).ring@, first, every, now, r.1@).len(),
            ),
            forall|i: int|
                0 <= i < asked_over(old(self).ring@, first, every, now, r.1@).len()
                    ==> ((#[trigger] asked_over(old(self).ring@, first, every, now, r.1@)[i]) is Made
                    ==> exists|p: &mut P, spec: KeySpec, given: Result<u64, KeyringError>|
                        *p == r.2@[i] && *final(p) == r.2@[i + 1] && made_by(spec, old(self).ring@.policy)
                            && #[trigger] call_ensures(P::generate, (p, &spec), given) && requested(
                            r.2@[i + 1],
                            old(self).ring@.policy,
                            given,
                            asked_over(old(self).ring@, first, every, now, r.1@)[i]->Made_0,
                        )) && (asked_over(old(self).ring@, first, every, now, r.1@)[i] is Disabled
                            ==> exists|p: &mut P, done: Result<(), KeyringError>|
                        *p == r.2@[i] && *final(p) == r.2@[i + 1] && #[trigger] call_ensures(
                            P::disable,
                            (p, asked_over(old(self).ring@, first, every, now, r.1@)[i]->Disabled_0),
                            done,
                        )),
    {
        let ghost start = self.ring@;
        let ghost none = Seq::<Result<IssuedView, KeyringErrorView>>::empty();
        let ghost mut done = none;
        let ghost mut log = Seq::<Asked>::empty();
        let ghost mut states = seq![self.provider];
        let mut outcome = RotationOutcome::NotDue;
        let mut due = first;
        proof {
            lemma_nothing_done(start, first, every, now);
        }
        while !now.earlier_than(due)
            invariant
                none == Seq::<Result<IssuedView, KeyringErrorView>>::empty(),
                start == old(self).ring@,
                self.ring@.policy == start.policy,
                self.ring.next_id + boundaries(due, every, now) <= u64::MAX,
                forall|i: int| 0 <= i < done.len() ==> fits(start.policy, #[trigger] done[i]),
                continues(start, first, self.ring@, due, every, now, done, log, outcome),
                went_through(states, old(self).provider, self.provider, log.len()),
                forall|i: int|
                    0 <= i < log.len()
                        ==> ((#[trigger] log[i]) is Made
                        ==> exists|p: &mut P, spec: KeySpec, given: Result<u64, KeyringError>|
                            *p == states[i] && *final(p) == states[i + 1] && made_by(spec, start.policy)
                                && #[trigger] call_ensures(P::generate, (p, &spec), given) && requested(
                                states[i + 1],
                                start.policy,
                                given,
                                log[i]->Made_0,
                            )) && (log[i] is Disabled ==> exists|p: &mut P, done: Result<(), KeyringError>|
                            *p == states[i] && *final(p) == states[i + 1] && #[trigger] call_ensures(
                                P::disable,
                                (p, log[i]->Disabled_0),
                                done,
                            )),
            decreases lateness(due, now),
        {
            let ghost ring = self.ring@;
            let ghost before = done;
            let ghost prior = outcome;
            let ghost before_log = log;
            let ghost before_states = states;
            let ghost provider = self.provider;
            let (turned, Ghost(answer), Ghost(through)) = self.turn_over(due);
            let ghost more = asked_once(ring, answer);
            proof {
                done = before + answer;
                log = before_log + more;
                states = before_states + through.drop_first();
                assert forall|i: int| 0 <= i < done.len() implies fits(start.policy, #[trigger] done[i]) by {
                    if i < before.len() {
                        assert(done[i] == before[i]);
                    } else {
                        assert(done[i] == answer[0]);
                    }
                }
                let n = before_log.len() as int;
                assert(states[n] == provider);
                assert forall|k: int| 0 <= k <= more.len() implies states[n + k] == #[trigger] through[k] by {
                    if k > 0 {
                        assert(states[n + k] == through.drop_first()[k - 1]);
                    }
                }
                assert(states.len() == log.len() + 1);
                assert(states[0] == before_states[0]);
                assert(through[more.len() as int] == self.provider);
                assert forall|i: int| 0 <= i < log.len()
                    implies ((#[trigger] log[i]) is Made
                    ==> exists|p: &mut P, spec: KeySpec, given: Result<u64, KeyringError>|
                            *p == states[i] && *final(p) == states[i + 1] && made_by(spec, start.policy)
                                && #[trigger] call_ensures(P::generate, (p, &spec), given) && requested(
                                states[i + 1],
                                start.policy,
                                given,
                                log[i]->Made_0,
                            )) && (log[i] is Disabled ==> exists|p: &mut P, done: Result<(), KeyringError>|
                            *p == states[i] && *final(p) == states[i + 1] && #[trigger] call_ensures(
                                P::disable,
                                (p, log[i]->Disabled_0),
                                done,
                            )) by {
                    if i < n {
                        assert(log[i] == before_log[i]);
                        assert(states[i] == before_states[i]);
                        assert(states[i + 1] == before_states[i + 1]);
                    } else {
                        let k = i - n;
                        assert(log[i] == more[k]);
                        assert(states[i] == through[k]);
                        assert(states[i + 1] == through[k + 1]);
                    }
                }
            }
            let id = match turned {
                Some(id) => id,
                None => {
                    proof {
                        lemma_stopped(start, first, ring, due, every, now, before, before_log, prior, answer);
                    }
                    return (RotationOutcome::KeptCurrentOverdue, Ghost(done), Ghost(states));
                },
            };
            outcome = RotationOutcome::Rotated(id);
            let next = instant_add(due, every);
            proof {
                lemma_turned(start, first, ring, due, every, now, before, before_log, prior, answer);
            }
            if !due.earlier_than(next) {
                return (outcome, Ghost(done), Ghost(states));
            }
            due = next;
        }
        proof {
            lemma_up_to_date(start, first, self.ring@, due, every, now, done, log, outcome);
        }
        (outcome, Ghost(done), Ghost(states))
    }

    /// Bind a key that was made elsewhere, and activate it. Where that fails, the ring
    /// does not change; where it succeeds, the provider is asked to disable the key of
    /// the version that was active.
    pub fn bind_activate(&mut self, external: &str, now: Timestamp) -> (r: Result<VersionId, KeyringError>)
        requires
            old(self).ring.next_id < u64::MAX,
        ensures
            match r {
                Ok(id) => id.0 == old(self).ring@.next_id && exists|key: IssuedView|
                    key.algorithm == old(self).ring@.policy.algorithm && final(self).ring@ == activated(
                        #[trigger] recorded(old(self).ring@, key, now),
                        id.0,
                        now,
                    ),
                Err(_) => final(self).ring@ == old(self).ring@,
            },
            exists|
                p: &mut P,
                spec: KeySpec,
                given: Result<u64, KeyringError>,
                bound: P,
                answer: Result<IssuedView, KeyringErrorView>,
            |
                *p == old(self).provider && *final(p) == bound && made_by(spec, old(self).ring@.policy)
                    && #[trigger] call_ensures(P::bind, (p, external, &spec), given) && #[trigger] requested(
                    bound,
                    old(self).ring@.policy,
                    given,
                    answer,
                ) && (final(self).ring@, ordinal(r)) == taken(old(self).ring@, answer, now) && match (
                    answer,
                    active_handle(old(self).ring@),
                ) {
                    (Ok(_), Some(handle)) => exists|q: &mut P, done: Result<(), KeyringError>|
                        *q == bound && *final(q) == final(self).provider && #[trigger] call_ensures(
                            P::disable,
                            (q, handle),
                            done,
                        ),
                    _ => final(self).provider == bound,
                },
    {
        let spec = self.ring.policy.spec();
        let given = self.provider.bind(external, &spec);
        let ghost handle = given;
        let answer = match given {
            Err(e) => Err(e),
            Ok(handle) => self.inspect(handle),
        };
        proof {
            assert(requested(self.provider, old(self).ring@.policy, handle, answer_view(answer)));
        }
        let ghost answered = answer_view(answer);
        let ghost bound = self.provider;
        let retired: Option<u64> = match self.ring.current() {
            Some(active) => Some(active.handle.token),
            None => None,
        };
        let r = self.ring.take(answer, now);
        if r.is_ok() {
            if let Some(handle) = retired {
                let _done = self.provider.disable(handle);
            }
        }
        proof {
            assert(retired == active_handle(old(self).ring@));
            assert(exists|p: &mut P, spec: KeySpec|
                *p == old(self).provider && *final(p) == bound && made_by(spec, old(self).ring@.policy)
                    && #[trigger] call_ensures(P::bind, (p, external, &spec), handle));
            assert((self.ring@, ordinal(r)) == taken(old(self).ring@, answered, now));
        }
        r
    }

    /// Revoke a version.
    pub fn revoke(&mut self, version: VersionId, now: Timestamp) -> (r: Result<(), KeyringError>)
        ensures
            final(self).provider == old(self).provider,
            match (r, revoked(old(self).ring@, version.0, now)) {
                (Ok(_), Ok(ring)) => final(self).ring@ == ring,
                (Err(e), Err(x)) => e@ == x && final(self).ring@ == old(self).ring@,
                _ => false,
            },
    {
        self.ring.revoke(version, now)
    }

    /// Have the material of a version destroyed. Where the provider fails, or the ring
    /// has no such version, nothing changes.
    pub fn destroy(&mut self, version: VersionId) -> (r: Result<(), KeyringError>)
        ensures
            match version_at(old(self).ring@.versions, version.0) {
                None => r matches Err(e) && e@ == KeyringErrorView::UnknownVersion(version.0) && *final(self)
                    == *old(self),
                Some(i) => exists|p: &mut P, done: Result<(), KeyringError>|
                    *p == old(self).provider && *final(p) == final(self).provider && #[trigger] call_ensures(
                        P::destroy,
                        (p, old(self).ring@.versions[i].handle),
                        done,
                    ) && match (r, done) {
                        (Ok(_), Ok(_)) => final(self).ring@ == destroyed(old(self).ring@, i),
                        (Err(e), Err(x)) => e@ == x@ && final(self).ring@ == old(self).ring@,
                        _ => false,
                    },
            },
    {
        let ghost before = self.ring@;
        match self.ring.find_version(version) {
            None => Err(KeyringError::UnknownVersion(version.0)),
            Some(i) => {
                let handle: u64 = self.ring.versions[i].handle.token;
                if let Err(e) = self.provider.destroy(handle) {
                    return Err(e);
                }
                self.ring.versions[i].state = KeyState::Destroyed;
                proof {
                    assert(self.ring@.versions =~= destroyed(before, i as int).versions);
                }
                Ok(())
            },
        }
    }

    /// Sign a message with the active version. Without one the request is refused.
    pub fn sign(&self, message: &[u8]) -> (r: Result<SessionToken, KeyringError>)
        ensures
            signs(*self, message, r),
    {
        let active = match self.ring.current() {
            Some(v) => v,
            None => {
                return Err(KeyringError::NoActiveVersion);
            },
        };
        proof {
            let i = first_in(self.ring@.versions, KeyState::Active)->0;
            assert(active@.handle == self.ring@.versions[i].handle);
            assert(active@.algorithm == self.ring@.versions[i].algorithm);
        }
        let algorithm = active.algorithm.as_str();
        match self.provider.sign(active.handle.token, algorithm, message) {
            Err(e) => Err(e),
            Ok(signature) => Ok(SessionToken { ring: self.ring.name.clone(), version: active.id, signature }),
        }
    }
}

pub(crate) proof fn lemma_version_found(versions: Seq<VersionView>, id: u64)
    ensures
        match version_at(versions, id) {
            Some(i) => 0 <= i < versions.len() && versions[i].id == id,
            None => forall|i: int| 0 <= i < versions.len() ==> (#[trigger] versions[i]).id != id,
        },
    decreases versions.len(),
{
    if versions.len() > 0 {
        lemma_version_found(versions.drop_last(), id);
        assert forall|j: int| 0 <= j < versions.len() - 1 implies #[trigger] versions[j] == versions.drop_last()[j] by {}
        assert(versions.last() == versions[versions.len() - 1]);
    }
}

pub(crate) proof fn lemma_first_found(versions: Seq<VersionView>, state: KeyState)
    ensures
        match first_in(versions, state) {
            Some(i) => 0 <= i < versions.len() && versions[i].state == state && forall|j: int|
                0 <= j < i ==> (#[trigger] versions[j]).state != state,
            None => forall|i: int| 0 <= i < versions.len() ==> (#[trigger] versions[i]).state != state,
        },
    decreases versions.len(),
{
    if versions.len() > 0 {
        lemma_first_found(versions.drop_last(), state);
        assert forall|j: int| 0 <= j < versions.len() - 1 implies #[trigger] versions[j] == versions.drop_last()[j] by {}
        assert(versions.last() == versions[versions.len() - 1]);
    }
}

/// Recording a key keeps a ring in order, changes no version, and shows the new one as
/// pending: it is neither selected nor accepted.
pub proof fn law_record(ring: RingView, key: IssuedView, now: Timestamp, at: Timestamp)
    requires
        in_order(ring),
        ring.next_id < u64::MAX,
    ensures
        in_order(recorded(ring, key, now)),
        recorded(ring, key, now).versions.drop_last() == ring.versions,
        recorded(ring, key, now).versions.last().id == ring.next_id,
        !is_accepted(ring.policy, recorded(ring, key, now).versions.last(), at),
{
    let after = recorded(ring, key, now);
    assert(after.versions.drop_last() =~= ring.versions);
    assert forall|i: int, j: int| 0 <= i < j < after.versions.len() implies (#[trigger] after.versions[i]).id < (
    #[trigger] after.versions[j]).id by {
        assert(after.versions[i] == ring.versions[i]);
        if j < ring.versions.len() {
            assert(after.versions[j] == ring.versions[j]);
        }
    }
    assert forall|i: int, j: int| 0 <= i < j < after.versions.len() implies !((
    #[trigger] after.versions[i]).state == KeyState::Active && (#[trigger] after.versions[j]).state
        == KeyState::Active) by {
        assert(after.versions[i] == ring.versions[i]);
        if j < ring.versions.len() {
            assert(after.versions[j] == ring.versions[j]);
        }
    }
    assert forall|i: int| 0 <= i < after.versions.len() implies (#[trigger] after.versions[i]).id < after.next_id by {
        if i < ring.versions.len() {
            assert(after.versions[i] == ring.versions[i]);
        }
    }
}

/// After an activation the activated version is the one active version, and the
/// version that was active before is retired from that instant.
pub proof fn law_activate(ring: RingView, id: u64, now: Timestamp, i: int)
    requires
        in_order(ring),
        version_at(ring.versions, id) == Some(i),
    ensures
        in_order(activated(ring, id, now)),
        first_in(activated(ring, id, now).versions, KeyState::Active) == Some(i),
        activated(ring, id, now).versions[i].activated_at == Some(now),
        forall|j: int|
            0 <= j < ring.versions.len() && j != i && (#[trigger] ring.versions[j]).state == KeyState::Active
                ==> activated(ring, id, now).versions[j].state == KeyState::Retired && activated(
                ring,
                id,
                now,
            ).versions[j].retired_at == Some(now),
{
    let after = activated(ring, id, now);
    lemma_version_found(ring.versions, id);
    lemma_first_found(after.versions, KeyState::Active);
    assert forall|j: int| 0 <= j < after.versions.len() implies (#[trigger] after.versions[j]).id == ring.versions[j].id
        && (after.versions[j].state == KeyState::Active <==> j == i) by {}
    assert(after.versions[i].state == KeyState::Active);
    assert forall|p: int, q: int| 0 <= p < q < after.versions.len() implies (#[trigger] after.versions[p]).id < (
    #[trigger] after.versions[q]).id by {
        assert(ring.versions[p].id < ring.versions[q].id);
    }
    assert forall|p: int| 0 <= p < after.versions.len() implies (#[trigger] after.versions[p]).id < after.next_id by {
        assert(ring.versions[p].id < ring.next_id);
    }
}

/// A rotation keeps a ring in order and leaves the version that was active accepted
/// for as long as the ring retains it, counted from the rotation.
pub proof fn law_rotation(ring: RingView, key: Option<IssuedView>, at: Timestamp, now: Timestamp, i: int)
    requires
        in_order(ring),
        ring.next_id < u64::MAX,
        first_in(ring.versions, KeyState::Active) == Some(i),
        first_in(ring.versions, KeyState::Pending) is Some || key is Some,
    ensures
        ({
            let (turned, id) = rotated(ring, key, at);
            &&& in_order(turned)
            &&& first_in(turned.versions, KeyState::Active) is Some
            &&& turned.versions[first_in(turned.versions, KeyState::Active)->0].id == id
            &&& turned.versions[first_in(turned.versions, KeyState::Active)->0].activated_at == Some(at)
            &&& turned.versions[i].id == ring.versions[i].id
            &&& turned.versions[i].state == KeyState::Retired
            &&& is_accepted(turned.policy, turned.versions[i], now) == (match ring.policy.retain {
                Some(retain) => now.instant() < shifted(at, ticks(retain, at.precision)).instant(),
                None => true,
            })
        }),
{
    lemma_first_found(ring.versions, KeyState::Active);
    lemma_first_found(ring.versions, KeyState::Pending);
    match first_in(ring.versions, KeyState::Pending) {
        Some(p) => {
            lemma_version_found(ring.versions, ring.versions[p].id);
            let q = version_at(ring.versions, ring.versions[p].id)->0;
            if q != p {
                if q < p {
                    assert(ring.versions[q].id < ring.versions[p].id);
                } else {
                    assert(ring.versions[p].id < ring.versions[q].id);
                }
            }
            law_activate(ring, ring.versions[p].id, at, p);
        },
        None => {
            let with = recorded(ring, key->0, at);
            law_record(ring, key->0, at, now);
            lemma_version_found(with.versions, ring.next_id);
            let n = ring.versions.len() as int;
            assert(with.versions[n].id == ring.next_id);
            let q = version_at(with.versions, ring.next_id)->0;
            if q < n {
                assert(with.versions[q] == ring.versions[q]);
            }
            law_activate(with, ring.next_id, at, n);
            assert(with.versions[i] == ring.versions[i]);
        },
    }
}

/// A version that is revoked is rejected at every instant, whatever the ring retains.
pub proof fn law_revoked_rejected(ring: RingView, id: u64, now: Timestamp, at: Timestamp)
    requires
        in_order(ring),
        revoked(ring, id, now) is Ok,
    ensures
        in_order(revoked(ring, id, now)->Ok_0),
        verified(revoked(ring, id, now)->Ok_0, ring.name, id, at) == Err::<VersionId, VerifyError>(
            VerifyError::VersionNotAccepted,
        ),
{
    let after = revoked(ring, id, now)->Ok_0;
    let i = version_at(ring.versions, id)->0;
    lemma_version_found(ring.versions, id);
    assert forall|j: int| 0 <= j < after.versions.len() implies (#[trigger] after.versions[j]).id == ring.versions[j].id
        && (j != i ==> after.versions[j] == ring.versions[j]) by {}
    assert forall|j: int| 0 <= j < after.versions.len() implies !((#[trigger] after.versions[j]).id == id && is_accepted(
        after.policy,
        after.versions[j],
        at,
    )) by {
        if j != i {
            if j < i {
                assert(ring.versions[j].id < ring.versions[i].id);
            } else {
                assert(ring.versions[i].id < ring.versions[j].id);
            }
        }
    }
}

/// A version whose material is destroyed is rejected at every instant.
pub proof fn law_destroyed_rejected(ring: RingView, i: int, at: Timestamp)
    requires
        in_order(ring),
        0 <= i < ring.versions.len(),
    ensures
        in_order(destroyed(ring, i)),
        verified(destroyed(ring, i), ring.name, ring.versions[i].id, at) == Err::<VersionId, VerifyError>(
            VerifyError::VersionNotAccepted,
        ),
{
    let after = destroyed(ring, i);
    assert forall|j: int| 0 <= j < after.versions.len() implies (#[trigger] after.versions[j]).id == ring.versions[j].id
        && (j != i ==> after.versions[j] == ring.versions[j]) by {}
    assert forall|j: int| 0 <= j < after.versions.len() implies !((
    #[trigger] after.versions[j]).id == ring.versions[i].id && is_accepted(after.policy, after.versions[j], at)) by {
        if j != i {
            if j < i {
                assert(ring.versions[j].id < ring.versions[i].id);
            } else {
                assert(ring.versions[i].id < ring.versions[j].id);
            }
        }
    }
}

/// A failed rotation changes nothing but the mark that the ring is overdue.
pub proof fn law_failure_keeps_current(
    ring: RingView,
    due: Timestamp,
    every: Duration,
    now: Timestamp,
    failure: KeyringErrorView,
)
    requires
        now.instant() >= due.instant(),
        first_in(ring.versions, KeyState::Pending) is None,
    ensures
        caught_up(
            ring,
            due,
            every,
            now,
            seq![Err::<IssuedView, KeyringErrorView>(failure)],
            RotationOutcome::NotDue,
        ) == Some((RingView { overdue: true, ..ring }, RotationOutcome::KeptCurrentOverdue)),
{
    let answers = seq![Err::<IssuedView, KeyringErrorView>(failure)];
    assert(answers[0] == Err::<IssuedView, KeyringErrorView>(failure));
}

/// A ring that was brought up to date has its active version at the last boundary
/// that has passed, so that its next boundary lies ahead: bringing it up to date again
/// at the same instant finds no rotation due.
pub proof fn law_caught_up(
    ring: RingView,
    due: Timestamp,
    schedule: RotationSchedule,
    now: Timestamp,
    answers: Seq<Result<IssuedView, KeyringErrorView>>,
    so_far: RotationOutcome,
    after: RingView,
    id: VersionId,
)
    requires
        in_order(ring),
        ring.policy.rotate == Some(schedule),
        schedule.mode == RotationMode::Automatic,
        ring.next_id + boundaries(due, schedule.every, now) <= u64::MAX,
        first_in(ring.versions, KeyState::Active) is Some,
        now.instant() >= due.instant(),
        next_boundary(due, schedule.every).instant() > due.instant(),
        caught_up(ring, due, schedule.every, now, answers, so_far) == Some((after, RotationOutcome::Rotated(id))),
    ensures
        in_order(after),
        !after.overdue,
        due_at(after) is Some,
        ({
            let (next, _) = due_at(after)->0;
            now.instant() < next.instant() || next.instant() <= after.versions[first_in(
                after.versions,
                KeyState::Active,
            )->0].activated_at->0.instant()
        }),
        after.versions[first_in(after.versions, KeyState::Active)->0].id == id.0,
    decreases lateness(due, now),
{
    let every = schedule.every;
    let pending = first_in(ring.versions, KeyState::Pending) is Some;
    let key = if pending {
        None
    } else {
        Some(answers[0]->Ok_0)
    };
    let rest = if pending {
        answers
    } else {
        answers.drop_first()
    };
    let (turned, turned_id) = rotated(ring, key, due);
    let i = first_in(ring.versions, KeyState::Active)->0;
    law_rotation(ring, key, due, now, i);
    let clear = RingView { overdue: false, ..turned };
    let next = next_boundary(due, every);
    let turned_so_far = RotationOutcome::Rotated(VersionId(turned_id));
    assert(in_order(clear));
    assert(caught_up(clear, next, every, now, rest, turned_so_far) == Some((after, RotationOutcome::Rotated(id))));
    assert(boundaries(due, every, now) == 1 + boundaries(next, every, now));
    if now.instant() >= next.instant() && next_boundary(next, every).instant() > next.instant() {
        law_caught_up(
            clear,
            next,
            schedule,
            now,
            rest,
            turned_so_far,
            after,
            id,
        );
    } else if now.instant() >= next.instant() {
        assert(boundaries(next, every, now) == 1);
        let held = first_in(clear.versions, KeyState::Pending) is Some;
        let again = if held {
            None
        } else {
            Some(rest[0]->Ok_0)
        };
        let j = first_in(clear.versions, KeyState::Active)->0;
        law_rotation(clear, again, next, now, j);
        assert(after == (RingView { overdue: false, ..rotated(clear, again, next).0 }));
    } else {
        assert(after == clear);
    }
}

} // verus!
