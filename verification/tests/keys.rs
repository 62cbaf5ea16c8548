use liasse_runtime::doc::Doc;
use liasse_runtime::exposure::Names;
use liasse_runtime::host::{
    cose_sign, cose_verify, effect_of, host_detail, invoke, mint_token, origin_of, refuse_signature, CoseToken,
    CoseVerifyError, EffectClass, Function, GuardError, HostBinding, HostEffect, HostOrigin, Requirement, SignatureError,
};
use liasse_runtime::integer::Integer;
use liasse_runtime::keyring::{
    Issued, KeyOperation, KeyProvider, KeySpec, KeyState, Keyring, KeyringError, KeyringPolicy, ProtectionClass,
    ProviderRequirement, PublicKey, RotationMode, RotationOutcome, RotationSchedule, SessionToken, VerifyError, VersionId,
};
use liasse_runtime::keyring_view::{policy_from_doc, snapshot_for, DeclaredDurations, KeyringSnapshot};
use liasse_runtime::rejection::RejectionReason;
use liasse_runtime::table::Table;
use liasse_runtime::time::{Duration, Precision, Timestamp};
use liasse_runtime::update::EngineError;
use liasse_runtime::value::{same_value, Value};

fn integer(n: i128) -> Value {
    Value::Int(Integer::of(n))
}

fn text(s: &str) -> Value {
    Value::Text(s.to_string())
}

fn at(count: i128) -> Timestamp {
    Timestamp { count, precision: Precision::Seconds }
}

fn seconds(n: i128) -> Duration {
    Duration { nanos: n * 1_000_000_000 }
}

/// A provider that counts its keys, and can be made to fail.
struct Counting {
    next: u64,
    down: bool,
    lacks: bool,
    algorithm: String,
    disabled: Vec<u64>,
}

impl Counting {
    fn new() -> Counting {
        Counting { next: 0, down: false, lacks: false, algorithm: "ed25519".to_string(), disabled: Vec::new() }
    }
}

impl KeyProvider for Counting {
    fn shortfall(&self, requirement: &ProviderRequirement) -> Option<String> {
        if self.lacks {
            Some(requirement.algorithm.clone())
        } else {
            None
        }
    }

    fn generate(&mut self, _spec: &KeySpec) -> Result<u64, KeyringError> {
        if self.down {
            return Err(KeyringError::Provider("down".to_string()));
        }
        self.next += 1;
        Ok(self.next)
    }

    fn bind(&mut self, _external: &str, _spec: &KeySpec) -> Result<u64, KeyringError> {
        if self.down {
            return Err(KeyringError::Provider("down".to_string()));
        }
        self.next += 1;
        Ok(self.next)
    }

    fn public_key(&self, handle: u64) -> Result<PublicKey, KeyringError> {
        Ok(PublicKey { algorithm: self.algorithm.clone(), material: integer(handle as i128) })
    }

    fn attest(&self, _handle: u64) -> Result<Option<Value>, KeyringError> {
        Ok(None)
    }

    fn disable(&mut self, handle: u64) -> Result<(), KeyringError> {
        self.disabled.push(handle);
        Ok(())
    }

    fn destroy(&mut self, _handle: u64) -> Result<(), KeyringError> {
        Ok(())
    }

    fn sign(&self, handle: u64, _algorithm: &str, message: &[u8]) -> Result<Vec<u8>, KeyringError> {
        if self.down {
            return Err(KeyringError::Provider("down".to_string()));
        }
        let mut signature = vec![handle as u8];
        signature.extend_from_slice(message);
        Ok(signature)
    }
}

fn policy(rotate: Option<RotationSchedule>, retain: Option<Duration>) -> KeyringPolicy {
    KeyringPolicy {
        algorithm: "ed25519".to_string(),
        usage: vec![KeyOperation::Sign, KeyOperation::Verify],
        rotate,
        retain,
        protection: Some(ProtectionClass::Software),
    }
}

fn every(n: i128, overlap: i128) -> Option<RotationSchedule> {
    Some(RotationSchedule { every: seconds(n), overlap: seconds(overlap), mode: RotationMode::Automatic })
}

fn ring(rotate: Option<RotationSchedule>) -> Keyring<Counting> {
    Keyring::load("ring".to_string(), Counting::new(), policy(rotate, Some(seconds(1000)))).ok().unwrap()
}

fn started(rotate: Option<RotationSchedule>) -> Keyring<Counting> {
    let mut k = ring(rotate);
    k.bootstrap(at(0)).unwrap();
    k
}

#[test]
fn a_ring_starts_with_one_active_version() {
    let k = started(None);
    assert_eq!(k.versions().len(), 1);
    let v = &k.versions()[0];
    assert_eq!(v.state(), KeyState::Active);
    assert_eq!(v.algorithm(), "ed25519");
    assert_eq!(v.created_at(), at(0));
    assert_eq!(v.activated_at(), Some(at(0)));
    assert!(v.retired_at().is_none());
    assert!(v.revoked_at().is_none());
    assert!(v.attestation().is_none());
    assert!(!k.is_overdue());
    assert_eq!(k.ring.current().unwrap().id, VersionId(1));
}

#[test]
fn a_provider_has_to_meet_the_policy() {
    let mut lacking = Counting::new();
    lacking.lacks = true;
    let refused = Keyring::load("ring".to_string(), lacking, policy(None, None)).err().unwrap();
    assert!(matches!(refused, KeyringError::Capability(m) if m == "ed25519"));
    let wanted = policy(every(60, 0), None).requirement();
    assert!(wanted.automatic);
    assert_eq!(wanted.algorithm, "ed25519");
}

#[test]
fn a_key_of_another_algorithm_is_refused() {
    let mut k = ring(None);
    k.provider_mut().algorithm = "rsa".to_string();
    let refused = k.bootstrap(at(0)).unwrap_err();
    assert!(matches!(&refused, KeyringError::AlgorithmMismatch { declared, found }
        if declared == "ed25519" && found == "rsa"));
    assert!(k.versions().is_empty());
    assert!(refused.text().contains("rsa"));
}

#[test]
fn a_due_ring_rotates_and_accepts_the_old_version_for_a_while() {
    let mut k = started(every(100, 0));
    assert_eq!(k.ensure_current(at(50)), RotationOutcome::NotDue);
    let outcome = k.ensure_current(at(100));
    assert_eq!(outcome, RotationOutcome::Rotated(VersionId(2)));
    assert_eq!(k.ring.current().unwrap().id.get(), 2);
    assert_eq!(k.versions()[0].state(), KeyState::Retired);
    assert_eq!(k.versions()[0].retired_at(), Some(at(100)));
    assert_eq!(k.provider_mut().disabled, vec![1]);
    let old_token = SessionToken { ring: "ring".to_string(), version: VersionId(1), signature: Vec::new() };
    assert_eq!(k.ring.verify(&old_token, at(150)), Ok(VersionId(1)));
    assert_eq!(k.ring.verify(&old_token, at(5000)), Err(VerifyError::VersionNotAccepted));
    assert_eq!(k.ring.accepted(at(150)).len(), 2);
}

#[test]
fn a_late_ring_catches_up() {
    let mut k = started(every(100, 0));
    let outcome = k.ensure_current(at(350));
    assert!(matches!(outcome, RotationOutcome::Rotated(_)));
    assert_eq!(k.ring.current().unwrap().activated_at, Some(at(300)));
    assert_eq!(k.ensure_current(at(350)), RotationOutcome::NotDue);
    let turned: Vec<_> = k.versions().iter().map(|v| (v.id.get(), v.activated_at())).collect();
    assert_eq!(turned, vec![(1, Some(at(0))), (2, Some(at(100))), (3, Some(at(200))), (4, Some(at(300)))]);
    assert_eq!(k.provider_mut().disabled, vec![1, 2, 3]);
}

#[test]
fn a_failed_rotation_keeps_the_current_version() {
    let mut k = started(every(100, 0));
    k.provider_mut().down = true;
    assert_eq!(k.ensure_current(at(100)), RotationOutcome::KeptCurrentOverdue);
    assert!(k.is_overdue());
    assert_eq!(k.ring.current().unwrap().id, VersionId(1));
    k.provider_mut().down = false;
    assert!(matches!(k.ensure_current(at(100)), RotationOutcome::Rotated(_)));
    assert!(!k.is_overdue());
}

#[test]
fn a_manual_ring_waits_for_its_operator() {
    let manual = RotationSchedule { every: seconds(100), overlap: seconds(0), mode: RotationMode::Manual };
    let mut k = ring(Some(manual));
    k.bootstrap(at(0)).unwrap();
    assert!(k.versions().is_empty());
    assert!(matches!(k.sign(b"m"), Err(KeyringError::NoActiveVersion)));
    let id = k.bind_activate("vault", at(5)).ok().unwrap();
    assert_eq!(id, VersionId(1));
    assert_eq!(k.ring.current().unwrap().activated_at, Some(at(5)));
    assert_eq!(k.ensure_current(at(9999)), RotationOutcome::NotDue);
}

#[test]
fn a_revoked_version_is_not_accepted() {
    let mut k = started(None);
    k.revoke(VersionId(1), at(10)).unwrap();
    assert_eq!(k.versions()[0].state(), KeyState::Revoked);
    let token = SessionToken { ring: "ring".to_string(), version: VersionId(1), signature: Vec::new() };
    assert_eq!(k.ring.verify(&token, at(10)), Err(VerifyError::VersionNotAccepted));
    assert!(matches!(k.revoke(VersionId(9), at(10)), Err(KeyringError::UnknownVersion(9))));
    let other = SessionToken { ring: "other".to_string(), version: VersionId(1), signature: Vec::new() };
    assert_eq!(k.ring.verify(&other, at(10)), Err(VerifyError::WrongRing));
    assert!(VerifyError::WrongRing.text() != VerifyError::VersionNotAccepted.text());
}

#[test]
fn a_destroyed_version_is_not_accepted() {
    let mut k = started(every(100, 0));
    k.ensure_current(at(100));
    k.destroy(VersionId(1)).unwrap();
    assert_eq!(k.versions()[0].state(), KeyState::Destroyed);
    assert!(!k.ring.accepts(&k.versions()[0], at(100)));
    assert!(matches!(k.destroy(VersionId(7)), Err(KeyringError::UnknownVersion(7))));
}

#[test]
fn a_ring_signs_with_its_current_version() {
    let k = started(None);
    let token = k.sign(b"hello").ok().unwrap();
    assert_eq!(token.version(), VersionId(1));
    assert_eq!(token.ring(), "ring");
    assert_eq!(token.signature(), b"\x01hello");
    assert_eq!(k.ring.verify(&token, at(1)), Ok(VersionId(1)));
}

#[test]
fn a_snapshot_shows_what_the_ring_accepts() {
    let mut k = started(every(100, 0));
    k.ensure_current(at(100));
    k.revoke(VersionId(1), at(101)).unwrap();
    let snapshot = KeyringSnapshot::of(&k.ring, at(120));
    assert_eq!(snapshot.rows.len(), 2);
    assert_eq!(snapshot.current().len(), 1);
    assert_eq!(snapshot.accepted_rows().len(), 1);
    let base = KeyringSnapshot::of(&k.ring, at(120)).rows;
    let all = vec![snapshot];
    assert!(snapshot_for(&all, &base).is_some());
    assert!(snapshot_for(&Vec::new(), &base).is_none());
}

#[test]
fn a_policy_is_read_from_its_declaration() {
    let word = |s: &str| Doc::Text(s.to_string());
    let object = |items: Vec<(&str, Doc)>| Doc::Object(items.into_iter().map(|(n, d)| (n.to_string(), d)).collect());
    let durations = DeclaredDurations {
        rotate: Some(seconds(60)),
        every: Some(seconds(30)),
        overlap: Some(seconds(5)),
        retain: Some(seconds(90)),
    };
    let short = object(vec![
        ("$algorithm", word("ed25519")),
        ("$usage", Doc::List(vec![word("sign"), word("sign"), word("nonsense")])),
        ("$rotate", word("1m")),
        ("$protection", word("hardware")),
    ]);
    let p = policy_from_doc(&short, &durations).unwrap();
    assert_eq!(p.algorithm, "ed25519");
    assert_eq!(p.usage, vec![KeyOperation::Sign]);
    assert_eq!(p.protection, Some(ProtectionClass::Hardware));
    let schedule = p.rotate.unwrap();
    assert_eq!(schedule.every, seconds(60));
    assert_eq!(schedule.overlap, seconds(0));
    assert_eq!(schedule.mode, RotationMode::Automatic);
    let long = object(vec![
        ("$algorithm", word("ed25519")),
        (
            "$rotate",
            object(vec![("$every", word("30s")), ("$overlap", word("5s")), ("$mode", word("manual"))]),
        ),
    ]);
    let schedule = policy_from_doc(&long, &durations).unwrap().rotate.unwrap();
    assert_eq!(schedule.every, seconds(30));
    assert_eq!(schedule.overlap, seconds(5));
    assert_eq!(schedule.mode, RotationMode::Manual);
    assert!(policy_from_doc(&object(vec![]), &durations).is_none());
}

#[test]
fn a_minted_token_is_verified() {
    let rings = vec![started(None)];
    let token = cose_sign(&rings, "ring", Some(text("claims")), b"message").ok().unwrap();
    assert_eq!(token.version, 1);
    assert_eq!(token.ring, "ring");
    let (claims, version) = cose_verify(&rings, "ring", Some(token), at(1), Ok(())).ok().unwrap();
    assert!(same_value(&claims, &text("claims")));
    assert_eq!(version, VersionId(1));
}

fn token(ring: &str, version: u64) -> Option<CoseToken> {
    Some(CoseToken { ring: ring.to_string(), version, claims: text("c"), signature: Vec::new() })
}

#[test]
fn a_bad_token_is_refused_by_its_fault() {
    let rings = vec![started(None)];
    assert!(matches!(cose_verify(&rings, "ring", None, at(1), Ok(())), Err(CoseVerifyError::Malformed)));
    assert!(matches!(
        cose_verify(&rings, "gone", token("gone", 1), at(1), Ok(())),
        Err(CoseVerifyError::UnknownRing(r)) if r == "gone"
    ));
    assert!(matches!(
        cose_verify(&rings, "ring", token("other", 1), at(1), Ok(())),
        Err(CoseVerifyError::WrongRing)
    ));
    assert!(matches!(
        cose_verify(&rings, "ring", token("ring", 9), at(1), Ok(())),
        Err(CoseVerifyError::VersionNotAccepted)
    ));
    assert!(matches!(
        cose_verify(&rings, "ring", token("ring", 1), at(1), Err(SignatureError::Invalid)),
        Err(CoseVerifyError::ClaimsTampered)
    ));
    assert!(matches!(
        refuse_signature(SignatureError::UnsupportedAlgorithm("x".to_string())),
        CoseVerifyError::UnsupportedAlgorithm(a) if a == "x"
    ));
    let texts = [
        CoseVerifyError::Malformed.text(),
        CoseVerifyError::WrongRing.text(),
        CoseVerifyError::ClaimsTampered.text(),
        CoseVerifyError::VersionNotAccepted.text(),
        CoseVerifyError::UnknownRing("r".to_string()).text(),
    ];
    for (i, a) in texts.iter().enumerate() {
        for b in &texts[i + 1..] {
            assert_ne!(a, b);
        }
    }
}

#[test]
fn signing_needs_a_ring_and_its_provider() {
    let mut rings = vec![started(None)];
    assert!(cose_sign(&rings, "gone", Some(text("c")), b"m").is_err());
    rings[0].provider_mut().down = true;
    let refused = cose_sign(&rings, "ring", Some(text("c")), b"m").unwrap_err();
    assert_eq!(refused.reason, RejectionReason::Host);
    assert!(mint_token("ring", text("c"), Err(KeyringError::NoActiveVersion)).is_err());
}

fn wanted(local: &str, provided: Result<(), String>) -> Requirement {
    Requirement {
        local: local.to_string(),
        text: "acme.codec@1".to_string(),
        contract: Ok("acme.codec".to_string()),
        provided,
    }
}

#[test]
fn a_strict_binding_needs_every_namespace() {
    let lenient = HostBinding::resolve(&vec![wanted("codec", Err("missing".to_string()))], Names::new(), false);
    assert!(lenient.is_ok());
    let strict = HostBinding::resolve(&vec![wanted("codec", Err("missing".to_string()))], Names::new(), true);
    assert!(matches!(strict.err().unwrap(), EngineError::Requirement(_)));
    let mut bound = HostBinding::resolve(&vec![wanted("codec", Ok(()))], Names::new(), true).ok().unwrap();
    assert!(bound.is_namespace(&"codec".to_string()));
    assert!(!bound.is_namespace(&"other".to_string()));
    assert!(!bound.is_cose(&"codec".to_string()));
    assert!(!bound.was_registered(&"p".to_string()));
    bound.rebind(&vec![wanted("other", Ok(()))]).unwrap();
    assert!(bound.is_namespace(&"other".to_string()));
    let mut functions: Table<String, Vec<Function>> = Table::new();
    functions.insert(
        "other".to_string(),
        vec![Function {
            name: "encode".to_string(),
            params: vec!["text".to_string()],
            result: "text".to_string(),
            effect: EffectClass::Generated,
        }],
    );
    let signatures = bound.expr_signatures(&functions);
    let op = signatures.get(&"other".to_string()).unwrap().get(&"encode".to_string()).unwrap();
    assert_eq!(op.effect, HostEffect::Generated);
}

#[test]
fn a_host_call_is_settled_by_what_served_it() {
    assert!(same_value(&invoke("ns", "f", None, Some(Ok(text("r")))).unwrap(), &text("r")));
    assert!(same_value(&invoke("ns", "f", Some(Ok(text("codec"))), Some(Ok(text("r")))).unwrap(), &text("codec")));
    let unresolved = invoke("ns", "f", None, None).unwrap_err();
    assert_eq!(unresolved.message, "unresolved host namespace `ns`");
    let failed = invoke("ns", "f", None, Some(Err(GuardError::Invocation("boom".to_string())))).unwrap_err();
    assert_eq!(failed.reason, RejectionReason::Host);
    assert_eq!(failed.message, host_detail("ns", "f", &GuardError::Invocation("boom".to_string())));
    assert_eq!(effect_of(EffectClass::Pure), HostEffect::Pure);
    assert_eq!(effect_of(EffectClass::Verifier), HostEffect::Verifier);
    assert_eq!(origin_of("acme.codec"), HostOrigin::Registered);
}

#[test]
fn a_public_key_has_to_be_of_the_declared_algorithm() {
    let p = policy(None, None);
    let key = |algorithm: &str| PublicKey { algorithm: algorithm.to_string(), material: integer(1) };
    let taken = p.check_public(key("ed25519")).ok().unwrap();
    assert_eq!(taken.algorithm, "ed25519");
    assert!(same_value(&taken.material, &integer(1)));
    let refused = p.check_public(key("rsa")).err().unwrap();
    assert_eq!(refused.text(), "version algorithm `rsa` does not match policy `ed25519`");
}

#[test]
fn a_ring_takes_what_its_provider_answers() {
    let mut k = started(None);
    let key = Issued { handle: 9, algorithm: "ed25519".to_string(), public_key: text("pk"), attestation: None };
    let id = k.ring.take(Ok(key), at(5)).ok().unwrap();
    assert_eq!(id.0, 2);
    assert_eq!(k.versions()[0].state(), KeyState::Retired);
    assert_eq!(k.versions()[1].state(), KeyState::Active);
    let failed = k.ring.take(Err(KeyringError::Provider("down".to_string())), at(6)).err().unwrap();
    assert_eq!(failed.text(), "provider operation failed: down");
    assert_eq!(k.versions().len(), 2);
    assert_eq!(k.versions()[1].state(), KeyState::Active);
}

#[test]
fn binding_passes_on_what_the_provider_answers() {
    let mut k = started(None);
    assert_eq!(k.bind_activate("hsm:1", at(3)).ok().unwrap().0, 2);
    k.provider_mut().algorithm = "rsa".to_string();
    let mismatch = k.bind_activate("hsm:2", at(4)).err().unwrap();
    assert_eq!(mismatch.text(), "version algorithm `rsa` does not match policy `ed25519`");
    k.provider_mut().down = true;
    let down = k.bind_activate("hsm:3", at(5)).err().unwrap();
    assert_eq!(down.text(), "provider operation failed: down");
    assert_eq!(k.versions().len(), 2);
}
