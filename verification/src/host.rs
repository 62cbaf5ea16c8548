//! Host components: the namespaces a package wanted, what calls to them come to, and
//! signed tokens.

use crate::exposure::Names;
use crate::keyring::{
    is_accepted, keyring_error_text, signs, version_views, KeyProvider, Keyring, KeyringError, Ring, RingView,
    SessionToken, VersionId,
};
use crate::rejection::{outcome, refused, Rejection, RejectionReason, RejectionView};
use crate::table::Table;
use crate::text::{concat, concat3, concat4, concat5, copy_texts, same_text, texts};
use crate::time::Timestamp;
use crate::update::{EngineError, EngineErrorView};
use crate::value::{Value, ValueView};
use vstd::prelude::*;

verus! {

/// What a component declares a function to do.
#[derive(Debug, Clone, Copy, PartialEq, Eq, Structural)]
pub enum EffectClass {
    Pure,
    Verifier,
    Generated,
}

/// What an expression may assume of a host function.
#[derive(Debug, Clone, Copy, PartialEq, Eq, Structural)]
pub enum HostEffect {
    Pure,
    Verifier,
    Generated,
}

/// Whether a namespace is linked into the engine or registered by the application.
#[derive(Debug, Clone, Copy, PartialEq, Eq, Structural)]
pub enum HostOrigin {
    Core,
    Registered,
}

/// The effect an expression may assume.
pub open spec fn effect_in(effect: EffectClass) -> HostEffect {
    match effect {
        EffectClass::Pure => HostEffect::Pure,
        EffectClass::Verifier => HostEffect::Verifier,
        EffectClass::Generated => HostEffect::Generated,
    }
}

/// The effect an expression may assume.
pub fn effect_of(effect: EffectClass) -> (r: HostEffect)
    ensures
        r == effect_in(effect),
{
    match effect {
        EffectClass::Pure => HostEffect::Pure,
        EffectClass::Verifier => HostEffect::Verifier,
        EffectClass::Generated => HostEffect::Generated,
    }
}

/// The contract the engine serves through its own key rings.
pub const COSE_CONTRACT: &'static str = "liasse.cose";

/// Where a contract's namespace comes from: the byte codecs are linked in.
pub open spec fn origin_in(contract: Seq<char>) -> HostOrigin {
    if contract == "liasse.base64"@ || contract == "liasse.hex"@ || contract == "liasse.string"@ {
        HostOrigin::Core
    } else {
        HostOrigin::Registered
    }
}

/// Where a contract's namespace comes from.
pub fn origin_of(contract: &str) -> (r: HostOrigin)
    ensures
        r == origin_in(contract@),
{
    if same_text(contract, "liasse.base64") || same_text(contract, "liasse.hex") || same_text(contract, "liasse.string") {
        HostOrigin::Core
    } else {
        HostOrigin::Registered
    }
}

/// A `$requires` entry: the local name, the text it is given as, the contract that text
/// names, and whether the registered components provide it. A failure gives why.
pub struct Requirement {
    pub local: String,
    pub text: String,
    pub contract: Result<String, String>,
    pub provided: Result<(), String>,
}

/// The contracts the first `n` requirements bind. Under `strict` one that cannot be
/// read or is not provided fails; otherwise it is left out.
pub open spec fn contracts_bound(wanted: Seq<Requirement>, strict: bool, n: nat) -> Result<
    Map<Seq<char>, Seq<char>>,
    EngineErrorView,
>
    decreases n,
{
    if n == 0 {
        Ok(Map::empty())
    } else {
        let r = wanted[n - 1];
        match contracts_bound(wanted, strict, (n - 1) as nat) {
            Err(e) => Err(e),
            Ok(done) => match (r.contract, r.provided) {
                (Err(why), _) => if strict {
                    Err(
                        EngineErrorView::Requirement(
                            "`$requires."@ + r.local@ + "` = `"@ + r.text@ + ("`: "@ + why@),
                        ),
                    )
                } else {
                    Ok(done)
                },
                (Ok(_), Err(why)) => if strict {
                    Err(EngineErrorView::Requirement("`$requires."@ + r.local@ + "`: "@ + why@))
                } else {
                    Ok(done)
                },
                (Ok(contract), Ok(_)) => Ok(done.insert(r.local@, contract@)),
            },
        }
    }
}

proof fn lemma_bound_failure(wanted: Seq<Requirement>, strict: bool, n: nat, m: nat)
    requires
        n <= m,
        contracts_bound(wanted, strict, n) is Err,
    ensures
        contracts_bound(wanted, strict, m) == contracts_bound(wanted, strict, n),
    decreases m,
{
    if n < m {
        lemma_bound_failure(wanted, strict, n, (m - 1) as nat);
    }
}

fn bind(wanted: &Vec<Requirement>, strict: bool) -> (r: Result<Table<String, String>, EngineError>)
    ensures
        match (r, contracts_bound(wanted@, strict, wanted@.len())) {
            (Ok(t), Ok(x)) => t@ == x,
            (Err(e), Err(x)) => e@ == x,
            _ => false,
        },
{
    let n: usize = wanted.len();
    let mut bound: Table<String, String> = Table::new();
    let mut i: usize = 0;
    while i < n
        invariant
            n == wanted@.len(),
            i <= n,
            contracts_bound(wanted@, strict, i as nat) == Ok::<Map<Seq<char>, Seq<char>>, EngineErrorView>(bound@),
        decreases n - i,
    {
        let r = &wanted[i];
        match (&r.contract, &r.provided) {
            (Err(why), _) => {
                if strict {
                    let tail = concat("`: ", why.as_str());
                    let message = concat5("`$requires.", r.local.as_str(), "` = `", r.text.as_str(), tail.as_str());
                    proof {
                        lemma_bound_failure(wanted@, strict, (i + 1) as nat, n as nat);
                    }
                    return Err(EngineError::Requirement(message));
                }
            },
            (Ok(_), Err(why)) => {
                if strict {
                    let message = concat4("`$requires.", r.local.as_str(), "`: ", why.as_str());
                    proof {
                        lemma_bound_failure(wanted@, strict, (i + 1) as nat, n as nat);
                    }
                    return Err(EngineError::Requirement(message));
                }
            },
            (Ok(contract), Ok(_)) => {
                bound.insert(r.local.clone(), contract.clone());
            },
        }
        i = i + 1;
    }
    Ok(bound)
}

/// A function of a namespace: its name, the types it takes and gives, and its effect.
#[derive(Debug)]
pub struct Function {
    pub name: String,
    pub params: Vec<String>,
    pub result: String,
    pub effect: EffectClass,
}

/// A host function as an expression sees it.
#[derive(Debug)]
pub struct HostOp {
    pub params: Vec<String>,
    pub result: String,
    pub effect: HostEffect,
    pub origin: HostOrigin,
}

/// What a [`HostOp`] denotes.
#[verifier::ext_equal]
pub struct HostOpView {
    pub params: Seq<Seq<char>>,
    pub result: Seq<char>,
    pub effect: HostEffect,
    pub origin: HostOrigin,
}

impl View for HostOp {
    type V = HostOpView;

    open spec fn view(&self) -> HostOpView {
        HostOpView { params: texts(self.params@), result: self.result@, effect: self.effect, origin: self.origin }
    }
}

/// The first `n` functions of a namespace, by name.
pub open spec fn ops_of(functions: Seq<Function>, origin: HostOrigin, n: nat) -> Map<Seq<char>, HostOpView>
    decreases n,
{
    if n == 0 {
        Map::empty()
    } else {
        let f = functions[n - 1];
        ops_of(functions, origin, (n - 1) as nat).insert(
            f.name@,
            HostOpView { params: texts(f.params@), result: f.result@, effect: effect_in(f.effect), origin },
        )
    }
}

/// Whether a required namespace is one an expression may call: the key-ring contract
/// is not, nor is one without functions.
pub open spec fn is_callable(
    wanted: Map<Seq<char>, Seq<char>>,
    functions: Map<Seq<char>, Seq<Function>>,
    local: Seq<char>,
) -> bool {
    wanted.contains_key(local) && wanted[local] != COSE_CONTRACT@ && functions.contains_key(local)
        && functions[local].len() > 0
}

/// The namespaces an expression may call, and their functions.
pub open spec fn signatures_of(
    wanted: Map<Seq<char>, Seq<char>>,
    functions: Map<Seq<char>, Seq<Function>>,
) -> Map<Seq<char>, Map<Seq<char>, HostOpView>> {
    Map::new(
        |local: Seq<char>| is_callable(wanted, functions, local),
        |local: Seq<char>| ops_of(functions[local], origin_in(wanted[local]), functions[local].len()),
    )
}

fn read_ops(functions: &Vec<Function>, origin: HostOrigin) -> (r: Table<String, HostOp>)
    ensures
        r@ == ops_of(functions@, origin, functions@.len()),
{
    let mut r: Table<String, HostOp> = Table::new();
    let mut i: usize = 0;
    while i < functions.len()
        invariant
            i <= functions@.len(),
            r@ == ops_of(functions@, origin, i as nat),
        decreases functions@.len() - i,
    {
        let f = &functions[i];
        let op = HostOp {
            params: copy_texts(&f.params),
            result: f.result.clone(),
            effect: effect_of(f.effect),
            origin,
        };
        r.insert(f.name.clone(), op);
        i = i + 1;
    }
    r
}

/// The host components an activated package binds.
pub struct HostBinding {
    wanted: Table<String, String>,
    registered_providers: Names,
}

/// What a [`HostBinding`] denotes.
#[verifier::ext_equal]
pub struct BindingView {
    pub wanted: Map<Seq<char>, Seq<char>>,
    pub registered: Set<Seq<char>>,
}

impl View for HostBinding {
    type V = BindingView;

    closed spec fn view(&self) -> BindingView {
        BindingView { wanted: self.wanted@, registered: self.registered_providers@ }
    }
}

impl HostBinding {
    /// Bind what a package requires. The names of the registered providers are kept,
    /// whatever becomes of the providers themselves.
    pub fn resolve(wanted: &Vec<Requirement>, registered: Names, strict: bool) -> (r: Result<HostBinding, EngineError>)
        ensures
            match (r, contracts_bound(wanted@, strict, wanted@.len())) {
                (Ok(b), Ok(x)) => b@ == (BindingView { wanted: x, registered: registered@ }),
                (Err(e), Err(x)) => e@ == x,
                _ => false,
            },
    {
        match bind(wanted, strict) {
            Ok(bound) => Ok(HostBinding { wanted: bound, registered_providers: registered }),
            Err(e) => Err(e),
        }
    }

    /// Bind what another release of the package requires, against the components that
    /// are already registered. A requirement that does not resolve fails, and the
    /// binding stays as it is.
    pub fn rebind(&mut self, wanted: &Vec<Requirement>) -> (r: Result<(), EngineError>)
        ensures
            match (r, contracts_bound(wanted@, true, wanted@.len())) {
                (Ok(_), Ok(x)) => final(self)@ == (BindingView { wanted: x, registered: old(self)@.registered }),
                (Err(e), Err(x)) => e@ == x && final(self)@ == old(self)@,
                _ => false,
            },
    {
        match bind(wanted, true) {
            Ok(bound) => {
                self.wanted = bound;
                Ok(())
            },
            Err(e) => Err(e),
        }
    }

    /// Whether a name is a required namespace.
    pub fn is_namespace(&self, local: &String) -> (r: bool)
        ensures
            r == self@.wanted.contains_key(local@),
    {
        self.wanted.contains(local)
    }

    /// Whether a name is bound to the key-ring contract.
    pub fn is_cose(&self, local: &String) -> (r: bool)
        ensures
            r == (self@.wanted.contains_key(local@) && self@.wanted[local@] == COSE_CONTRACT@),
    {
        match self.wanted.get(local) {
            Some(contract) => same_text(contract.as_str(), COSE_CONTRACT),
            None => false,
        }
    }

    /// Whether the application registered a provider of this name, whether or not it is
    /// still to be had.
    pub fn was_registered(&self, name: &String) -> (r: bool)
        ensures
            r == self@.registered.contains(name@),
    {
        self.registered_providers.contains(name)
    }

    /// The namespaces an expression may call, given the functions of each that resolves.
    pub fn expr_signatures(&self, functions: &Table<String, Vec<Function>>) -> (r: Table<String, Table<String, HostOp>>)
        ensures
            r@ == signatures_of(self@.wanted, functions@),
    {
        let n: usize = self.wanted.len();
        let ghost want = signatures_of(self@.wanted, functions@);
        let mut r: Table<String, Table<String, HostOp>> = Table::new();
        let mut i: usize = 0;
        while i < n
            invariant
                n == self.wanted.keys().len(),
                self@.wanted == self.wanted@,
                want == signatures_of(self.wanted@, functions@),
                i <= n,
                forall|local: Seq<char>| #[trigger]
                    r@.contains_key(local) <==> want.contains_key(local) && self.wanted.keys().take(i as int).contains(
                        local,
                    ),
                forall|local: Seq<char>| #[trigger] r@.contains_key(local) ==> r@[local] == want[local],
            decreases n - i,
        {
            let local = self.wanted.key_at(i);
            let contract = self.wanted.value_at(i);
            let ghost before = r@;
            let ghost keys = self.wanted.keys();
            let ghost next = keys.take(i + 1);
            proof {
                assert(keys[i as int] == local@);
                assert(next[i as int] == local@);
                assert forall|k: Seq<char>| #[trigger] next.contains(k) <==> keys.take(i as int).contains(k) || k
                    == local@ by {
                    if keys.take(i as int).contains(k) {
                        let j = choose|j: int| 0 <= j < i && keys.take(i as int)[j] == k;
                        assert(next[j] == k);
                    }
                    if next.contains(k) && k != local@ {
                        let j = choose|j: int| 0 <= j < next.len() && next[j] == k;
                        assert(keys.take(i as int)[j] == k);
                    }
                }
            }
            if !same_text(contract.as_str(), COSE_CONTRACT) {
                if let Some(fns) = functions.get(local) {
                    if fns.len() > 0 {
                        r.insert(local.clone(), read_ops(fns, origin_of(contract.as_str())));
                    }
                }
            }
            i = i + 1;
        }
        proof {
            assert(self.wanted.keys().take(n as int) =~= self.wanted.keys());
            assert(r@ =~= want);
        }
        r
    }
}

/// Why a guarded call to a host function failed.
#[derive(Debug)]
pub enum GuardError {
    /// A verifier refused.
    Verification(String),
    /// The call itself failed.
    Invocation(String),
    /// The result is not of the declared type.
    Violation(String),
}

/// A failed call in words.
pub open spec fn host_failure(local: Seq<char>, function: Seq<char>, e: GuardError) -> Seq<char> {
    match e {
        GuardError::Verification(detail) => "`"@ + local + "."@ + function + ("` verification failed: "@ + detail@),
        GuardError::Invocation(failure) => "`"@ + local + "."@ + function + ("`: "@ + failure@),
        GuardError::Violation(violation) => "`"@ + local + "."@ + function + ("` returned a nonconforming value: "@
            + violation@),
    }
}

/// A failed call in words.
pub fn host_detail(local: &str, function: &str, e: &GuardError) -> (r: String)
    ensures
        r@ == host_failure(local@, function@, *e),
{
    let tail = match e {
        GuardError::Verification(detail) => concat("` verification failed: ", detail.as_str()),
        GuardError::Invocation(failure) => concat("`: ", failure.as_str()),
        GuardError::Violation(violation) => concat("` returned a nonconforming value: ", violation.as_str()),
    };
    concat5("`", local, ".", function, tail.as_str())
}

/// What a call to a host function comes to: a linked-in codec is served first, and any
/// other namespace must resolve; a guarded failure is a refusal of the host.
pub open spec fn invoked(
    local: Seq<char>,
    function: Seq<char>,
    codec: Option<Result<ValueView, GuardError>>,
    called: Option<Result<ValueView, GuardError>>,
) -> Result<ValueView, RejectionView> {
    match codec {
        Some(Ok(v)) => Ok(v),
        Some(Err(e)) => Err(refused(RejectionReason::Host, host_failure(local, function, e))),
        None => match called {
            None => Err(refused(RejectionReason::Malformed, "unresolved host namespace `"@ + local + "`"@)),
            Some(Ok(v)) => Ok(v),
            Some(Err(e)) => Err(refused(RejectionReason::Host, host_failure(local, function, e))),
        },
    }
}

/// What a guarded call answered.
pub open spec fn call_view(called: Option<Result<Value, GuardError>>) -> Option<Result<ValueView, GuardError>> {
    match called {
        None => None,
        Some(Ok(v)) => Some(Ok(v@)),
        Some(Err(e)) => Some(Err(e)),
    }
}

/// Settle a call to a host function, given what the linked-in codecs answered, where
/// they serve the name, and what the registered component did, where one resolves.
pub fn invoke(
    local: &str,
    function: &str,
    codec: Option<Result<Value, GuardError>>,
    called: Option<Result<Value, GuardError>>,
) -> (r: Result<Value, Rejection>)
    ensures
        outcome(r) == invoked(local@, function@, call_view(codec), call_view(called)),
{
    let answer = match codec {
        Some(answer) => answer,
        None => match called {
            Some(answer) => answer,
            None => {
                let message = concat3("unresolved host namespace `", local, "`");
                return Err(Rejection::new(RejectionReason::Malformed, message.as_str()));
            },
        },
    };
    match answer {
        Ok(v) => Ok(v),
        Err(e) => {
            let detail = host_detail(local, function, &e);
            Err(Rejection::new(RejectionReason::Host, detail.as_str()))
        },
    }
}

/// A signed token: the ring and version that signed it, its claims, and the signature.
#[derive(Debug)]
pub struct CoseToken {
    pub ring: String,
    pub version: u64,
    pub claims: Value,
    pub signature: Vec<u8>,
}

/// Why a signature did not verify.
#[derive(Debug)]
pub enum SignatureError {
    UnsupportedAlgorithm(String),
    Invalid,
    MalformedPublicKey(String),
}

/// Why a token was refused.
#[derive(Debug)]
pub enum CoseVerifyError {
    /// It is no token.
    Malformed,
    /// No ring of that name exists.
    UnknownRing(String),
    /// Another ring signed it.
    WrongRing,
    /// The signature is not one over its claims.
    ClaimsTampered,
    /// Its version is not accepted.
    VersionNotAccepted,
    /// The algorithm of its version cannot be verified.
    UnsupportedAlgorithm(String),
}

/// What a [`CoseVerifyError`] says.
#[verifier::ext_equal]
pub enum CoseErrorView {
    Malformed,
    UnknownRing(Seq<char>),
    WrongRing,
    ClaimsTampered,
    VersionNotAccepted,
    UnsupportedAlgorithm(Seq<char>),
}

impl View for CoseVerifyError {
    type V = CoseErrorView;

    open spec fn view(&self) -> CoseErrorView {
        match self {
            CoseVerifyError::Malformed => CoseErrorView::Malformed,
            CoseVerifyError::UnknownRing(n) => CoseErrorView::UnknownRing(n@),
            CoseVerifyError::WrongRing => CoseErrorView::WrongRing,
            CoseVerifyError::ClaimsTampered => CoseErrorView::ClaimsTampered,
            CoseVerifyError::VersionNotAccepted => CoseErrorView::VersionNotAccepted,
            CoseVerifyError::UnsupportedAlgorithm(a) => CoseErrorView::UnsupportedAlgorithm(a@),
        }
    }
}

/// A refusal of a token in words.
pub open spec fn cose_error_text(e: CoseErrorView) -> Seq<char> {
    match e {
        CoseErrorView::Malformed => "not a well-formed cose token"@,
        CoseErrorView::UnknownRing(n) => "no keyring named `"@ + n + "` is provisioned"@,
        CoseErrorView::WrongRing => "token was signed by a different keyring"@,
        CoseErrorView::ClaimsTampered => "token claims do not match the signed payload"@,
        CoseErrorView::VersionNotAccepted => "token version is no longer accepted"@,
        CoseErrorView::UnsupportedAlgorithm(a) => "token signature algorithm is unsupported: "@ + a,
    }
}

impl CoseVerifyError {
    /// The refusal in words.
    pub fn text(&self) -> (r: String)
        ensures
            r@ == cose_error_text(self@),
    {
        match self {
            CoseVerifyError::Malformed => String::from_str("not a well-formed cose token"),
            CoseVerifyError::UnknownRing(n) => concat3("no keyring named `", n.as_str(), "` is provisioned"),
            CoseVerifyError::WrongRing => String::from_str("token was signed by a different keyring"),
            CoseVerifyError::ClaimsTampered => String::from_str("token claims do not match the signed payload"),
            CoseVerifyError::VersionNotAccepted => String::from_str("token version is no longer accepted"),
            CoseVerifyError::UnsupportedAlgorithm(a) => concat(
                "token signature algorithm is unsupported: ",
                a.as_str(),
            ),
        }
    }
}

/// The refusal a failed signature comes to: an unsupported algorithm is named, and
/// anything else is a mismatch.
pub open spec fn signature_refused(e: SignatureError) -> CoseErrorView {
    match e {
        SignatureError::UnsupportedAlgorithm(a) => CoseErrorView::UnsupportedAlgorithm(a@),
        _ => CoseErrorView::ClaimsTampered,
    }
}

/// The refusal a failed signature comes to.
pub fn refuse_signature(e: SignatureError) -> (r: CoseVerifyError)
    ensures
        r@ == signature_refused(e),
{
    match e {
        SignatureError::UnsupportedAlgorithm(a) => CoseVerifyError::UnsupportedAlgorithm(a),
        _ => CoseVerifyError::ClaimsTampered,
    }
}

/// What rings denote.
pub open spec fn ring_views<P: KeyProvider>(keyrings: Seq<Keyring<P>>) -> Seq<RingView> {
    Seq::new(keyrings.len(), |i: int| keyrings[i].ring@)
}

/// The position of the first ring of this name, from `from` on.
pub open spec fn ring_from(rings: Seq<RingView>, name: Seq<char>, from: nat) -> Option<int>
    decreases rings.len() - from,
{
    if from >= rings.len() {
        None
    } else if rings[from as int].name == name {
        Some(from as int)
    } else {
        ring_from(rings, name, from + 1)
    }
}

/// The position of the first version of this number that a ring accepts, from `from`
/// on.
pub open spec fn accepted_from(ring: RingView, id: u64, now: Timestamp, from: nat) -> Option<int>
    decreases ring.versions.len() - from,
{
    if from >= ring.versions.len() {
        None
    } else if is_accepted(ring.policy, ring.versions[from as int], now) && ring.versions[from as int].id == id {
        Some(from as int)
    } else {
        accepted_from(ring, id, now, from + 1)
    }
}

/// The version a token must verify under: it is a token, the ring exists and signed
/// it, and accepts its version now. Given are the ring's position and the version's.
pub open spec fn token_version(
    rings: Seq<RingView>,
    ring: Seq<char>,
    token: Option<CoseToken>,
    now: Timestamp,
) -> Result<(int, int), CoseErrorView> {
    match token {
        None => Err(CoseErrorView::Malformed),
        Some(t) => match ring_from(rings, ring, 0) {
            None => Err(CoseErrorView::UnknownRing(ring)),
            Some(i) => if t.ring@ != ring {
                Err(CoseErrorView::WrongRing)
            } else {
                match accepted_from(rings[i], t.version, now, 0) {
                    None => Err(CoseErrorView::VersionNotAccepted),
                    Some(v) => Ok((i, v)),
                }
            },
        },
    }
}

/// What verifying a token comes to, given whether its signature is one over its claims
/// under the public key of its version: the claims, and the number of the version.
pub open spec fn token_verified(
    rings: Seq<RingView>,
    ring: Seq<char>,
    token: Option<CoseToken>,
    now: Timestamp,
    signature: Result<(), SignatureError>,
) -> Result<(ValueView, u64), CoseErrorView> {
    match token_version(rings, ring, token, now) {
        Err(e) => Err(e),
        Ok((i, v)) => match signature {
            Err(e) => Err(signature_refused(e)),
            Ok(_) => Ok((token->0.claims@, rings[i].versions[v].id)),
        },
    }
}

fn find_ring<P: KeyProvider>(keyrings: &Vec<Keyring<P>>, name: &str) -> (r: Option<usize>)
    ensures
        match r {
            Some(i) => i < keyrings@.len() && ring_from(ring_views(keyrings@), name@, 0) == Some(i as int),
            None => ring_from(ring_views(keyrings@), name@, 0) is None,
        },
{
    let ghost all = ring_views(keyrings@);
    let mut i: usize = 0;
    while i < keyrings.len()
        invariant
            all == ring_views(keyrings@),
            i <= keyrings@.len(),
            ring_from(all, name@, 0) == ring_from(all, name@, i as nat),
        decreases keyrings@.len() - i,
    {
        proof {
            assert(all[i as int] == keyrings@[i as int].ring@);
        }
        if same_text(keyrings[i].ring.name.as_str(), name) {
            return Some(i);
        }
        i = i + 1;
    }
    None
}

fn find_accepted(ring: &Ring, id: u64, now: Timestamp) -> (r: Option<usize>)
    ensures
        match r {
            Some(i) => i < ring.versions@.len() && accepted_from(ring@, id, now, 0) == Some(i as int),
            None => accepted_from(ring@, id, now, 0) is None,
        },
{
    let ghost all = version_views(ring.versions@);
    let mut i: usize = 0;
    while i < ring.versions.len()
        invariant
            all == version_views(ring.versions@),
            ring@.versions == all,
            i <= ring.versions@.len(),
            accepted_from(ring@, id, now, 0) == accepted_from(ring@, id, now, i as nat),
        decreases ring.versions@.len() - i,
    {
        proof {
            assert(all[i as int] == ring.versions@[i as int]@);
        }
        if ring.accepts(&ring.versions[i], now) && ring.versions[i].id.0 == id {
            return Some(i);
        }
        i = i + 1;
    }
    None
}

/// Find the version a token must verify under.
pub fn accepted_version<P: KeyProvider>(
    keyrings: &Vec<Keyring<P>>,
    ring: &str,
    token: &Option<CoseToken>,
    now: Timestamp,
) -> (r: Result<(usize, usize), CoseVerifyError>)
    ensures
        match (r, token_version(ring_views(keyrings@), ring@, *token, now)) {
            (Ok((i, v)), Ok((x, y))) => i == x && v == y && i < keyrings@.len() && v < keyrings@[i as int].ring.versions@.len(),
            (Err(e), Err(x)) => e@ == x,
            _ => false,
        },
{
    let t = match token {
        Some(t) => t,
        None => {
            return Err(CoseVerifyError::Malformed);
        },
    };
    let i: usize = match find_ring(keyrings, ring) {
        Some(i) => i,
        None => {
            return Err(CoseVerifyError::UnknownRing(String::from_str(ring)));
        },
    };
    proof {
        assert(ring_views(keyrings@)[i as int] == keyrings@[i as int].ring@);
    }
    if !same_text(t.ring.as_str(), ring) {
        return Err(CoseVerifyError::WrongRing);
    }
    match find_accepted(&keyrings[i].ring, t.version, now) {
        Some(v) => Ok((i, v)),
        None => Err(CoseVerifyError::VersionNotAccepted),
    }
}

/// Verify a token, given whether its signature is one over its claims under the public
/// key of the version it must verify under.
pub fn cose_verify<P: KeyProvider>(
    keyrings: &Vec<Keyring<P>>,
    ring: &str,
    token: Option<CoseToken>,
    now: Timestamp,
    signature: Result<(), SignatureError>,
) -> (r: Result<(Value, VersionId), CoseVerifyError>)
    ensures
        match (r, token_verified(ring_views(keyrings@), ring@, token, now, signature)) {
            (Ok((claims, v)), Ok((x, y))) => claims@ == x && v.0 == y,
            (Err(e), Err(x)) => e@ == x,
            _ => false,
        },
{
    let (i, v): (usize, usize) = accepted_version(keyrings, ring, &token, now)?;
    match signature {
        Err(e) => Err(refuse_signature(e)),
        Ok(_) => {
            let id = keyrings[i].ring.versions[v].id;
            proof {
                assert(ring_views(keyrings@)[i as int] == keyrings@[i as int].ring@);
                assert(ring_views(keyrings@)[i as int].versions[v as int] == keyrings@[i as int].ring.versions@[v as int]@);
            }
            match token {
                Some(t) => Ok((t.claims, id)),
                None => Err(CoseVerifyError::Malformed),
            }
        },
    }
}

/// What signing claims comes to before the provider signs: the position of the ring.
pub open spec fn signing_ring(rings: Seq<RingView>, ring: Seq<char>, claims: Option<ValueView>) -> Result<
    int,
    RejectionView,
> {
    match claims {
        None => Err(refused(RejectionReason::TypeError, "`cose.sign` claims must be an object"@)),
        Some(_) => match ring_from(rings, ring, 0) {
            Some(i) => Ok(i),
            None => Err(
                refused(RejectionReason::Malformed, "`cose.sign` names unknown keyring `/"@ + ring + "`"@),
            ),
        },
    }
}

/// The token of claims a ring signed: the claims as given, with the version and the
/// signature of the ring; a refused signature mints none.
pub open spec fn token_of(
    ring: Seq<char>,
    claims: ValueView,
    signed: Result<SessionToken, KeyringError>,
) -> Result<(Seq<char>, u64, ValueView, Seq<u8>), RejectionView> {
    match signed {
        Ok(token) => Ok((ring, token.version.0, claims, token.signature@)),
        Err(e) => Err(refused(RejectionReason::Host, "cose.sign failed: "@ + keyring_error_text(e@))),
    }
}

/// Make the token of claims a ring signed.
pub fn mint_token(ring: &str, claims: Value, signed: Result<SessionToken, KeyringError>) -> (r: Result<CoseToken, Rejection>)
    ensures
        match (r, token_of(ring@, claims@, signed)) {
            (Ok(t), Ok((name, version, c, bytes))) => t.ring@ == name && t.version == version && t.claims@ == c
                && t.signature@ == bytes,
            (Err(e), Err(x)) => e@ == x,
            _ => false,
        },
{
    match signed {
        Ok(token) => Ok(
            CoseToken {
                ring: String::from_str(ring),
                version: token.version.get(),
                claims,
                signature: token.signature,
            },
        ),
        Err(e) => {
            let text = e.text();
            let message = concat("cose.sign failed: ", text.as_str());
            Err(Rejection::new(RejectionReason::Host, message.as_str()))
        },
    }
}

/// Sign claims with a ring: `message` is the canonical form of the claims, where they
/// are an object. The token carries the provider's signature over that message.
pub fn cose_sign<P: KeyProvider>(
    keyrings: &Vec<Keyring<P>>,
    ring: &str,
    claims: Option<Value>,
    message: &[u8],
) -> (r: Result<CoseToken, Rejection>)
    ensures
        match signing_ring(
            ring_views(keyrings@),
            ring@,
            match claims {
                Some(c) => Some(c@),
                None => None,
            },
        ) {
            Err(x) => r matches Err(e) && e@ == x,
            Ok(i) => exists|signed: Result<SessionToken, KeyringError>|
                signs(keyrings@[i], message, signed) && match (r, #[trigger] token_of(ring@, claims->0@, signed)) {
                    (Ok(t), Ok((name, version, c, bytes))) => t.ring@ == name && t.version == version && t.claims@ == c
                        && t.signature@ == bytes,
                    (Err(e), Err(x)) => e@ == x,
                    _ => false,
                },
        },
{
    let claims = match claims {
        Some(c) => c,
        None => {
            return Err(Rejection::new(RejectionReason::TypeError, "`cose.sign` claims must be an object"));
        },
    };
    let i: usize = match find_ring(keyrings, ring) {
        Some(i) => i,
        None => {
            let message = concat3("`cose.sign` names unknown keyring `/", ring, "`");
            return Err(Rejection::new(RejectionReason::Malformed, message.as_str()));
        },
    };
    let signed = keyrings[i].sign(message);
    let ghost answer = signed;
    let r = mint_token(ring, claims, signed);
    proof {
        assert(ring_views(keyrings@)[i as int] == keyrings@[i as int].ring@);
        assert(match (r, token_of(ring@, claims@, answer)) {
            (Ok(t), Ok((name, version, c, bytes))) => t.ring@ == name && t.version == version && t.claims@ == c
                && t.signature@ == bytes,
            (Err(e), Err(x)) => e@ == x,
            _ => false,
        });
    }
    r
}

/// A token never verifies unless its ring accepts its version and its signature is one
/// over its claims.
pub proof fn law_verified_token(
    rings: Seq<RingView>,
    ring: Seq<char>,
    token: Option<CoseToken>,
    now: Timestamp,
    signature: Result<(), SignatureError>,
)
    ensures
        token_verified(rings, ring, token, now, signature) matches Ok((claims, id)) ==> {
            &&& signature is Ok
            &&& token matches Some(t) && t.ring@ == ring && t.version == id && t.claims@ == claims
            &&& exists|i: int, v: int|
                0 <= i < rings.len() && rings[i].name == ring && 0 <= v < rings[i].versions.len() && #[trigger] is_accepted(
                    rings[i].policy,
                    #[trigger] rings[i].versions[v],
                    now,
                ) && rings[i].versions[v].id == id
        },
{
    if let Ok((i, v)) = token_version(rings, ring, token, now) {
        lemma_ring_from(rings, ring, 0);
        lemma_accepted_from(rings[i], token->0.version, now, 0);
        assert(is_accepted(rings[i].policy, rings[i].versions[v], now));
    }
}

proof fn lemma_ring_from(rings: Seq<RingView>, name: Seq<char>, from: nat)
    ensures
        ring_from(rings, name, from) matches Some(i) ==> from <= i < rings.len() && rings[i].name == name,
    decreases rings.len() - from,
{
    if from < rings.len() {
        lemma_ring_from(rings, name, from + 1);
    }
}

proof fn lemma_accepted_from(ring: RingView, id: u64, now: Timestamp, from: nat)
    ensures
        accepted_from(ring, id, now, from) matches Some(i) ==> from <= i < ring.versions.len() && is_accepted(
            ring.policy,
            ring.versions[i],
            now,
        ) && ring.versions[i].id == id,
    decreases ring.versions.len() - from,
{
    if from < ring.versions.len() {
        lemma_accepted_from(ring, id, now, from + 1);
    }
}

/// Under the strict discipline every requirement is bound, or binding fails.
pub proof fn law_strict_binding(wanted: Seq<Requirement>, n: nat, i: int)
    requires
        contracts_bound(wanted, true, n) is Ok,
        0 <= i < n,
    ensures
        wanted[i].contract is Ok,
        wanted[i].provided is Ok,
        contracts_bound(wanted, true, n)->Ok_0.contains_key(wanted[i].local@),
    decreases n,
{
    if i < n - 1 {
        law_strict_binding(wanted, (n - 1) as nat, i);
    }
}

} // verus!
