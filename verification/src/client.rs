//! The decisions of the attester client: where to send requests, how a saved
//! key is checked, what proof the client asserts for a challenge, and how a
//! serialized proof is signed and packed for submission.

use crate::builder::ProofBuilder;
use crate::crypto::{
    ed25519_public_key, ed25519_public_key_of, ed25519_sign, ed25519_signature_of, sha256_digest,
    sha256_of,
};
use crate::encoding::{
    base64url_decoded, base64url_encoded, decode_base64url, encode_base64url, is_base64url_char,
    json_insert_integer, json_insert_text, json_object_integers, json_object_keys,
    json_object_texts, empty_json_object,
};
use crate::error::{BuildError, BuildErrorModel};
use crate::graph::{has_cycle, is_cycle, lemma_forward_edges_acyclic};
use crate::model::{
    ApplicationBinding, BindingStrength, Capability, CapabilityStatus, Continuity, ContinuityEdge,
    ContinuityEvent, EvidenceRecord, EvidenceStatus, Producer, ProofEnvelope, SigningMetadata,
    Subject, SubjectType, DRAFT_PROTOCOL_VERSION, MAX_CHALLENGE_BYTES, MIN_CHALLENGE_BYTES,
};
use crate::text::{is_blank_text, is_white_space};
use crate::validate::{
    continuity_edges, continuity_outcome, dependencies_of, envelope_outcome, event_ids,
    evidence_edges, evidence_ids, evidence_outcome, first_absent, first_dangling_endpoint,
    first_missing_dependency, first_repeat, repeats_earlier,
};
use vstd::prelude::*;
use vstd::string::*;

verus! {

/// A challenge as the verifier hands it out.
#[derive(Debug, Clone, PartialEq, Eq)]
pub struct ChallengeResponse {
    pub challenge_id: String,
    pub challenge: String,
    pub protocol_version: String,
    pub profile: String,
    pub expires_at: String,
}

/// A signed proof, ready to be posted to the verifier.
#[derive(Debug, Clone, PartialEq, Eq)]
pub struct SignedSubmission {
    pub challenge_id: String,
    pub payload: String,
    pub public_key: String,
    pub signature: String,
    pub algorithm: String,
}

/// A demo signing key as it is kept on disk.
#[derive(Debug, Clone, PartialEq, Eq)]
pub struct StoredKey {
    pub version: u32,
    pub secret_key: String,
    pub public_key: String,
}

/// What the client observed of its host when it answered a challenge.
#[derive(Debug, Clone)]
pub struct HostObservation {
    /// When the proof was begun (RFC 3339).
    pub issued_at: String,
    /// When the evidence was collected (RFC 3339).
    pub observed_at: String,
    /// Fresh random bytes that name the proof.
    pub proof_id: [u8; 18],
    /// The client's own version, as its build identifier.
    pub build_id: String,
    /// The operating system the client runs on.
    pub os: String,
    /// The processor architecture the client runs on.
    pub architecture: String,
    /// The client's process id.
    pub process_id: u32,
    /// The size of the client's executable file, as the file system reports it.
    pub executable_size: u64,
    /// The bytes of the client's executable file, as read.
    pub executable: Vec<u8>,
}

#[derive(Debug, PartialEq, Eq)]
pub enum SubmissionError {
    UnsupportedProtocol { offered: String },
    InvalidChallengeEncoding,
    Proof(BuildError),
}

pub enum SubmissionErrorModel {
    UnsupportedProtocol { offered: Seq<char> },
    InvalidChallengeEncoding,
    Proof(BuildErrorModel),
}

impl View for SubmissionError {
    type V = SubmissionErrorModel;

    open spec fn view(&self) -> SubmissionErrorModel {
        match self {
            SubmissionError::UnsupportedProtocol { offered } => {
                SubmissionErrorModel::UnsupportedProtocol { offered: offered@ }
            },
            SubmissionError::InvalidChallengeEncoding => {
                SubmissionErrorModel::InvalidChallengeEncoding
            },
            SubmissionError::Proof(e) => SubmissionErrorModel::Proof(e@),
        }
    }
}

#[derive(Debug, Clone, PartialEq, Eq)]
pub enum KeyFileError {
    UnsupportedVersion(u32),
    NotBase64Url { name: String },
    WrongLength { name: String, expected: usize, actual: usize },
    PublicKeyMismatch,
}

pub enum KeyFileErrorModel {
    UnsupportedVersion(u32),
    NotBase64Url { name: Seq<char> },
    WrongLength { name: Seq<char>, expected: usize, actual: usize },
    PublicKeyMismatch,
}

impl View for KeyFileError {
    type V = KeyFileErrorModel;

    open spec fn view(&self) -> KeyFileErrorModel {
        match self {
            KeyFileError::UnsupportedVersion(v) => KeyFileErrorModel::UnsupportedVersion(*v),
            KeyFileError::NotBase64Url { name } => KeyFileErrorModel::NotBase64Url { name: name@ },
            KeyFileError::WrongLength { name, expected, actual } => KeyFileErrorModel::WrongLength {
                name: name@,
                expected: *expected,
                actual: *actual,
            },
            KeyFileError::PublicKeyMismatch => KeyFileErrorModel::PublicKeyMismatch,
        }
    }
}

/// `s` with every `/` at its end removed.
pub open spec fn without_trailing_slashes(s: Seq<char>) -> Seq<char>
    decreases s.len(),
{
    if s.len() > 0 && s.last() == '/' {
        without_trailing_slashes(s.drop_last())
    } else {
        s
    }
}

/// The URL of `path` on `server`: the server's address without trailing
/// slashes, followed by the path.
pub fn endpoint(server: &str, path: &str) -> (url: String)
    ensures
        url@ == without_trailing_slashes(server@) + path@,
{
    let mut k = server.unicode_len();
    assert(server@.take(k as int) =~= server@);
    while k > 0 && server.get_char(k - 1) == '/'
        invariant
            k <= server@.len(),
            without_trailing_slashes(server@.take(k as int)) == without_trailing_slashes(server@),
        decreases k,
    {
        assert(server@.take(k as int).drop_last() =~= server@.take(k - 1));
        k -= 1;
    }
    let base = server.substring_char(0, k);
    assert(base@ =~= server@.take(k as int));
    let mut url = base.to_owned();
    url.append(path);
    url
}

/// Whether the verifier's reported status means the proof passed.
pub fn accepts_verdict(status: Option<&str>) -> (passed: bool)
    ensures
        passed == (status matches Some(s) && s@ == "pass"@),
{
    match status {
        Some(s) => s.to_owned() == "pass".to_owned(),
        None => false,
    }
}

/// The subject text of a key: the first 16 bytes of the SHA-256 digest of
/// its public key, in unpadded URL-safe base64.
pub open spec fn key_subject(secret: Seq<u8>) -> Seq<char> {
    base64url_encoded(sha256_of(ed25519_public_key_of(secret)).take(16))
}

/// The pairwise subject value for the key with secret `secret`.
pub fn subject_from_key(secret: &[u8]) -> (subject: String)
    requires
        secret@.len() == 32,
    ensures
        subject@ == key_subject(secret@),
        subject@.len() == 22,
        !is_blank_text(subject@),
{
    let public = ed25519_public_key(secret);
    let digest = sha256_digest(public.as_slice());
    let mut prefix: Vec<u8> = Vec::new();
    let mut i: usize = 0;
    while i < 16
        invariant
            digest@.len() == 32,
            i <= 16,
            prefix@ == digest@.take(i as int),
        decreases 16 - i,
    {
        prefix.push(digest[i]);
        i += 1;
        assert(prefix@ =~= digest@.take(i as int));
    }
    let subject = encode_base64url(prefix.as_slice());
    proof {
        lemma_base64url_not_blank(subject@);
    }
    subject
}

/// Unpadded base64 text of at least one byte is not blank.
proof fn lemma_base64url_not_blank(text: Seq<char>)
    requires
        text.len() > 0,
        forall|i: int| 0 <= i < text.len() ==> is_base64url_char(#[trigger] text[i]),
    ensures
        !is_blank_text(text),
{
    assert(is_base64url_char(text[0]));
    assert(!is_white_space(text[0]));
}

/// What `decode_fixed` decides for `value`.
pub open spec fn fixed_outcome(value: Seq<char>, name: Seq<char>, expected: usize) -> Result<
    Seq<u8>,
    KeyFileErrorModel,
> {
    match base64url_decoded(value) {
        None => Err(KeyFileErrorModel::NotBase64Url { name }),
        Some(bytes) => if bytes.len() != expected {
            Err(
                KeyFileErrorModel::WrongLength { name, expected, actual: bytes.len() as usize },
            )
        } else {
            Ok(bytes)
        },
    }
}

/// The bytes of the unpadded URL-safe base64 `value`, which must be
/// `expected` bytes long; `name` says which field it is.
pub fn decode_fixed(value: &str, name: &str, expected: usize) -> (res: Result<
    Vec<u8>,
    KeyFileError,
>)
    ensures
        match res {
            Ok(bytes) => fixed_outcome(value@, name@, expected) == Ok::<Seq<u8>, KeyFileErrorModel>(
                bytes@,
            ) && base64url_encoded(bytes@) == value@,
            Err(e) => fixed_outcome(value@, name@, expected) == Err::<Seq<u8>, KeyFileErrorModel>(
                e@,
            ),
        },
{
    let bytes = match decode_base64url(value) {
        Ok(bytes) => bytes,
        Err(_) => {
            return Err(KeyFileError::NotBase64Url { name: name.to_owned() });
        },
    };
    let actual = bytes.len();
    if actual != expected {
        return Err(KeyFileError::WrongLength { name: name.to_owned(), expected, actual });
    }
    Ok(bytes)
}

/// What `key_from_stored` decides for `stored`.
pub open spec fn stored_key_outcome(stored: StoredKey) -> Result<Seq<u8>, KeyFileErrorModel> {
    if stored.version != 1 {
        Err(KeyFileErrorModel::UnsupportedVersion(stored.version))
    } else {
        match fixed_outcome(stored.secret_key@, "secretKey"@, 32) {
            Err(e) => Err(e),
            Ok(secret) => if stored.public_key@ != base64url_encoded(
                ed25519_public_key_of(secret),
            ) {
                Err(KeyFileErrorModel::PublicKeyMismatch)
            } else {
                Ok(secret)
            },
        }
    }
}

/// The secret key held by a stored key, after checking its version, its
/// encoding, its length, and that its public key belongs to it.
pub fn key_from_stored(stored: &StoredKey) -> (res: Result<Vec<u8>, KeyFileError>)
    ensures
        match res {
            Ok(secret) => stored_key_outcome(*stored) == Ok::<Seq<u8>, KeyFileErrorModel>(
                secret@,
            ),
            Err(e) => stored_key_outcome(*stored) == Err::<Seq<u8>, KeyFileErrorModel>(e@),
        },
{
    if stored.version != 1 {
        return Err(KeyFileError::UnsupportedVersion(stored.version));
    }
    let secret = decode_fixed(stored.secret_key.as_str(), "secretKey", 32)?;
    let public = ed25519_public_key(secret.as_slice());
    let expected_public = encode_base64url(public.as_slice());
    if stored.public_key != expected_public {
        return Err(KeyFileError::PublicKeyMismatch);
    }
    Ok(secret)
}

/// The stored form of the key with secret `secret`; reading it back with
/// `key_from_stored` gives `secret`.
pub fn stored_key_for(secret: &[u8]) -> (stored: StoredKey)
    requires
        secret@.len() == 32,
    ensures
        stored.version == 1,
        stored.secret_key@ == base64url_encoded(secret@),
        stored.public_key@ == base64url_encoded(ed25519_public_key_of(secret@)),
        stored_key_outcome(stored) == Ok::<Seq<u8>, KeyFileErrorModel>(secret@),
{
    let public = ed25519_public_key(secret);
    let stored = StoredKey {
        version: 1,
        secret_key: encode_base64url(secret),
        public_key: encode_base64url(public.as_slice()),
    };
    proof {
        reveal_strlit("secretKey");
    }
    stored
}

/// Packs a serialized proof for submission: the payload, the key's public
/// key and the Ed25519 signature of the exact payload bytes, each in unpadded
/// URL-safe base64.
pub fn seal_submission(
    challenge_id: &str,
    payload: &[u8],
    secret: &[u8],
) -> (submission: SignedSubmission)
    requires
        secret@.len() == 32,
        4 * (payload@.len() / 3) + 3 <= usize::MAX,
    ensures
        submission.challenge_id@ == challenge_id@,
        submission.payload@ == base64url_encoded(payload@),
        base64url_decoded(submission.payload@) == Some(payload@),
        submission.public_key@ == base64url_encoded(ed25519_public_key_of(secret@)),
        submission.signature@ == base64url_encoded(ed25519_signature_of(secret@, payload@)),
        base64url_decoded(submission.signature@) == Some(ed25519_signature_of(secret@, payload@)),
        submission.algorithm@ == "Ed25519"@,
{
    let signature = ed25519_sign(secret, payload);
    let public = ed25519_public_key(secret);
    SignedSubmission {
        challenge_id: challenge_id.to_owned(),
        payload: encode_base64url(payload),
        public_key: encode_base64url(public.as_slice()),
        signature: encode_base64url(signature.as_slice()),
        algorithm: "Ed25519".to_owned(),
    }
}

/// What `accept_challenge` decides for `challenge`: the protocol version,
/// then the encoding of the challenge bytes.
pub open spec fn challenge_acceptance(challenge: ChallengeResponse) -> Result<
    Seq<u8>,
    SubmissionErrorModel,
> {
    if challenge.protocol_version@ != DRAFT_PROTOCOL_VERSION@ {
        Err(SubmissionErrorModel::UnsupportedProtocol { offered: challenge.protocol_version@ })
    } else {
        match base64url_decoded(challenge.challenge@) {
            None => Err(SubmissionErrorModel::InvalidChallengeEncoding),
            Some(c) => Ok(c),
        }
    }
}

/// The challenge bytes, once the verifier's protocol version is the draft's
/// and the challenge is unpadded URL-safe base64.
pub fn accept_challenge(challenge: &ChallengeResponse) -> (res: Result<Vec<u8>, SubmissionError>)
    ensures
        match res {
            Ok(bytes) => challenge_acceptance(*challenge) == Ok::<
                Seq<u8>,
                SubmissionErrorModel,
            >(bytes@) && base64url_encoded(bytes@) == challenge.challenge@,
            Err(e) => challenge_acceptance(*challenge) == Err::<Seq<u8>, SubmissionErrorModel>(
                e@,
            ),
        },
{
    if challenge.protocol_version != DRAFT_PROTOCOL_VERSION.to_owned() {
        return Err(
            SubmissionError::UnsupportedProtocol { offered: challenge.protocol_version.clone() },
        );
    }
    match decode_base64url(challenge.challenge.as_str()) {
        Ok(bytes) => Ok(bytes),
        Err(_) => Err(SubmissionError::InvalidChallengeEncoding),
    }
}

/// The digest of the executable named in the evidence: SHA-256, in unpadded
/// URL-safe base64.
pub fn executable_digest(executable: &[u8]) -> (digest: String)
    ensures
        digest@ == base64url_encoded(sha256_of(executable@)),
{
    let raw = sha256_digest(executable);
    encode_base64url(raw.as_slice())
}

/// The text claims of the demo evidence.
pub open spec fn demo_claim_texts(os: Seq<char>, architecture: Seq<char>, executable: Seq<u8>) -> Map<
    Seq<char>,
    Seq<char>,
> {
    Map::empty().insert("os"@, os).insert("architecture"@, architecture).insert(
        "executableSha256"@,
        base64url_encoded(sha256_of(executable)),
    )
}

/// The integer claims of the demo evidence.
pub open spec fn demo_claim_integers(process_id: u32, executable_size: u64) -> Map<
    Seq<char>,
    u64,
> {
    Map::empty().insert("processId"@, process_id as u64).insert("executableSize"@, executable_size)
}

/// The keys of the demo evidence's claims.
pub open spec fn demo_claim_keys() -> Set<Seq<char>> {
    set!["os"@, "architecture"@, "processId"@, "executableSize"@, "executableSha256"@]
}

/// The claims `claims` are those the demo evidence makes of `host`.
pub open spec fn demo_claims_of(
    claims: serde_json::Map<String, serde_json::Value>,
    host: HostObservation,
) -> bool {
    &&& json_object_keys(claims) == demo_claim_keys()
    &&& json_object_texts(claims) == demo_claim_texts(
        host.os@,
        host.architecture@,
        host.executable@,
    )
    &&& json_object_integers(claims) == demo_claim_integers(
        host.process_id,
        host.executable_size,
    )
}

/// The claims the demo evidence makes about its host: its operating system,
/// architecture, process id, and the size and SHA-256 digest of its
/// executable.
pub fn demo_claims(
    os: &str,
    architecture: &str,
    process_id: u32,
    executable_size: u64,
    executable: &[u8],
) -> (claims: serde_json::Map<String, serde_json::Value>)
    ensures
        json_object_keys(claims) == demo_claim_keys(),
        json_object_texts(claims) == demo_claim_texts(os@, architecture@, executable@),
        json_object_integers(claims) == demo_claim_integers(process_id, executable_size),
{
    let mut claims = empty_json_object();
    let ghost t0 = json_object_texts(claims);
    let ghost n0 = json_object_integers(claims);
    json_insert_text(&mut claims, "os", os);
    json_insert_text(&mut claims, "architecture", architecture);
    json_insert_integer(&mut claims, "processId", process_id as u64);
    json_insert_integer(&mut claims, "executableSize", executable_size);
    let digest = executable_digest(executable);
    json_insert_text(&mut claims, "executableSha256", digest.as_str());
    proof {
        reveal_strlit("os");
        reveal_strlit("architecture");
        reveal_strlit("processId");
        reveal_strlit("executableSize");
        reveal_strlit("executableSha256");
        assert(t0 =~= Map::<Seq<char>, Seq<char>>::empty());
        assert(n0 =~= Map::<Seq<char>, u64>::empty());
        assert("processId"@.len() != "os"@.len());
        assert("processId"@.len() != "architecture"@.len());
        assert("executableSize"@.len() != "os"@.len());
        assert("executableSize"@.len() != "architecture"@.len());
        assert("executableSha256"@.len() != "processId"@.len());
        assert("executableSha256"@.len() != "executableSize"@.len());
        assert(json_object_keys(claims) =~= demo_claim_keys());
        assert(json_object_texts(claims) =~= demo_claim_texts(os@, architecture@, executable@));
        assert(json_object_integers(claims) =~= demo_claim_integers(process_id, executable_size));
    }
    claims
}

/// What `draft_proof` decides: the protocol version, then the challenge's
/// encoding, then the checks of the builder on the parts that come from
/// outside (the proof id and subject are never blank, and the rest of the
/// demo proof is fixed and always passes).
pub open spec fn demo_outcome(challenge: ChallengeResponse, host: HostObservation) -> Result<
    (),
    SubmissionErrorModel,
> {
    match challenge_acceptance(challenge) {
        Err(e) => Err(e),
        Ok(c) => if !(MIN_CHALLENGE_BYTES <= c.len() <= MAX_CHALLENGE_BYTES) {
            Err(
                SubmissionErrorModel::Proof(
                    BuildErrorModel::InvalidChallengeLength {
                        actual: c.len() as usize,
                        min: MIN_CHALLENGE_BYTES,
                        max: MAX_CHALLENGE_BYTES,
                    },
                ),
            )
        } else if is_blank_text(challenge.profile@) {
            Err(SubmissionErrorModel::Proof(BuildErrorModel::EmptyProfile))
        } else if is_blank_text(host.issued_at@) || is_blank_text(challenge.expires_at@) {
            Err(SubmissionErrorModel::Proof(BuildErrorModel::MissingTimeBounds))
        } else {
            Ok(())
        },
    }
}

/// `record` is the demo evidence record for what was observed in `host`.
pub open spec fn demo_record(record: EvidenceRecord, host: HostObservation) -> bool {
    &&& record.id@ == "demo-runtime-summary"@
    &&& record.kind@ == "parc.demo.runtime.summary"@
    &&& record.producer.id@ == "parc-attester"@
    &&& record.producer.boundary@ == "ordinary-host-process"@
    &&& record.producer.mediation matches Some(m) && m@ == "standard-library-and-host-os"@
    &&& record.status == EvidenceStatus::Present
    &&& record.observed_at == Some(host.observed_at)
    &&& record.digest is None
    &&& demo_claims_of(record.claims, host)
    &&& record.dependencies@.len() == 0
    &&& record.limitations@.len() == 3
    &&& record.limitations@[0]@ == "self-reported-host-observation"@
    &&& record.limitations@[1]@ == "not-android-hardware-attestation"@
    &&& record.limitations@[2]@ == "not-a-device-integrity-verdict"@
}

/// `event` is the demo continuity event `id`, numbered `sequence`.
pub open spec fn demo_event_is(event: ContinuityEvent, id: Seq<char>, sequence: u64) -> bool {
    &&& event.id@ == id
    &&& event.kind@ == id
    &&& event.asserted_by@ == "parc-attester"@
    &&& event.sequence == Some(sequence)
}

/// `edge` is the demo continuity edge from `before` to `after`.
pub open spec fn demo_edge_is(edge: ContinuityEdge, before: Seq<char>, after: Seq<char>) -> bool {
    &&& edge.before@ == before
    &&& edge.after@ == after
    &&& edge.maximum_interval_ms is None
}

/// `continuity` is the demo order: challenge received, then evidence
/// collected, then proof signed.
pub open spec fn demo_order(continuity: Continuity) -> bool {
    &&& continuity.events@.len() == 3
    &&& demo_event_is(continuity.events@[0], "challenge-received"@, 1)
    &&& demo_event_is(continuity.events@[1], "evidence-collected"@, 2)
    &&& demo_event_is(continuity.events@[2], "proof-signed"@, 3)
    &&& continuity.edges@.len() == 2
    &&& demo_edge_is(continuity.edges@[0], "challenge-received"@, "evidence-collected"@)
    &&& demo_edge_is(continuity.edges@[1], "evidence-collected"@, "proof-signed"@)
}

/// The demo envelope `env` answers `challenge` for the key `secret` with
/// what was observed in `host`.
pub open spec fn demo_envelope(
    env: ProofEnvelope,
    challenge: ChallengeResponse,
    host: HostObservation,
    secret: Seq<u8>,
) -> bool {
    &&& env.protocol_version@ == DRAFT_PROTOCOL_VERSION@
    &&& env.profile@ == challenge.profile@
    &&& env.proof_id@ == base64url_encoded(host.proof_id@)
    &&& env.challenge@ == challenge.challenge@
    &&& env.issued_at@ == host.issued_at@
    &&& env.expires_at@ == challenge.expires_at@
    &&& env.subject.subject_type == SubjectType::Pairwise
    &&& env.subject.value@ == key_subject(secret)
    &&& env.application.package_name matches Some(name) && name@
        == "org.nullweave.parc.demo.cli"@
    &&& env.application.version_code == Some(1u64)
    &&& env.application.signing_certificate_sha256 is None
    &&& env.application.build_id == Some(host.build_id)
    &&& env.application.binding_strength == BindingStrength::SelfAsserted
    &&& env.capabilities@.len() == 1
    &&& env.capabilities@[0].name@ == "parc.demo.ed25519"@
    &&& env.capabilities@[0].status == CapabilityStatus::Available
    &&& env.capabilities@[0].reason is None
    &&& env.evidence@.len() == 1
    &&& demo_record(env.evidence@[0], host)
    &&& demo_order(env.continuity)
    &&& env.signing.format@ == "parc-demo-ed25519-v1"@
    &&& env.signing.algorithm@ == "Ed25519"@
    &&& env.signing.credential_refs@.len() == 0
    &&& json_object_keys(env.extensions) == Set::<Seq<char>>::empty()
}

fn demo_evidence(host: HostObservation) -> (record: EvidenceRecord)
    ensures
        demo_record(record, host),
{
    let claims = demo_claims(
        host.os.as_str(),
        host.architecture.as_str(),
        host.process_id,
        host.executable_size,
        host.executable.as_slice(),
    );
    EvidenceRecord {
        id: "demo-runtime-summary".to_owned(),
        kind: "parc.demo.runtime.summary".to_owned(),
        producer: Producer {
            id: "parc-attester".to_owned(),
            boundary: "ordinary-host-process".to_owned(),
            mediation: Some("standard-library-and-host-os".to_owned()),
        },
        status: EvidenceStatus::Present,
        observed_at: Some(host.observed_at),
        digest: None,
        claims,
        dependencies: Vec::new(),
        limitations: vec![
            "self-reported-host-observation".to_owned(),
            "not-android-hardware-attestation".to_owned(),
            "not-a-device-integrity-verdict".to_owned(),
        ],
    }
}

fn demo_event(id: &str, sequence: u64) -> (event: ContinuityEvent)
    ensures
        demo_event_is(event, id@, sequence),
{
    ContinuityEvent {
        id: id.to_owned(),
        kind: id.to_owned(),
        asserted_by: "parc-attester".to_owned(),
        sequence: Some(sequence),
    }
}

fn demo_edge(before: &str, after: &str) -> (edge: ContinuityEdge)
    ensures
        demo_edge_is(edge, before@, after@),
{
    ContinuityEdge {
        before: before.to_owned(),
        after: after.to_owned(),
        maximum_interval_ms: None,
    }
}

/// Challenge received, then evidence collected, then proof signed.
fn demo_continuity() -> (continuity: Continuity)
    ensures
        demo_order(continuity),
        continuity_outcome(continuity) is Ok,
{
    let continuity = Continuity {
        events: vec![
            demo_event("challenge-received", 1),
            demo_event("evidence-collected", 2),
            demo_event("proof-signed", 3),
        ],
        edges: vec![
            demo_edge("challenge-received", "evidence-collected"),
            demo_edge("evidence-collected", "proof-signed"),
        ],
    };
    proof {
        reveal_strlit("challenge-received");
        reveal_strlit("evidence-collected");
        reveal_strlit("proof-signed");
        let c = continuity;
        let s = event_ids(c);
        let es = c.edges@;
        assert(s[0] == "challenge-received"@);
        assert(s[1] == "evidence-collected"@);
        assert(s[2] == "proof-signed"@);
        assert(s[0][0] != s[1][0]);
        assert(s[0] != s[1]);
        assert(s[0].len() != s[2].len());
        assert(s[1].len() != s[2].len());
        assert(!repeats_earlier(s, 0));
        assert(!repeats_earlier(s, 1));
        assert(!repeats_earlier(s, 2));
        assert(first_repeat(s, 0) is None);
        assert(first_repeat(s, 1) is None);
        assert(first_repeat(s, 2) is None);
        assert(first_repeat(s, 3) is None);
        assert(s.contains(es[0].before@));
        assert(s.contains(es[0].after@));
        assert(s.contains(es[1].before@));
        assert(s.contains(es[1].after@));
        assert(first_dangling_endpoint(s, es, 0) is None);
        assert(first_dangling_endpoint(s, es, 1) is None);
        assert(first_dangling_endpoint(s, es, 2) is None);
        assert forall|u: int, v: int| #[trigger] continuity_edges(c)(u, v) implies u < v by {
            let i = choose|i: int|
                0 <= i < es.len() && #[trigger] es[i].before@ == s[u] && es[i].after@ == s[v];
            if i == 0 {
                assert(u == 0);
                assert(v == 1);
            } else {
                assert(u == 1);
                assert(v == 2);
            }
        }
        lemma_forward_edges_acyclic(continuity_edges(c));
    }
    continuity
}

/// The demo proof the client asserts for `challenge`: its profile, challenge
/// and expiry come from the verifier, the subject from the key, and the
/// evidence from what was observed of the host. It succeeds exactly when
/// `demo_outcome` is `Ok`, and then every field of the envelope is fixed by
/// `demo_envelope`.
pub fn draft_proof(
    challenge: &ChallengeResponse,
    secret: &[u8],
    host: HostObservation,
) -> (res: Result<ProofEnvelope, SubmissionError>)
    requires
        secret@.len() == 32,
    ensures
        match res {
            Ok(env) => demo_outcome(*challenge, host) is Ok && demo_envelope(
                env,
                *challenge,
                host,
                secret@,
            ) && envelope_outcome(env) is Ok,
            Err(e) => demo_outcome(*challenge, host) == Err::<(), SubmissionErrorModel>(e@),
        },
{
    let ghost h = host;
    let bytes = accept_challenge(challenge)?;
    let proof_id = encode_base64url(host.proof_id.as_slice());
    proof {
        lemma_base64url_not_blank(proof_id@);
    }
    let subject = subject_from_key(secret);
    let issued_at = host.issued_at.clone();
    let build_id = host.build_id.clone();
    let evidence = demo_evidence(host);
    let continuity = demo_continuity();
    let signing = SigningMetadata {
        format: "parc-demo-ed25519-v1".to_owned(),
        algorithm: "Ed25519".to_owned(),
        credential_refs: Vec::new(),
    };
    let ghost record = evidence;
    let ghost cont = continuity;
    let builder = ProofBuilder::new().profile(challenge.profile.as_str()).proof_id(
        proof_id.as_str(),
    ).challenge(bytes).time_bounds(issued_at.as_str(), challenge.expires_at.as_str()).subject(
        Subject { subject_type: SubjectType::Pairwise, value: subject },
    ).application(
        ApplicationBinding {
            package_name: Some("org.nullweave.parc.demo.cli".to_owned()),
            version_code: Some(1),
            signing_certificate_sha256: None,
            build_id: Some(build_id),
            binding_strength: BindingStrength::SelfAsserted,
        },
    ).capability(
        Capability {
            name: "parc.demo.ed25519".to_owned(),
            status: CapabilityStatus::Available,
            reason: None,
        },
    ).evidence(evidence).continuity(continuity).signing(signing);
    proof {
        let m = builder@;
        reveal_strlit("parc-demo-ed25519-v1");
        reveal_strlit("Ed25519");
        assert(m.evidence =~= seq![record]);
        assert(!is_blank_text(m.signing.unwrap().format@)) by {
            assert(m.signing.unwrap().format@[0] == 'p');
            assert(!is_white_space(m.signing.unwrap().format@[0]));
        }
        assert(!is_blank_text(m.signing.unwrap().algorithm@)) by {
            assert(m.signing.unwrap().algorithm@[0] == 'E');
            assert(!is_white_space(m.signing.unwrap().algorithm@[0]));
        }
        let ids = evidence_ids(m.evidence);
        assert(!repeats_earlier(ids, 0));
        assert(first_repeat(ids, 0) is None);
        assert(first_repeat(ids, 1) is None);
        assert(dependencies_of(m.evidence[0]).len() == 0);
        assert(first_absent(ids, dependencies_of(m.evidence[0]), 0) is None);
        assert(first_missing_dependency(m.evidence, ids, 0) is None);
        assert(first_missing_dependency(m.evidence, ids, 1) is None);
        assert(!has_cycle(evidence_edges(m.evidence))) by {
            if has_cycle(evidence_edges(m.evidence)) {
                let p = choose|p: Seq<int>| #[trigger] is_cycle(evidence_edges(m.evidence), p);
                assert(evidence_edges(m.evidence)(p[0], p[1]));
            }
        }
        assert(evidence_outcome(m.evidence) is Ok);
        assert(m.continuity == cont);
    }
    match builder.build() {
        Ok(env) => Ok(env),
        Err(e) => Err(SubmissionError::Proof(e)),
    }
}

} // verus!
