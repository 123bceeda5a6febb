use base64::{engine::general_purpose::URL_SAFE_NO_PAD, Engine as _};
use ed25519_dalek::{Signature, SigningKey, Verifier as _};
use parc_proof::client::{
    accept_challenge, demo_claims, executable_digest, accepts_verdict, decode_fixed, draft_proof, endpoint, key_from_stored, seal_submission,
    stored_key_for, subject_from_key, ChallengeResponse, HostObservation, KeyFileError,
    StoredKey, SubmissionError,
};
use parc_proof::{BuildError, SubjectType, DRAFT_PROTOCOL_VERSION};
use sha2::{Digest as _, Sha256};

const SECRET: [u8; 32] = [9; 32];

fn challenge(bytes: &[u8]) -> ChallengeResponse {
    ChallengeResponse {
        challenge_id: "challenge-1".into(),
        challenge: URL_SAFE_NO_PAD.encode(bytes),
        protocol_version: DRAFT_PROTOCOL_VERSION.into(),
        profile: "parc.basic.application".into(),
        expires_at: "2026-08-03T08:05:00Z".into(),
    }
}

fn host() -> HostObservation {
    HostObservation {
        issued_at: "2026-08-03T08:00:00Z".into(),
        observed_at: "2026-08-03T08:00:01Z".into(),
        proof_id: [3; 18],
        build_id: "0.1.0".into(),
        os: "linux".into(),
        architecture: "x86_64".into(),
        process_id: 4242,
        executable_size: 5,
        executable: b"hello".to_vec(),
    }
}

#[test]
fn endpoint_trims_trailing_slashes() {
    assert_eq!(endpoint("http://127.0.0.1:8787//", "/v1/verify"), "http://127.0.0.1:8787/v1/verify");
    assert_eq!(endpoint("http://h", "/v1/challenges"), "http://h/v1/challenges");
    assert_eq!(endpoint("///", "/x"), "/x");
}

#[test]
fn only_pass_is_accepted() {
    assert!(accepts_verdict(Some("pass")));
    assert!(!accepts_verdict(Some("replayed")));
    assert!(!accepts_verdict(Some("Pass")));
    assert!(!accepts_verdict(None));
}

#[test]
fn decode_fixed_checks_encoding_and_length() {
    assert_eq!(decode_fixed("AQID", "field", 3), Ok(vec![1, 2, 3]));
    assert_eq!(
        decode_fixed("AQID", "field", 32),
        Err(KeyFileError::WrongLength {
            name: "field".into(),
            expected: 32,
            actual: 3,
        })
    );
    assert_eq!(
        decode_fixed("AQ=D", "field", 3),
        Err(KeyFileError::NotBase64Url { name: "field".into() })
    );
}

#[test]
fn stored_key_reads_back() {
    let stored = stored_key_for(&SECRET);
    assert_eq!(stored.version, 1);
    let public = SigningKey::from_bytes(&SECRET).verifying_key().to_bytes();
    assert_eq!(stored.public_key, URL_SAFE_NO_PAD.encode(public));
    assert_eq!(stored.secret_key, URL_SAFE_NO_PAD.encode(SECRET));
    assert_eq!(key_from_stored(&stored), Ok(SECRET.to_vec()));
}

#[test]
fn stored_key_checks() {
    let good = stored_key_for(&SECRET);
    let mut wrong_version = good.clone();
    wrong_version.version = 2;
    assert_eq!(key_from_stored(&wrong_version), Err(KeyFileError::UnsupportedVersion(2)));
    let mut other_public = good.clone();
    other_public.public_key = stored_key_for(&[1; 32]).public_key;
    assert_eq!(key_from_stored(&other_public), Err(KeyFileError::PublicKeyMismatch));
    let short = StoredKey {
        version: 1,
        secret_key: URL_SAFE_NO_PAD.encode([1; 16]),
        public_key: good.public_key.clone(),
    };
    assert_eq!(
        key_from_stored(&short),
        Err(KeyFileError::WrongLength {
            name: "secretKey".into(),
            expected: 32,
            actual: 16,
        })
    );
}

#[test]
fn subject_is_truncated_public_key_digest() {
    let public = SigningKey::from_bytes(&SECRET).verifying_key().to_bytes();
    let digest = Sha256::digest(public);
    assert_eq!(subject_from_key(&SECRET), URL_SAFE_NO_PAD.encode(&digest[..16]));
    assert_eq!(subject_from_key(&SECRET).len(), 22);
}

#[test]
fn sealed_submission_carries_a_valid_signature() {
    let payload = b"{\"proof\":1}".to_vec();
    let submission = seal_submission("challenge-7", &payload, &SECRET);
    assert_eq!(submission.challenge_id, "challenge-7");
    assert_eq!(submission.algorithm, "Ed25519");
    assert_eq!(URL_SAFE_NO_PAD.decode(&submission.payload).unwrap(), payload);
    let key = SigningKey::from_bytes(&SECRET);
    assert_eq!(submission.public_key, URL_SAFE_NO_PAD.encode(key.verifying_key().to_bytes()));
    let signature: [u8; 64] = URL_SAFE_NO_PAD
        .decode(&submission.signature)
        .unwrap()
        .try_into()
        .unwrap();
    key.verifying_key()
        .verify(&payload, &Signature::from_bytes(&signature))
        .unwrap();
}

#[test]
fn draft_proof_answers_the_challenge() {
    let proof = draft_proof(&challenge(&[7; 32]), &SECRET, host()).expect("valid");
    assert_eq!(proof.protocol_version, DRAFT_PROTOCOL_VERSION);
    assert_eq!(proof.profile, "parc.basic.application");
    assert_eq!(URL_SAFE_NO_PAD.decode(&proof.challenge).unwrap(), vec![7; 32]);
    assert_eq!(proof.proof_id, URL_SAFE_NO_PAD.encode([3; 18]));
    assert_eq!(proof.subject.subject_type, SubjectType::Pairwise);
    assert_eq!(proof.subject.value, subject_from_key(&SECRET));
    assert_eq!(proof.evidence.len(), 1);
    assert_eq!(proof.evidence[0].observed_at.as_deref(), Some("2026-08-03T08:00:01Z"));
    let claims = &proof.evidence[0].claims;
    assert_eq!(claims.len(), 5);
    assert_eq!(claims["os"], serde_json::Value::String("linux".into()));
    assert_eq!(claims["architecture"], serde_json::Value::String("x86_64".into()));
    assert_eq!(claims["processId"], serde_json::Value::from(4242u64));
    assert_eq!(claims["executableSize"], serde_json::Value::from(5u64));
    assert_eq!(
        claims["executableSha256"],
        serde_json::Value::String(URL_SAFE_NO_PAD.encode(Sha256::digest(b"hello")))
    );
    assert_eq!(proof.evidence[0].producer.boundary, "ordinary-host-process");
    assert_eq!(proof.evidence[0].limitations[0], "self-reported-host-observation");
    assert_eq!(proof.continuity.events[2].sequence, Some(3));
    assert_eq!(proof.challenge, challenge(&[7; 32]).challenge);
    assert!(proof.extensions.is_empty());
    assert_eq!(proof.continuity.events.len(), 3);
    assert_eq!(proof.continuity.edges.len(), 2);
    assert_eq!(proof.signing.algorithm, "Ed25519");
    assert_eq!(proof.application.build_id.as_deref(), Some("0.1.0"));
    assert_eq!(proof.validate(), Ok(()));
}

#[test]
fn draft_proof_refusals() {
    let mut old = challenge(&[7; 32]);
    old.protocol_version = "0.0".into();
    assert_eq!(
        draft_proof(&old, &SECRET, host()).unwrap_err(),
        SubmissionError::UnsupportedProtocol { offered: "0.0".into() }
    );
    let mut padded = challenge(&[7; 32]);
    padded.challenge.push('=');
    assert_eq!(
        draft_proof(&padded, &SECRET, host()).unwrap_err(),
        SubmissionError::InvalidChallengeEncoding
    );
    assert_eq!(
        draft_proof(&challenge(&[7; 8]), &SECRET, host()).unwrap_err(),
        SubmissionError::Proof(BuildError::InvalidChallengeLength {
            actual: 8,
            min: 16,
            max: 384,
        })
    );
    let mut blank_expiry = challenge(&[7; 32]);
    blank_expiry.expires_at = " ".into();
    assert_eq!(
        draft_proof(&blank_expiry, &SECRET, host()).unwrap_err(),
        SubmissionError::Proof(BuildError::MissingTimeBounds)
    );
}

#[test]
fn executable_digest_is_base64url_sha256() {
    assert_eq!(executable_digest(b""), "47DEQpj8HBSa-_TImW-5JCeuQeRkm5NMpJWZG3hSuFU");
    assert_eq!(executable_digest(b"hello"), URL_SAFE_NO_PAD.encode(Sha256::digest(b"hello")));
}

#[test]
fn demo_claims_hold_the_observations() {
    let claims = demo_claims("macos", "aarch64", 7, 3, b"abc");
    assert_eq!(claims.len(), 5);
    assert_eq!(claims["os"], serde_json::Value::String("macos".into()));
    assert_eq!(claims["architecture"], serde_json::Value::String("aarch64".into()));
    assert_eq!(claims["processId"], serde_json::Value::from(7u64));
    assert_eq!(claims["executableSize"], serde_json::Value::from(3u64));
    assert_eq!(
        claims["executableSha256"],
        serde_json::Value::String("ungWv48Bz-pBQUDeXa4iI7ADYaOWF3qctBD_YfIAFa0".into())
    );
}

#[test]
fn accept_challenge_checks_version_then_encoding() {
    assert_eq!(accept_challenge(&challenge(&[1, 2, 3])), Ok(vec![1, 2, 3]));
    let mut both = challenge(&[1]);
    both.protocol_version = "9".into();
    both.challenge = "!".into();
    assert_eq!(
        accept_challenge(&both),
        Err(SubmissionError::UnsupportedProtocol { offered: "9".into() })
    );
    let mut bad = challenge(&[1]);
    bad.challenge = "AR".into();
    assert_eq!(accept_challenge(&bad), Err(SubmissionError::InvalidChallengeEncoding));
}
