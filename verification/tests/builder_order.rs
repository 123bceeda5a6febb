use parc_proof::{
    ApplicationBinding, BindingStrength, BuildError, Capability, CapabilityStatus, Continuity,
    ProofBuilder, SigningMetadata, Subject, SubjectType, DRAFT_PROTOCOL_VERSION,
    MAX_CHALLENGE_BYTES, MIN_CHALLENGE_BYTES,
};

fn signing() -> SigningMetadata {
    SigningMetadata {
        format: "fmt".into(),
        algorithm: "alg".into(),
        credential_refs: vec!["cred".into()],
    }
}

fn subject(value: &str) -> Subject {
    Subject {
        subject_type: SubjectType::Rotating,
        value: value.into(),
    }
}

fn complete() -> ProofBuilder {
    ProofBuilder::new()
        .profile("profile")
        .proof_id("id")
        .challenge(vec![1; MIN_CHALLENGE_BYTES])
        .time_bounds("t0", "t1")
        .subject(subject("s"))
        .signing(signing())
}

#[test]
fn build_without_challenge_reports_length_zero() {
    let error = ProofBuilder::new().build().expect_err("nothing given");
    assert_eq!(
        error,
        BuildError::InvalidChallengeLength {
            actual: 0,
            min: MIN_CHALLENGE_BYTES,
            max: MAX_CHALLENGE_BYTES,
        }
    );
}

#[test]
fn long_challenge_is_rejected() {
    let error = complete()
        .challenge(vec![0; MAX_CHALLENGE_BYTES + 1])
        .build()
        .expect_err("too long");
    assert_eq!(
        error,
        BuildError::InvalidChallengeLength {
            actual: 385,
            min: 16,
            max: 384,
        }
    );
    assert!(complete().challenge(vec![0; MAX_CHALLENGE_BYTES]).build().is_ok());
}

#[test]
fn missing_parts_are_reported_in_order() {
    let base = || ProofBuilder::new().challenge(vec![1; MIN_CHALLENGE_BYTES]);
    assert_eq!(base().build().unwrap_err(), BuildError::EmptyProfile);
    assert_eq!(base().profile("p").build().unwrap_err(), BuildError::EmptyProofId);
    assert_eq!(
        base().profile("p").proof_id("i").build().unwrap_err(),
        BuildError::MissingTimeBounds
    );
    assert_eq!(
        base().profile("p").proof_id("i").time_bounds("a", "b").build().unwrap_err(),
        BuildError::EmptySubject
    );
    assert_eq!(
        base()
            .profile("p")
            .proof_id("i")
            .time_bounds("a", "b")
            .subject(subject("s"))
            .build()
            .unwrap_err(),
        BuildError::MissingSigningMetadata
    );
}

#[test]
fn absent_parts_are_reported_before_blank_ones() {
    // the proof id is blank, but the time bounds are missing altogether
    let error = ProofBuilder::new()
        .challenge(vec![1; MIN_CHALLENGE_BYTES])
        .profile("p")
        .proof_id("  ")
        .subject(subject("s"))
        .signing(signing())
        .build()
        .unwrap_err();
    assert_eq!(error, BuildError::MissingTimeBounds);
    let error = complete().subject(subject(" ")).proof_id(" ").build().unwrap_err();
    assert_eq!(error, BuildError::EmptyProofId);
}

#[test]
fn build_copies_every_part() {
    let proof = complete()
        .application(ApplicationBinding {
            package_name: Some("pkg".into()),
            version_code: Some(7),
            signing_certificate_sha256: None,
            build_id: None,
            binding_strength: BindingStrength::Measured,
        })
        .capability(Capability {
            name: "first".into(),
            status: CapabilityStatus::Available,
            reason: None,
        })
        .capability(Capability {
            name: "second".into(),
            status: CapabilityStatus::Withheld,
            reason: Some("policy".into()),
        })
        .continuity(Continuity::default())
        .build()
        .expect("valid");
    assert_eq!(proof.protocol_version, DRAFT_PROTOCOL_VERSION);
    assert_eq!(proof.profile, "profile");
    assert_eq!(proof.proof_id, "id");
    assert_eq!(proof.challenge, "AQEBAQEBAQEBAQEBAQEBAQ");
    assert_eq!(proof.issued_at, "t0");
    assert_eq!(proof.expires_at, "t1");
    assert_eq!(proof.subject, subject("s"));
    assert_eq!(proof.application.version_code, Some(7));
    assert_eq!(proof.application.binding_strength, BindingStrength::Measured);
    assert_eq!(proof.capabilities.len(), 2);
    assert_eq!(proof.capabilities[0].name, "first");
    assert_eq!(proof.capabilities[1].name, "second");
    assert_eq!(proof.signing, signing());
    assert!(proof.extensions.is_empty());
    assert_eq!(proof.validate(), Ok(()));
}

#[test]
fn later_setters_replace_earlier_values() {
    let proof = complete().profile("first").profile("second").build().expect("valid");
    assert_eq!(proof.profile, "second");
}

#[test]
fn defaults() {
    let binding = ApplicationBinding::default();
    assert_eq!(binding.binding_strength, BindingStrength::SelfAsserted);
    assert_eq!(binding.package_name, None);
    assert_eq!(BindingStrength::default(), BindingStrength::SelfAsserted);
    let continuity = Continuity::default();
    assert!(continuity.events.is_empty() && continuity.edges.is_empty());
}
