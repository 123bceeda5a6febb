use parc_proof::{
    is_acyclic, validate_continuity, validate_evidence, ApplicationBinding, BuildError,
    Continuity, ContinuityEdge, ContinuityEvent, EvidenceRecord, EvidenceStatus, Producer,
    ProofEnvelope, SigningMetadata, Subject, SubjectType,
};

fn record(id: &str, dependencies: &[&str]) -> EvidenceRecord {
    EvidenceRecord {
        id: id.into(),
        kind: "parc.test".into(),
        producer: Producer {
            id: "test".into(),
            boundary: "test".into(),
            mediation: None,
        },
        status: EvidenceStatus::Present,
        observed_at: None,
        digest: None,
        claims: serde_json::Map::new(),
        dependencies: dependencies.iter().map(|value| (*value).into()).collect(),
        limitations: vec![],
    }
}

fn event(id: &str) -> ContinuityEvent {
    ContinuityEvent {
        id: id.into(),
        kind: "test".into(),
        asserted_by: "test".into(),
        sequence: None,
    }
}

fn edge(before: &str, after: &str) -> ContinuityEdge {
    ContinuityEdge {
        before: before.into(),
        after: after.into(),
        maximum_interval_ms: None,
    }
}

fn envelope() -> ProofEnvelope {
    ProofEnvelope {
        protocol_version: "0.1-draft".into(),
        profile: "parc.basic.application".into(),
        proof_id: "proof-1".into(),
        // sixteen 0xA5 bytes
        challenge: "paWlpaWlpaWlpaWlpaWlpQ".into(),
        issued_at: "2026-08-03T08:00:00Z".into(),
        expires_at: "2026-08-03T08:05:00Z".into(),
        subject: Subject {
            subject_type: SubjectType::Stable,
            value: "subject".into(),
        },
        application: ApplicationBinding::default(),
        capabilities: vec![],
        evidence: vec![],
        continuity: Continuity::default(),
        signing: SigningMetadata {
            format: "f".into(),
            algorithm: "a".into(),
            credential_refs: vec![],
        },
        extensions: serde_json::Map::new(),
    }
}

#[test]
fn accepts_evidence_chain() {
    let records = vec![record("e1", &[]), record("e2", &["e1"]), record("e3", &["e1", "e2"])];
    assert_eq!(validate_evidence(&records), Ok(()));
    assert_eq!(validate_evidence(&[]), Ok(()));
}

#[test]
fn rejects_first_duplicate_evidence_id() {
    let records = vec![record("a", &[]), record("b", &[]), record("b", &[]), record("a", &[])];
    assert_eq!(validate_evidence(&records), Err(BuildError::DuplicateEvidenceId("b".into())));
}

#[test]
fn duplicate_evidence_is_reported_before_missing_dependency() {
    let records = vec![record("e1", &["zz"]), record("e1", &[])];
    assert_eq!(validate_evidence(&records), Err(BuildError::DuplicateEvidenceId("e1".into())));
}

#[test]
fn rejects_first_missing_dependency() {
    let records = vec![record("e1", &[]), record("e2", &["e1", "x", "y"]), record("e3", &["z"])];
    assert_eq!(
        validate_evidence(&records),
        Err(BuildError::MissingEvidenceDependency {
            record: "e2".into(),
            dependency: "x".into(),
        })
    );
}

#[test]
fn rejects_self_dependency() {
    let records = vec![record("e1", &["e1"])];
    assert_eq!(validate_evidence(&records), Err(BuildError::CyclicEvidenceDependencies));
}

#[test]
fn repeated_dependency_is_not_a_cycle() {
    let records = vec![record("e1", &[]), record("e2", &["e1", "e1"])];
    assert_eq!(validate_evidence(&records), Ok(()));
}

#[test]
fn accepts_continuity_chain() {
    let continuity = Continuity {
        events: vec![event("a"), event("b"), event("c")],
        edges: vec![edge("a", "b"), edge("b", "c"), edge("a", "c")],
    };
    assert_eq!(validate_continuity(&continuity), Ok(()));
    assert_eq!(validate_continuity(&Continuity::default()), Ok(()));
}

#[test]
fn rejects_duplicate_continuity_event() {
    let continuity = Continuity {
        events: vec![event("a"), event("a")],
        edges: vec![edge("x", "y")],
    };
    assert_eq!(
        validate_continuity(&continuity),
        Err(BuildError::DuplicateContinuityEvent("a".into()))
    );
}

#[test]
fn reports_missing_before_then_missing_after() {
    let continuity = Continuity {
        events: vec![event("a")],
        edges: vec![edge("x", "y")],
    };
    assert_eq!(
        validate_continuity(&continuity),
        Err(BuildError::MissingContinuityEvent("x".into()))
    );
    let continuity = Continuity {
        events: vec![event("a")],
        edges: vec![edge("a", "a"), edge("a", "y")],
    };
    assert_eq!(
        validate_continuity(&continuity),
        Err(BuildError::MissingContinuityEvent("y".into()))
    );
}

#[test]
fn rejects_continuity_self_loop() {
    let continuity = Continuity {
        events: vec![event("a"), event("b")],
        edges: vec![edge("a", "b"), edge("b", "b")],
    };
    assert_eq!(validate_continuity(&continuity), Err(BuildError::CyclicContinuity));
}

#[test]
fn is_acyclic_on_a_diamond_clears_every_count() {
    let successors = vec![vec![1, 2], vec![3], vec![3], vec![]];
    let mut indegree = vec![0, 1, 1, 2];
    assert!(is_acyclic(&mut indegree, &successors));
    assert_eq!(indegree, vec![0, 0, 0, 0]);
}

#[test]
fn is_acyclic_on_a_cycle_leaves_counts() {
    // 0 -> 1 -> 2 -> 1, and 2 -> 3
    let successors = vec![vec![1], vec![2], vec![1, 3], vec![]];
    let mut indegree = vec![0, 2, 1, 1];
    assert!(!is_acyclic(&mut indegree, &successors));
    assert_eq!(indegree, vec![0, 1, 1, 1]);
}

#[test]
fn valid_envelope_passes() {
    assert_eq!(envelope().validate(), Ok(()));
}

#[test]
fn blank_fields_are_rejected_in_order() {
    let mut e = envelope();
    e.profile = " \t\u{3000}".into();
    e.proof_id = "".into();
    assert_eq!(e.validate(), Err(BuildError::EmptyProfile));
    e.profile = "p".into();
    assert_eq!(e.validate(), Err(BuildError::EmptyProofId));
    e.proof_id = "id".into();
    e.subject.value = "\n".into();
    assert_eq!(e.validate(), Err(BuildError::EmptySubject));
    e.subject.value = " s ".into();
    e.expires_at = " ".into();
    assert_eq!(e.validate(), Err(BuildError::MissingTimeBounds));
    e.expires_at = "later".into();
    e.signing.algorithm = "\u{2003}".into();
    assert_eq!(e.validate(), Err(BuildError::MissingSigningMetadata));
}

#[test]
fn rejects_bad_challenge_encoding() {
    let mut e = envelope();
    e.challenge = "paWlpaWlpaWlpaWlpaWlpQ==".into();
    assert_eq!(e.validate(), Err(BuildError::InvalidChallengeEncoding));
    e.challenge = "paWl+aWlpaWlpaWlpaWlpQ".into();
    assert_eq!(e.validate(), Err(BuildError::InvalidChallengeEncoding));
}

#[test]
fn rejects_long_challenge() {
    let mut e = envelope();
    // 387 bytes of zeros
    e.challenge = "A".repeat(516);
    assert_eq!(
        e.validate(),
        Err(BuildError::InvalidChallengeLength {
            actual: 387,
            min: 16,
            max: 384,
        })
    );
}

#[test]
fn evidence_errors_come_before_continuity_errors() {
    let mut e = envelope();
    e.evidence = vec![record("e1", &["e1"])];
    e.continuity = Continuity {
        events: vec![event("a"), event("a")],
        edges: vec![],
    };
    assert_eq!(e.validate(), Err(BuildError::CyclicEvidenceDependencies));
    e.evidence = vec![];
    assert_eq!(e.validate(), Err(BuildError::DuplicateContinuityEvent("a".into())));
}

#[test]
fn error_messages() {
    assert_eq!(
        BuildError::InvalidChallengeLength {
            actual: 15,
            min: 16,
            max: 384,
        }
        .to_string(),
        "challenge length 15 is outside 16..=384 bytes"
    );
    assert_eq!(
        BuildError::InvalidChallengeLength {
            actual: 0,
            min: 16,
            max: 384,
        }
        .to_string(),
        "challenge length 0 is outside 16..=384 bytes"
    );
    assert_eq!(
        BuildError::MissingEvidenceDependency {
            record: "e2".into(),
            dependency: "x".into(),
        }
        .to_string(),
        "evidence e2 depends on missing evidence x"
    );
    assert_eq!(
        BuildError::DuplicateEvidenceId("e1".into()).to_string(),
        "duplicate evidence id: e1"
    );
    assert_eq!(
        BuildError::MissingContinuityEvent("y".into()).to_string(),
        "continuity edge references missing event: y"
    );
    assert_eq!(
        BuildError::CyclicContinuity.to_string(),
        "continuity graph contains a cycle"
    );
    assert_eq!(
        BuildError::Serialization("boom".into()).to_string(),
        "serialization failed: boom"
    );
    assert_eq!(
        BuildError::MissingTimeBounds.to_string(),
        "issuedAt and expiresAt must not be empty"
    );
}
