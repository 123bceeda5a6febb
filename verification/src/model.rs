//! The logical proof-envelope model of the PARC draft.

use vstd::prelude::*;

verus! {

/// Protocol version written into every envelope the builder makes.
pub const DRAFT_PROTOCOL_VERSION: &'static str = "0.1-draft";

/// Fewest challenge bytes an envelope may carry.
pub const MIN_CHALLENGE_BYTES: usize = 16;

/// Most challenge bytes an envelope may carry.
pub const MAX_CHALLENGE_BYTES: usize = 384;

/// A proof envelope: what is proved, for which challenge, by whom, with what
/// evidence and in what order of events.
#[derive(Debug, Clone, PartialEq)]
pub struct ProofEnvelope {
    pub protocol_version: String,
    pub profile: String,
    pub proof_id: String,
    /// The challenge bytes, unpadded URL-safe base64.
    pub challenge: String,
    pub issued_at: String,
    pub expires_at: String,
    pub subject: Subject,
    pub application: ApplicationBinding,
    pub capabilities: Vec<Capability>,
    pub evidence: Vec<EvidenceRecord>,
    pub continuity: Continuity,
    pub signing: SigningMetadata,
    pub extensions: serde_json::Map<String, serde_json::Value>,
}

#[derive(Debug, Clone, PartialEq, Eq)]
pub struct Subject {
    pub subject_type: SubjectType,
    pub value: String,
}

#[derive(Debug, Clone, Copy, PartialEq, Eq)]
pub enum SubjectType {
    Ephemeral,
    Pairwise,
    Rotating,
    Stable,
    Unspecified,
}

#[derive(Debug, Clone, PartialEq, Eq)]
pub struct ApplicationBinding {
    pub package_name: Option<String>,
    pub version_code: Option<u64>,
    pub signing_certificate_sha256: Option<String>,
    pub build_id: Option<String>,
    pub binding_strength: BindingStrength,
}

impl Default for ApplicationBinding {
    fn default() -> (binding: Self)
        ensures
            binding.package_name is None,
            binding.version_code is None,
            binding.signing_certificate_sha256 is None,
            binding.build_id is None,
            binding.binding_strength == BindingStrength::SelfAsserted,
    {
        ApplicationBinding {
            package_name: None,
            version_code: None,
            signing_certificate_sha256: None,
            build_id: None,
            binding_strength: BindingStrength::SelfAsserted,
        }
    }
}

#[derive(Debug, Clone, Copy, PartialEq, Eq)]
pub enum BindingStrength {
    SelfAsserted,
    Measured,
    CredentialBound,
}

impl Default for BindingStrength {
    fn default() -> (strength: Self)
        ensures
            strength == BindingStrength::SelfAsserted,
    {
        BindingStrength::SelfAsserted
    }
}

#[derive(Debug, Clone, PartialEq, Eq)]
pub struct Capability {
    pub name: String,
    pub status: CapabilityStatus,
    pub reason: Option<String>,
}

#[derive(Debug, Clone, Copy, PartialEq, Eq)]
pub enum CapabilityStatus {
    Available,
    Unsupported,
    Failed,
    Withheld,
}

/// One piece of evidence; `dependencies` names the ids of the evidence it
/// rests on.
#[derive(Debug, Clone, PartialEq)]
pub struct EvidenceRecord {
    pub id: String,
    pub kind: String,
    pub producer: Producer,
    pub status: EvidenceStatus,
    pub observed_at: Option<String>,
    pub digest: Option<Digest>,
    pub claims: serde_json::Map<String, serde_json::Value>,
    pub dependencies: Vec<String>,
    pub limitations: Vec<String>,
}

#[derive(Debug, Clone, PartialEq, Eq)]
pub struct Producer {
    pub id: String,
    pub boundary: String,
    pub mediation: Option<String>,
}

#[derive(Debug, Clone, Copy, PartialEq, Eq)]
pub enum EvidenceStatus {
    Present,
    Unsupported,
    Failed,
    Indeterminate,
    Withheld,
}

#[derive(Debug, Clone, PartialEq, Eq)]
pub struct Digest {
    pub algorithm: String,
    pub value: String,
}

/// Events and the order among them: each edge says `before` happened before
/// `after`.
#[derive(Debug, Clone, PartialEq, Eq)]
pub struct Continuity {
    pub events: Vec<ContinuityEvent>,
    pub edges: Vec<ContinuityEdge>,
}

impl Default for Continuity {
    fn default() -> (continuity: Self)
        ensures
            continuity.events@.len() == 0,
            continuity.edges@.len() == 0,
    {
        Continuity { events: Vec::new(), edges: Vec::new() }
    }
}

#[derive(Debug, Clone, PartialEq, Eq)]
pub struct ContinuityEvent {
    pub id: String,
    pub kind: String,
    pub asserted_by: String,
    pub sequence: Option<u64>,
}

#[derive(Debug, Clone, PartialEq, Eq)]
pub struct ContinuityEdge {
    pub before: String,
    pub after: String,
    pub maximum_interval_ms: Option<u64>,
}

#[derive(Debug, Clone, PartialEq, Eq)]
pub struct SigningMetadata {
    pub format: String,
    pub algorithm: String,
    pub credential_refs: Vec<String>,
}

} // verus!
