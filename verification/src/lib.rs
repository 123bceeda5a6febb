//! Proof construction primitives for PARC: the typed proof-envelope model,
//! structural validation before signing, and a builder that only hands out
//! envelopes that pass that validation.
//!
//! Signing, key attestation and relying-party policy are not part of it:
//! callers provide vetted cryptographic and platform adapters.

pub mod builder;
pub mod client;
pub mod crypto;
pub mod encoding;
pub mod error;
pub mod graph;
pub mod laws;
pub mod model;
pub mod text;
pub mod validate;

pub use builder::ProofBuilder;
pub use error::BuildError;
pub use graph::is_acyclic;
pub use model::{
    ApplicationBinding, BindingStrength, Capability, CapabilityStatus, Continuity, ContinuityEdge,
    ContinuityEvent, Digest, EvidenceRecord, EvidenceStatus, Producer, ProofEnvelope,
    SigningMetadata, Subject, SubjectType, DRAFT_PROTOCOL_VERSION, MAX_CHALLENGE_BYTES,
    MIN_CHALLENGE_BYTES,
};
pub use validate::{validate_continuity, validate_evidence};
