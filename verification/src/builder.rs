//! A builder that gathers the parts of an envelope and hands out only
//! envelopes that pass validation.

use crate::encoding::{base64url_decoded, base64url_encoded, empty_json_object, encode_base64url, json_object_keys};
use crate::error::{outcome_of, BuildError, BuildErrorModel};
use crate::model::{
    ApplicationBinding, BindingStrength, Capability, Continuity, EvidenceRecord, ProofEnvelope,
    SigningMetadata, Subject, DRAFT_PROTOCOL_VERSION, MAX_CHALLENGE_BYTES, MIN_CHALLENGE_BYTES,
};
use crate::validate::{envelope_outcome, field_checks};
use vstd::prelude::*;

verus! {

#[derive(Debug)]
pub struct ProofBuilder {
    profile: Option<String>,
    proof_id: Option<String>,
    challenge: Option<Vec<u8>>,
    issued_at: Option<String>,
    expires_at: Option<String>,
    subject: Option<Subject>,
    application: ApplicationBinding,
    capabilities: Vec<Capability>,
    evidence: Vec<EvidenceRecord>,
    continuity: Continuity,
    signing: Option<SigningMetadata>,
}

/// What a builder holds, with texts and bytes taken by their contents.
pub struct BuilderModel {
    pub profile: Option<Seq<char>>,
    pub proof_id: Option<Seq<char>>,
    pub challenge: Option<Seq<u8>>,
    pub issued_at: Option<Seq<char>>,
    pub expires_at: Option<Seq<char>>,
    pub subject: Option<Subject>,
    pub application: ApplicationBinding,
    pub capabilities: Seq<Capability>,
    pub evidence: Seq<EvidenceRecord>,
    pub continuity: Continuity,
    pub signing: Option<SigningMetadata>,
}

/// An optional text, by its characters.
pub open spec fn text_option(o: Option<String>) -> Option<Seq<char>> {
    match o {
        Some(s) => Some(s@),
        None => None,
    }
}

impl View for ProofBuilder {
    type V = BuilderModel;

    closed spec fn view(&self) -> BuilderModel {
        BuilderModel {
            profile: text_option(self.profile),
            proof_id: text_option(self.proof_id),
            challenge: match self.challenge {
                Some(c) => Some(c@),
                None => None,
            },
            issued_at: text_option(self.issued_at),
            expires_at: text_option(self.expires_at),
            subject: self.subject,
            application: self.application,
            capabilities: self.capabilities@,
            evidence: self.evidence@,
            continuity: self.continuity,
            signing: self.signing,
        }
    }
}

/// The challenge bytes a build uses: those given, or none.
pub open spec fn challenge_bytes(b: BuilderModel) -> Seq<u8> {
    match b.challenge {
        Some(c) => c,
        None => Seq::empty(),
    }
}

/// What `ProofBuilder::build` decides: the challenge length first, then each
/// missing part in the order profile, proof id, time bounds, subject, signing
/// metadata, then the checks of `validate` on the envelope it assembles.
pub open spec fn build_outcome(b: BuilderModel) -> Result<(), BuildErrorModel> {
    let c = challenge_bytes(b);
    if !(MIN_CHALLENGE_BYTES <= c.len() <= MAX_CHALLENGE_BYTES) {
        Err(
            BuildErrorModel::InvalidChallengeLength {
                actual: c.len() as usize,
                min: MIN_CHALLENGE_BYTES,
                max: MAX_CHALLENGE_BYTES,
            },
        )
    } else if b.profile is None {
        Err(BuildErrorModel::EmptyProfile)
    } else if b.proof_id is None {
        Err(BuildErrorModel::EmptyProofId)
    } else if b.issued_at is None || b.expires_at is None {
        Err(BuildErrorModel::MissingTimeBounds)
    } else if b.subject is None {
        Err(BuildErrorModel::EmptySubject)
    } else if b.signing is None {
        Err(BuildErrorModel::MissingSigningMetadata)
    } else {
        field_checks(
            b.profile.unwrap(),
            b.proof_id.unwrap(),
            b.subject.unwrap().value@,
            Some(c),
            b.issued_at.unwrap(),
            b.expires_at.unwrap(),
            b.signing.unwrap().format@,
            b.signing.unwrap().algorithm@,
            b.evidence,
            b.continuity,
        )
    }
}

/// `env` is the envelope assembled from `b`.
pub open spec fn assembled_from(env: ProofEnvelope, b: BuilderModel) -> bool {
    &&& env.protocol_version@ == DRAFT_PROTOCOL_VERSION@
    &&& b.profile == Some(env.profile@)
    &&& b.proof_id == Some(env.proof_id@)
    &&& env.challenge@ == base64url_encoded(challenge_bytes(b))
    &&& b.issued_at == Some(env.issued_at@)
    &&& b.expires_at == Some(env.expires_at@)
    &&& b.subject == Some(env.subject)
    &&& env.application == b.application
    &&& env.capabilities@ == b.capabilities
    &&& env.evidence@ == b.evidence
    &&& env.continuity == b.continuity
    &&& b.signing == Some(env.signing)
    &&& json_object_keys(env.extensions) == Set::<Seq<char>>::empty()
}

impl Default for ProofBuilder {
    fn default() -> (builder: Self)
        ensures
            builder@.profile is None,
            builder@.proof_id is None,
            builder@.challenge is None,
            builder@.issued_at is None,
            builder@.expires_at is None,
            builder@.subject is None,
            builder@.application.package_name is None,
            builder@.application.version_code is None,
            builder@.application.signing_certificate_sha256 is None,
            builder@.application.build_id is None,
            builder@.application.binding_strength == BindingStrength::SelfAsserted,
            builder@.capabilities.len() == 0,
            builder@.evidence.len() == 0,
            builder@.continuity.events@.len() == 0,
            builder@.continuity.edges@.len() == 0,
            builder@.signing is None,
    {
        ProofBuilder {
            profile: None,
            proof_id: None,
            challenge: None,
            issued_at: None,
            expires_at: None,
            subject: None,
            application: ApplicationBinding::default(),
            capabilities: Vec::new(),
            evidence: Vec::new(),
            continuity: Continuity::default(),
            signing: None,
        }
    }
}

impl ProofBuilder {
    /// A builder holding nothing yet.
    pub fn new() -> (builder: Self)
        ensures
            builder@.profile is None,
            builder@.proof_id is None,
            builder@.challenge is None,
            builder@.issued_at is None,
            builder@.expires_at is None,
            builder@.subject is None,
            builder@.application.package_name is None,
            builder@.application.version_code is None,
            builder@.application.signing_certificate_sha256 is None,
            builder@.application.build_id is None,
            builder@.application.binding_strength == BindingStrength::SelfAsserted,
            builder@.capabilities.len() == 0,
            builder@.evidence.len() == 0,
            builder@.continuity.events@.len() == 0,
            builder@.continuity.edges@.len() == 0,
            builder@.signing is None,
    {
        Self::default()
    }

    pub fn profile(self, value: &str) -> (builder: Self)
        ensures
            builder@ == (BuilderModel { profile: Some(value@), ..self@ }),
    {
        let mut b = self;
        b.profile = Some(value.to_owned());
        b
    }

    pub fn proof_id(self, value: &str) -> (builder: Self)
        ensures
            builder@ == (BuilderModel { proof_id: Some(value@), ..self@ }),
    {
        let mut b = self;
        b.proof_id = Some(value.to_owned());
        b
    }

    pub fn challenge(self, value: Vec<u8>) -> (builder: Self)
        ensures
            builder@ == (BuilderModel { challenge: Some(value@), ..self@ }),
    {
        let mut b = self;
        b.challenge = Some(value);
        b
    }

    pub fn time_bounds(self, issued_at: &str, expires_at: &str) -> (builder: Self)
        ensures
            builder@ == (BuilderModel {
                issued_at: Some(issued_at@),
                expires_at: Some(expires_at@),
                ..self@
            }),
    {
        let mut b = self;
        b.issued_at = Some(issued_at.to_owned());
        b.expires_at = Some(expires_at.to_owned());
        b
    }

    pub fn subject(self, value: Subject) -> (builder: Self)
        ensures
            builder@ == (BuilderModel { subject: Some(value), ..self@ }),
    {
        let mut b = self;
        b.subject = Some(value);
        b
    }

    pub fn application(self, value: ApplicationBinding) -> (builder: Self)
        ensures
            builder@ == (BuilderModel { application: value, ..self@ }),
    {
        let mut b = self;
        b.application = value;
        b
    }

    /// Adds a capability after those already given.
    pub fn capability(self, value: Capability) -> (builder: Self)
        ensures
            builder@ == (BuilderModel { capabilities: self@.capabilities.push(value), ..self@ }),
    {
        let mut b = self;
        b.capabilities.push(value);
        b
    }

    /// Adds an evidence record after those already given.
    pub fn evidence(self, value: EvidenceRecord) -> (builder: Self)
        ensures
            builder@ == (BuilderModel { evidence: self@.evidence.push(value), ..self@ }),
    {
        let mut b = self;
        b.evidence.push(value);
        b
    }

    pub fn continuity(self, value: Continuity) -> (builder: Self)
        ensures
            builder@ == (BuilderModel { continuity: value, ..self@ }),
    {
        let mut b = self;
        b.continuity = value;
        b
    }

    pub fn signing(self, value: SigningMetadata) -> (builder: Self)
        ensures
            builder@ == (BuilderModel { signing: Some(value), ..self@ }),
    {
        let mut b = self;
        b.signing = Some(value);
        b
    }

    /// Assembles the envelope, with the challenge in unpadded URL-safe base64
    /// and the draft protocol version, and validates it. An envelope that
    /// comes back passes `validate`, and its challenge decodes to the bytes
    /// that were given.
    pub fn build(self) -> (res: Result<ProofEnvelope, BuildError>)
        ensures
            outcome_of(res) == build_outcome(self@),
            res matches Ok(env) ==> assembled_from(env, self@),
            res matches Ok(env) ==> envelope_outcome(env) is Ok,
            res matches Ok(env) ==> base64url_decoded(env.challenge@) == Some(
                challenge_bytes(self@),
            ),
    {
        let ghost model = self@;
        let challenge = match self.challenge {
            Some(c) => c,
            None => Vec::new(),
        };
        assert(challenge@ == challenge_bytes(model));
        if !(MIN_CHALLENGE_BYTES <= challenge.len() && challenge.len() <= MAX_CHALLENGE_BYTES) {
            return Err(
                BuildError::InvalidChallengeLength {
                    actual: challenge.len(),
                    min: MIN_CHALLENGE_BYTES,
                    max: MAX_CHALLENGE_BYTES,
                },
            );
        }
        let profile = match self.profile {
            Some(p) => p,
            None => {
                return Err(BuildError::EmptyProfile);
            },
        };
        let proof_id = match self.proof_id {
            Some(p) => p,
            None => {
                return Err(BuildError::EmptyProofId);
            },
        };
        let encoded = encode_base64url(challenge.as_slice());
        let issued_at = match self.issued_at {
            Some(t) => t,
            None => {
                return Err(BuildError::MissingTimeBounds);
            },
        };
        let expires_at = match self.expires_at {
            Some(t) => t,
            None => {
                return Err(BuildError::MissingTimeBounds);
            },
        };
        let subject = match self.subject {
            Some(s) => s,
            None => {
                return Err(BuildError::EmptySubject);
            },
        };
        let signing = match self.signing {
            Some(s) => s,
            None => {
                return Err(BuildError::MissingSigningMetadata);
            },
        };
        let envelope = ProofEnvelope {
            protocol_version: DRAFT_PROTOCOL_VERSION.to_owned(),
            profile,
            proof_id,
            challenge: encoded,
            issued_at,
            expires_at,
            subject,
            application: self.application,
            capabilities: self.capabilities,
            evidence: self.evidence,
            continuity: self.continuity,
            signing,
            extensions: empty_json_object(),
        };
        envelope.validate()?;
        Ok(envelope)
    }
}

} // verus!
