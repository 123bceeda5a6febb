//! Why an envelope was refused, and the message that says so.

use crate::text::{append_decimal, decimal};
use vstd::prelude::*;
use vstd::string::*;

verus! {

#[derive(Debug, PartialEq, Eq)]
pub enum BuildError {
    EmptyProfile,
    EmptyProofId,
    EmptySubject,
    InvalidChallengeEncoding,
    InvalidChallengeLength { actual: usize, min: usize, max: usize },
    MissingTimeBounds,
    DuplicateEvidenceId(String),
    MissingEvidenceDependency { record: String, dependency: String },
    CyclicEvidenceDependencies,
    DuplicateContinuityEvent(String),
    MissingContinuityEvent(String),
    CyclicContinuity,
    MissingSigningMetadata,
    Serialization(String),
}

/// A `BuildError` with its texts taken by their characters.
pub enum BuildErrorModel {
    EmptyProfile,
    EmptyProofId,
    EmptySubject,
    InvalidChallengeEncoding,
    InvalidChallengeLength { actual: usize, min: usize, max: usize },
    MissingTimeBounds,
    DuplicateEvidenceId(Seq<char>),
    MissingEvidenceDependency { record: Seq<char>, dependency: Seq<char> },
    CyclicEvidenceDependencies,
    DuplicateContinuityEvent(Seq<char>),
    MissingContinuityEvent(Seq<char>),
    CyclicContinuity,
    MissingSigningMetadata,
    Serialization(Seq<char>),
}

impl View for BuildError {
    type V = BuildErrorModel;

    open spec fn view(&self) -> BuildErrorModel {
        match self {
            BuildError::EmptyProfile => BuildErrorModel::EmptyProfile,
            BuildError::EmptyProofId => BuildErrorModel::EmptyProofId,
            BuildError::EmptySubject => BuildErrorModel::EmptySubject,
            BuildError::InvalidChallengeEncoding => BuildErrorModel::InvalidChallengeEncoding,
            BuildError::InvalidChallengeLength { actual, min, max } => {
                BuildErrorModel::InvalidChallengeLength { actual: *actual, min: *min, max: *max }
            },
            BuildError::MissingTimeBounds => BuildErrorModel::MissingTimeBounds,
            BuildError::DuplicateEvidenceId(id) => BuildErrorModel::DuplicateEvidenceId(id@),
            BuildError::MissingEvidenceDependency { record, dependency } => {
                BuildErrorModel::MissingEvidenceDependency {
                    record: record@,
                    dependency: dependency@,
                }
            },
            BuildError::CyclicEvidenceDependencies => BuildErrorModel::CyclicEvidenceDependencies,
            BuildError::DuplicateContinuityEvent(id) => BuildErrorModel::DuplicateContinuityEvent(
                id@,
            ),
            BuildError::MissingContinuityEvent(id) => BuildErrorModel::MissingContinuityEvent(id@),
            BuildError::CyclicContinuity => BuildErrorModel::CyclicContinuity,
            BuildError::MissingSigningMetadata => BuildErrorModel::MissingSigningMetadata,
            BuildError::Serialization(text) => BuildErrorModel::Serialization(text@),
        }
    }
}

/// The outcome of a check, with the error taken by its view.
pub open spec fn outcome_of<T>(res: Result<T, BuildError>) -> Result<(), BuildErrorModel> {
    match res {
        Ok(_) => Ok(()),
        Err(e) => Err(e@),
    }
}

/// The message that describes an error.
pub open spec fn message(e: BuildErrorModel) -> Seq<char> {
    match e {
        BuildErrorModel::EmptyProfile => "profile must not be empty"@,
        BuildErrorModel::EmptyProofId => "proof id must not be empty"@,
        BuildErrorModel::EmptySubject => "subject value must not be empty"@,
        BuildErrorModel::InvalidChallengeEncoding => "challenge encoding is invalid"@,
        BuildErrorModel::InvalidChallengeLength { actual, min, max } => "challenge length "@
            + decimal(actual as nat) + " is outside "@ + decimal(min as nat) + "..="@ + decimal(
            max as nat,
        ) + " bytes"@,
        BuildErrorModel::MissingTimeBounds => "issuedAt and expiresAt must not be empty"@,
        BuildErrorModel::DuplicateEvidenceId(id) => "duplicate evidence id: "@ + id,
        BuildErrorModel::MissingEvidenceDependency { record, dependency } => "evidence "@ + record
            + " depends on missing evidence "@ + dependency,
        BuildErrorModel::CyclicEvidenceDependencies =>
            "evidence dependency graph contains a cycle"@,
        BuildErrorModel::DuplicateContinuityEvent(id) => "duplicate continuity event id: "@ + id,
        BuildErrorModel::MissingContinuityEvent(id) => "continuity edge references missing event: "@
            + id,
        BuildErrorModel::CyclicContinuity => "continuity graph contains a cycle"@,
        BuildErrorModel::MissingSigningMetadata =>
            "signing format and algorithm must not be empty"@,
        BuildErrorModel::Serialization(text) => "serialization failed: "@ + text,
    }
}

fn text_of(s: &str) -> (res: String)
    ensures
        res@ == s@,
{
    s.to_owned()
}

impl BuildError {
    /// The message that describes this error.
    pub fn to_string(&self) -> (text: String)
        ensures
            text@ == message(self@),
    {
        match self {
            BuildError::EmptyProfile => text_of("profile must not be empty"),
            BuildError::EmptyProofId => text_of("proof id must not be empty"),
            BuildError::EmptySubject => text_of("subject value must not be empty"),
            BuildError::InvalidChallengeEncoding => text_of("challenge encoding is invalid"),
            BuildError::InvalidChallengeLength { actual, min, max } => {
                let mut out = text_of("challenge length ");
                append_decimal(&mut out, *actual);
                out.append(" is outside ");
                append_decimal(&mut out, *min);
                out.append("..=");
                append_decimal(&mut out, *max);
                out.append(" bytes");
                out
            },
            BuildError::MissingTimeBounds => text_of("issuedAt and expiresAt must not be empty"),
            BuildError::DuplicateEvidenceId(id) => {
                let mut out = text_of("duplicate evidence id: ");
                out.append(id.as_str());
                out
            },
            BuildError::MissingEvidenceDependency { record, dependency } => {
                let mut out = text_of("evidence ");
                out.append(record.as_str());
                out.append(" depends on missing evidence ");
                out.append(dependency.as_str());
                out
            },
            BuildError::CyclicEvidenceDependencies => text_of(
                "evidence dependency graph contains a cycle",
            ),
            BuildError::DuplicateContinuityEvent(id) => {
                let mut out = text_of("duplicate continuity event id: ");
                out.append(id.as_str());
                out
            },
            BuildError::MissingContinuityEvent(id) => {
                let mut out = text_of("continuity edge references missing event: ");
                out.append(id.as_str());
                out
            },
            BuildError::CyclicContinuity => text_of("continuity graph contains a cycle"),
            BuildError::MissingSigningMetadata => text_of(
                "signing format and algorithm must not be empty",
            ),
            BuildError::Serialization(text) => {
                let mut out = text_of("serialization failed: ");
                out.append(text.as_str());
                out
            },
        }
    }
}

} // verus!
