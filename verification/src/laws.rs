//! Laws of validation and construction: what an accepted envelope, evidence
//! list or continuity is, what each refusal means, when the builder and the
//! demo client succeed, and that the order of evidence records and of
//! continuity events does not matter; and of the client's helpers: stored
//! keys, server addresses and decimal numbers.

use crate::builder::{assembled_from, build_outcome, challenge_bytes, BuilderModel};
use crate::client::{
    demo_outcome, stored_key_outcome, without_trailing_slashes, ChallengeResponse,
    HostObservation, KeyFileErrorModel, StoredKey, SubmissionErrorModel,
};
use crate::crypto::ed25519_public_key_of;
use crate::encoding::{base64url_decoded, base64url_encoded};
use crate::error::BuildErrorModel;
use crate::graph::{has_cycle, lemma_cycle_maps, lemma_distinct_below};
use crate::model::{
    Continuity, ContinuityEdge, EvidenceRecord, ProofEnvelope, DRAFT_PROTOCOL_VERSION,
    MAX_CHALLENGE_BYTES, MIN_CHALLENGE_BYTES,
};
use crate::text::{decimal, is_blank_text};
use crate::validate::{
    continuity_edges, continuity_outcome, dependencies_of, envelope_outcome, event_ids,
    evidence_edges, evidence_ids, evidence_outcome, first_absent, first_dangling_endpoint,
    first_missing_dependency, first_repeat, repeats_earlier,
};
use vstd::prelude::*;

verus! {

/// No two entries of `s` are equal.
pub open spec fn all_distinct(s: Seq<Seq<char>>) -> bool {
    forall|i: int, j: int| 0 <= i < s.len() && 0 <= j < s.len() && i != j ==> s[i] != s[j]
}

/// `perm` lists each of the numbers `0..n` once.
pub open spec fn is_permutation(perm: Seq<int>, n: int) -> bool {
    &&& perm.len() == n
    &&& forall|i: int| 0 <= i < n ==> 0 <= #[trigger] perm[i] < n
    &&& forall|i: int, j: int| 0 <= i < n && 0 <= j < n && i != j ==> perm[i] != perm[j]
}

/// Two records with the same id that depend on the same ids, whatever the
/// order or repetition of their dependency lists.
pub open spec fn same_record_modulo_order(a: EvidenceRecord, b: EvidenceRecord) -> bool {
    &&& a.id@ == b.id@
    &&& forall|x: Seq<char>|
        #[trigger] dependencies_of(a).contains(x) <==> dependencies_of(b).contains(x)
}

/// `reordered` holds the records of `records` in the order `perm`:
/// its record `i` is record `perm[i]`, up to the order of dependencies.
pub open spec fn reorders_records(
    reordered: Seq<EvidenceRecord>,
    records: Seq<EvidenceRecord>,
    perm: Seq<int>,
) -> bool {
    &&& reordered.len() == records.len()
    &&& is_permutation(perm, records.len() as int)
    &&& forall|i: int|
        0 <= i < records.len() ==> #[trigger] same_record_modulo_order(
            reordered[i],
            records[perm[i]],
        )
}

/// `smaller` holds the events of `c` in the order `perm`, and only edges that
/// join events that some edge of `c` joins.
pub open spec fn reorders_events_and_drops_edges(
    smaller: Continuity,
    c: Continuity,
    perm: Seq<int>,
) -> bool {
    &&& smaller.events@.len() == c.events@.len()
    &&& is_permutation(perm, c.events@.len() as int)
    &&& forall|i: int|
        0 <= i < c.events@.len() ==> #[trigger] smaller.events@[i].id@ == c.events@[perm[i]].id@
    &&& forall|j: int|
        #![trigger smaller.edges@[j]]
        0 <= j < smaller.edges@.len() ==> exists|i: int|
            0 <= i < c.edges@.len() && #[trigger] c.edges@[i].before@
                == smaller.edges@[j].before@ && c.edges@[i].after@ == smaller.edges@[j].after@
}

proof fn lemma_repeat_none_iff(s: Seq<Seq<char>>, m: int)
    requires
        0 <= m <= s.len(),
    ensures
        first_repeat(s, m) is None <==> forall|i: int, j: int|
            0 <= i < m && 0 <= j < m && i != j ==> s[i] != s[j],
    decreases m,
{
    if m > 0 {
        lemma_repeat_none_iff(s, m - 1);
        if first_repeat(s, m) is None {
            assert forall|i: int, j: int| 0 <= i < m && 0 <= j < m && i != j implies s[i]
                != s[j] by {
                if i == m - 1 && s[i] == s[j] {
                    assert(repeats_earlier(s, m - 1));
                }
                if j == m - 1 && s[i] == s[j] {
                    assert(repeats_earlier(s, m - 1));
                }
            }
        }
        if forall|i: int, j: int| 0 <= i < m && 0 <= j < m && i != j ==> s[i] != s[j] {
            if repeats_earlier(s, m - 1) {
                let i = choose|i: int| 0 <= i < m - 1 && #[trigger] s[i] == s[m - 1];
                assert(s[i] != s[m - 1]);
            }
        }
    }
}

proof fn lemma_absent_none_iff(ids: Seq<Seq<char>>, names: Seq<Seq<char>>, m: int)
    requires
        0 <= m <= names.len(),
    ensures
        first_absent(ids, names, m) is None <==> forall|k: int|
            0 <= k < m ==> ids.contains(#[trigger] names[k]),
    decreases m,
{
    if m > 0 {
        lemma_absent_none_iff(ids, names, m - 1);
    }
}

/// Every dependency of the first `m` records names one of `ids`.
spec fn resolved_below(records: Seq<EvidenceRecord>, ids: Seq<Seq<char>>, m: int) -> bool {
    forall|j: int, x: Seq<char>|
        0 <= j < m && #[trigger] dependencies_of(records[j]).contains(x) ==> ids.contains(x)
}

proof fn lemma_missing_none_iff(records: Seq<EvidenceRecord>, ids: Seq<Seq<char>>, m: int)
    requires
        0 <= m <= records.len(),
    ensures
        first_missing_dependency(records, ids, m) is None <==> resolved_below(records, ids, m),
    decreases m,
{
    if m > 0 {
        lemma_missing_none_iff(records, ids, m - 1);
        let d = dependencies_of(records[m - 1]);
        lemma_absent_none_iff(ids, d, d.len() as int);
        if first_missing_dependency(records, ids, m) is None {
            assert forall|j: int, x: Seq<char>|
                0 <= j < m && #[trigger] dependencies_of(records[j]).contains(
                    x,
                ) implies ids.contains(x) by {
                if j == m - 1 {
                    let k = choose|k: int| 0 <= k < d.len() && d[k] == x;
                    assert(ids.contains(d[k]));
                }
            }
        }
        if resolved_below(records, ids, m) {
            assert forall|k: int| 0 <= k < d.len() implies ids.contains(#[trigger] d[k]) by {
                assert(d.contains(d[k]));
                assert(dependencies_of(records[m - 1]).contains(d[k]));
            }
            assert(resolved_below(records, ids, m - 1));
        }
    }
}

/// Both endpoints of `edge` name events among `ids`.
spec fn endpoints_known(ids: Seq<Seq<char>>, edge: ContinuityEdge) -> bool {
    ids.contains(edge.before@) && ids.contains(edge.after@)
}

proof fn lemma_dangling_none_iff(ids: Seq<Seq<char>>, es: Seq<ContinuityEdge>, m: int)
    requires
        0 <= m <= es.len(),
    ensures
        first_dangling_endpoint(ids, es, m) is None <==> forall|i: int|
            0 <= i < m ==> #[trigger] endpoints_known(ids, es[i]),
    decreases m,
{
    if m > 0 {
        lemma_dangling_none_iff(ids, es, m - 1);
        assert(first_dangling_endpoint(ids, es, m) is None <==> (first_dangling_endpoint(
            ids,
            es,
            m - 1,
        ) is None && endpoints_known(ids, es[m - 1])));
    }
}

/// What `evidence_outcome` being `Ok` comes to: unique ids, resolved
/// dependencies, and no cycle.
proof fn lemma_evidence_ok_iff(records: Seq<EvidenceRecord>)
    ensures
        evidence_outcome(records) is Ok <==> all_distinct(evidence_ids(records)) && resolved_below(
            records,
            evidence_ids(records),
            records.len() as int,
        ) && !has_cycle(evidence_edges(records)),
{
    let ids = evidence_ids(records);
    lemma_repeat_none_iff(ids, ids.len() as int);
    lemma_missing_none_iff(records, ids, records.len() as int);
}

/// A permutation of `0..n` lists every number below `n`; this gives its
/// inverse.
proof fn lemma_inverse(perm: Seq<int>, n: int) -> (inv: Seq<int>)
    requires
        0 <= n,
        is_permutation(perm, n),
    ensures
        is_permutation(inv, n),
        forall|j: int| 0 <= j < n ==> perm[#[trigger] inv[j]] == j,
        forall|i: int| 0 <= i < n ==> inv[#[trigger] perm[i]] == i,
{
    assert(perm.no_duplicates());
    lemma_distinct_below(perm, n);
    let inv = Seq::new(n as nat, |j: int| choose|i: int| 0 <= i < n && perm[i] == j);
    assert forall|j: int| 0 <= j < n implies 0 <= #[trigger] inv[j] < n && perm[inv[j]] == j by {
        assert(perm.contains(j));
    }
    assert forall|i: int| 0 <= i < n implies inv[#[trigger] perm[i]] == i by {
        let j = perm[i];
        assert(perm[inv[j]] == j);
    }
    assert forall|a: int, b: int| 0 <= a < n && 0 <= b < n && a != b implies inv[a] != inv[b] by {
        assert(perm[inv[a]] == a);
        assert(perm[inv[b]] == b);
    }
    inv
}

proof fn lemma_reordered_evidence_ok(
    records: Seq<EvidenceRecord>,
    reordered: Seq<EvidenceRecord>,
    perm: Seq<int>,
)
    requires
        reorders_records(reordered, records, perm),
        evidence_outcome(records) is Ok,
    ensures
        evidence_outcome(reordered) is Ok,
{
    let n = records.len() as int;
    let ids = evidence_ids(records);
    let ids2 = evidence_ids(reordered);
    lemma_evidence_ok_iff(records);
    lemma_evidence_ok_iff(reordered);
    let inv = lemma_inverse(perm, n);
    assert forall|i: int| 0 <= i < n implies #[trigger] ids2[i] == ids[perm[i]] by {
        assert(same_record_modulo_order(reordered[i], records[perm[i]]));
    }
    assert(all_distinct(ids2)) by {
        assert forall|i: int, j: int| 0 <= i < n && 0 <= j < n && i != j implies ids2[i]
            != ids2[j] by {
            assert(ids2[i] == ids[perm[i]]);
            assert(ids2[j] == ids[perm[j]]);
        }
    }
    assert(resolved_below(reordered, ids2, n)) by {
        assert forall|j: int, x: Seq<char>|
            0 <= j < n && #[trigger] dependencies_of(reordered[j]).contains(x) implies ids2.contains(
            x,
        ) by {
            assert(same_record_modulo_order(reordered[j], records[perm[j]]));
            assert(dependencies_of(records[perm[j]]).contains(x));
            assert(ids.contains(x));
            let a = choose|a: int| 0 <= a < n && ids[a] == x;
            assert(ids2[inv[a]] == ids[perm[inv[a]]]);
        }
    }
    assert forall|u: int, v: int| #[trigger] evidence_edges(reordered)(u, v) implies 0 <= u
        < perm.len() && 0 <= v < perm.len() && evidence_edges(records)(perm[u], perm[v]) by {
        assert(same_record_modulo_order(reordered[v], records[perm[v]]));
        assert(ids2[u] == ids[perm[u]]);
        assert(dependencies_of(records[perm[v]]).contains(ids2[u]));
    }
    lemma_cycle_maps(evidence_edges(reordered), evidence_edges(records), perm);
}

/// Putting evidence records in another order, and the dependencies of each in
/// another order (or with repeats), does not change whether the evidence is
/// valid.
pub proof fn law_evidence_order_does_not_matter(
    records: Seq<EvidenceRecord>,
    reordered: Seq<EvidenceRecord>,
    perm: Seq<int>,
)
    requires
        reorders_records(reordered, records, perm),
    ensures
        evidence_outcome(records) is Ok <==> evidence_outcome(reordered) is Ok,
{
    let n = records.len() as int;
    if evidence_outcome(records) is Ok {
        lemma_reordered_evidence_ok(records, reordered, perm);
    }
    let inv = lemma_inverse(perm, n);
    assert forall|j: int| 0 <= j < n implies #[trigger] same_record_modulo_order(
        records[j],
        reordered[inv[j]],
    ) by {
        assert(same_record_modulo_order(reordered[inv[j]], records[perm[inv[j]]]));
    }
    if evidence_outcome(reordered) is Ok {
        lemma_reordered_evidence_ok(reordered, records, inv);
    }
}

/// Putting continuity events in another order, and keeping only some of the
/// edges (in any order, with repeats), keeps a valid continuity valid.
pub proof fn law_continuity_order_and_fewer_edges(
    c: Continuity,
    smaller: Continuity,
    perm: Seq<int>,
)
    requires
        continuity_outcome(c) is Ok,
        reorders_events_and_drops_edges(smaller, c, perm),
    ensures
        continuity_outcome(smaller) is Ok,
{
    let n = c.events@.len() as int;
    let ids = event_ids(c);
    let ids2 = event_ids(smaller);
    lemma_repeat_none_iff(ids, n);
    lemma_repeat_none_iff(ids2, n);
    lemma_dangling_none_iff(ids, c.edges@, c.edges@.len() as int);
    lemma_dangling_none_iff(ids2, smaller.edges@, smaller.edges@.len() as int);
    let inv = lemma_inverse(perm, n);
    assert forall|i: int| 0 <= i < n implies #[trigger] ids2[i] == ids[perm[i]] by {
        assert(smaller.events@[i].id@ == c.events@[perm[i]].id@);
    }
    assert forall|i: int, j: int| 0 <= i < n && 0 <= j < n && i != j implies ids2[i]
        != ids2[j] by {
        assert(ids2[i] == ids[perm[i]]);
        assert(ids2[j] == ids[perm[j]]);
    }
    assert forall|j: int| 0 <= j < smaller.edges@.len() implies #[trigger] endpoints_known(
        ids2,
        smaller.edges@[j],
    ) by {
        let i = choose|i: int|
            0 <= i < c.edges@.len() && #[trigger] c.edges@[i].before@ == smaller.edges@[j].before@
                && c.edges@[i].after@ == smaller.edges@[j].after@;
        assert(endpoints_known(ids, c.edges@[i]));
        let a = choose|a: int| 0 <= a < n && ids[a] == c.edges@[i].before@;
        let b = choose|b: int| 0 <= b < n && ids[b] == c.edges@[i].after@;
        assert(ids2[inv[a]] == ids[perm[inv[a]]]);
        assert(ids2[inv[b]] == ids[perm[inv[b]]]);
    }
    assert forall|u: int, v: int| #[trigger] continuity_edges(smaller)(u, v) implies 0 <= u
        < perm.len() && 0 <= v < perm.len() && continuity_edges(c)(perm[u], perm[v]) by {
        let j = choose|j: int|
            0 <= j < smaller.edges@.len() && #[trigger] smaller.edges@[j].before@
                == smaller.events@[u].id@ && smaller.edges@[j].after@ == smaller.events@[v].id@;
        let i = choose|i: int|
            0 <= i < c.edges@.len() && #[trigger] c.edges@[i].before@ == smaller.edges@[j].before@
                && c.edges@[i].after@ == smaller.edges@[j].after@;
        assert(ids2[u] == ids[perm[u]]);
        assert(ids2[v] == ids[perm[v]]);
        assert(c.edges@[i].before@ == c.events@[perm[u]].id@);
        assert(c.edges@[i].after@ == c.events@[perm[v]].id@);
    }
    lemma_cycle_maps(continuity_edges(smaller), continuity_edges(c), perm);
}

proof fn lemma_first_repeat_some(s: Seq<Seq<char>>, m: int)
    requires
        0 <= m <= s.len(),
    ensures
        first_repeat(s, m) matches Some(j) ==> 0 <= j < m && repeats_earlier(s, j),
    decreases m,
{
    if m > 0 {
        lemma_first_repeat_some(s, m - 1);
    }
}

proof fn lemma_first_absent_some(ids: Seq<Seq<char>>, names: Seq<Seq<char>>, m: int)
    requires
        0 <= m <= names.len(),
    ensures
        first_absent(ids, names, m) matches Some(k) ==> 0 <= k < m && !ids.contains(names[k]),
    decreases m,
{
    if m > 0 {
        lemma_first_absent_some(ids, names, m - 1);
    }
}

proof fn lemma_first_missing_some(records: Seq<EvidenceRecord>, ids: Seq<Seq<char>>, m: int)
    requires
        0 <= m <= records.len(),
    ensures
        first_missing_dependency(records, ids, m) matches Some((j, k)) ==> 0 <= j < m && 0 <= k
            < dependencies_of(records[j]).len() && !ids.contains(dependencies_of(records[j])[k]),
    decreases m,
{
    if m > 0 {
        lemma_first_missing_some(records, ids, m - 1);
        let d = dependencies_of(records[m - 1]);
        lemma_first_absent_some(ids, d, d.len() as int);
    }
}

proof fn lemma_first_dangling_some(ids: Seq<Seq<char>>, es: Seq<ContinuityEdge>, m: int)
    requires
        0 <= m <= es.len(),
    ensures
        first_dangling_endpoint(ids, es, m) matches Some(x) ==> !ids.contains(x) && exists|i: int|
            0 <= i < m && (#[trigger] es[i].before@ == x || es[i].after@ == x),
    decreases m,
{
    if m > 0 {
        lemma_first_dangling_some(ids, es, m - 1);
        match first_dangling_endpoint(ids, es, m - 1) {
            Some(x) => {
                let i = choose|i: int|
                    0 <= i < m - 1 && (#[trigger] es[i].before@ == x || es[i].after@ == x);
                assert(0 <= i < m && (es[i].before@ == x || es[i].after@ == x));
            },
            None => {},
        }
    }
}

/// Evidence is accepted exactly when its ids are distinct, every dependency
/// names one of its records, and no record depends on itself through a chain
/// of dependencies, however many records there are. A refusal names a real
/// fault: a duplicated id, a dependency that names no record, or a cycle.
pub proof fn law_evidence_validity(records: Seq<EvidenceRecord>)
    ensures
        evidence_outcome(records) is Ok <==> {
            &&& all_distinct(evidence_ids(records))
            &&& forall|j: int, x: Seq<char>|
                0 <= j < records.len() && #[trigger] dependencies_of(records[j]).contains(x)
                    ==> evidence_ids(records).contains(x)
            &&& !has_cycle(evidence_edges(records))
        },
        evidence_outcome(records) matches Err(BuildErrorModel::DuplicateEvidenceId(x)) ==> exists|
            i: int,
            j: int,
        | 0 <= i < j < records.len() && #[trigger] records[i].id@ == x && #[trigger] records[j].id@
            == x,
        evidence_outcome(records) matches Err(
            BuildErrorModel::MissingEvidenceDependency { record, dependency },
        ) ==> {
            &&& all_distinct(evidence_ids(records))
            &&& !evidence_ids(records).contains(dependency)
            &&& exists|j: int|
                0 <= j < records.len() && #[trigger] records[j].id@ == record && dependencies_of(
                    records[j],
                ).contains(dependency)
        },
        evidence_outcome(records) matches Err(BuildErrorModel::CyclicEvidenceDependencies)
            ==> has_cycle(evidence_edges(records)),
        evidence_outcome(records) matches Err(e) ==> (e is DuplicateEvidenceId
            || e is MissingEvidenceDependency || e is CyclicEvidenceDependencies),
{
    let ids = evidence_ids(records);
    let n = records.len() as int;
    lemma_evidence_ok_iff(records);
    lemma_repeat_none_iff(ids, n);
    lemma_first_repeat_some(ids, n);
    lemma_first_missing_some(records, ids, n);
    match first_repeat(ids, n) {
        Some(j) => {
            let i = choose|i: int| 0 <= i < j && #[trigger] ids[i] == ids[j];
            assert(records[i].id@ == ids[j] && records[j].id@ == ids[j]);
        },
        None => {
            match first_missing_dependency(records, ids, n) {
                Some((j, k)) => {
                    let d = dependencies_of(records[j]);
                    assert(d.contains(d[k]));
                    assert(records[j].id@ == ids[j]);
                },
                None => {},
            }
        },
    }
}

/// A continuity is accepted exactly when its event ids are distinct, both
/// ends of every edge name events, and no chain of edges, of any length,
/// leads from an event back to itself. A refusal names a real fault: a
/// duplicated event id, an edge end that names no event, or a cycle.
pub proof fn law_continuity_validity(c: Continuity)
    ensures
        continuity_outcome(c) is Ok <==> {
            &&& all_distinct(event_ids(c))
            &&& forall|i: int|
                0 <= i < c.edges@.len() ==> event_ids(c).contains(#[trigger] c.edges@[i].before@)
                    && event_ids(c).contains(c.edges@[i].after@)
            &&& !has_cycle(continuity_edges(c))
        },
        continuity_outcome(c) matches Err(BuildErrorModel::DuplicateContinuityEvent(x)) ==> exists|
            i: int,
            j: int,
        | 0 <= i < j < c.events@.len() && #[trigger] c.events@[i].id@ == x
            && #[trigger] c.events@[j].id@ == x,
        continuity_outcome(c) matches Err(BuildErrorModel::MissingContinuityEvent(x)) ==> {
            &&& !event_ids(c).contains(x)
            &&& exists|i: int|
                0 <= i < c.edges@.len() && (#[trigger] c.edges@[i].before@ == x
                    || c.edges@[i].after@ == x)
        },
        continuity_outcome(c) matches Err(BuildErrorModel::CyclicContinuity) ==> has_cycle(
            continuity_edges(c),
        ),
        continuity_outcome(c) matches Err(e) ==> (e is DuplicateContinuityEvent
            || e is MissingContinuityEvent || e is CyclicContinuity),
{
    let ids = event_ids(c);
    let n = c.events@.len() as int;
    let es = c.edges@;
    lemma_repeat_none_iff(ids, n);
    lemma_first_repeat_some(ids, n);
    lemma_dangling_none_iff(ids, es, es.len() as int);
    lemma_first_dangling_some(ids, es, es.len() as int);
    match first_repeat(ids, n) {
        Some(j) => {
            let i = choose|i: int| 0 <= i < j && #[trigger] ids[i] == ids[j];
            assert(c.events@[i].id@ == ids[j] && c.events@[j].id@ == ids[j]);
        },
        None => {},
    }
    if forall|i: int|
        0 <= i < es.len() ==> ids.contains(#[trigger] es[i].before@) && ids.contains(es[i].after@) {
        assert forall|i: int| 0 <= i < es.len() implies #[trigger] endpoints_known(ids, es[i]) by {
            assert(ids.contains(es[i].before@) && ids.contains(es[i].after@));
        }
    }
    if forall|i: int| 0 <= i < es.len() ==> #[trigger] endpoints_known(ids, es[i]) {
        assert forall|i: int| 0 <= i < es.len() implies ids.contains(#[trigger] es[i].before@)
            && ids.contains(es[i].after@) by {
            assert(endpoints_known(ids, es[i]));
        }
    }
}

/// An envelope passes validation exactly when its profile, proof id, subject
/// value, both time bounds and both signing fields are non-blank, its
/// challenge is unpadded URL-safe base64 of 16 to 384 bytes, and its evidence
/// and continuity are valid. Each refusal names a field that really fails.
pub proof fn law_envelope_validity(e: ProofEnvelope)
    ensures
        envelope_outcome(e) is Ok <==> {
            &&& !is_blank_text(e.profile@)
            &&& !is_blank_text(e.proof_id@)
            &&& !is_blank_text(e.subject.value@)
            &&& base64url_decoded(e.challenge@) matches Some(c) && MIN_CHALLENGE_BYTES <= c.len()
                <= MAX_CHALLENGE_BYTES
            &&& !is_blank_text(e.issued_at@)
            &&& !is_blank_text(e.expires_at@)
            &&& !is_blank_text(e.signing.format@)
            &&& !is_blank_text(e.signing.algorithm@)
            &&& evidence_outcome(e.evidence@) is Ok
            &&& continuity_outcome(e.continuity) is Ok
        },
        envelope_outcome(e) == Err::<(), BuildErrorModel>(BuildErrorModel::EmptyProfile)
            ==> is_blank_text(e.profile@),
        envelope_outcome(e) == Err::<(), BuildErrorModel>(BuildErrorModel::EmptyProofId)
            ==> is_blank_text(e.proof_id@),
        envelope_outcome(e) == Err::<(), BuildErrorModel>(BuildErrorModel::EmptySubject)
            ==> is_blank_text(e.subject.value@),
        envelope_outcome(e) == Err::<(), BuildErrorModel>(BuildErrorModel::InvalidChallengeEncoding)
            ==> base64url_decoded(e.challenge@) is None,
        envelope_outcome(e) matches Err(
            BuildErrorModel::InvalidChallengeLength { actual, min, max },
        ) ==> {
            &&& base64url_decoded(e.challenge@) matches Some(c) && c.len() as usize == actual
                && !(MIN_CHALLENGE_BYTES <= c.len() <= MAX_CHALLENGE_BYTES)
            &&& min == MIN_CHALLENGE_BYTES && max == MAX_CHALLENGE_BYTES
        },
        envelope_outcome(e) == Err::<(), BuildErrorModel>(BuildErrorModel::MissingTimeBounds)
            ==> is_blank_text(e.issued_at@) || is_blank_text(e.expires_at@),
        envelope_outcome(e) == Err::<(), BuildErrorModel>(BuildErrorModel::MissingSigningMetadata)
            ==> is_blank_text(e.signing.format@) || is_blank_text(e.signing.algorithm@),
        envelope_outcome(e) matches Err(x) && (x is DuplicateEvidenceId
            || x is MissingEvidenceDependency || x is CyclicEvidenceDependencies)
            ==> evidence_outcome(e.evidence@) == envelope_outcome(e),
        envelope_outcome(e) matches Err(x) && (x is DuplicateContinuityEvent
            || x is MissingContinuityEvent || x is CyclicContinuity) ==> continuity_outcome(
            e.continuity,
        ) == envelope_outcome(e),
{
    law_evidence_validity(e.evidence@);
    law_continuity_validity(e.continuity);
}

/// The builder succeeds exactly when every part is given, the challenge has
/// 16 to 384 bytes, the given texts are non-blank and the evidence and
/// continuity are valid, however many evidence records there are. Each
/// refusal names a part that is absent or fails. Once the challenge length
/// is right, what the builder decides is what validating the envelope it
/// assembles decides.
pub proof fn law_build_validity(b: BuilderModel)
    ensures
        build_outcome(b) is Ok <==> {
            &&& MIN_CHALLENGE_BYTES <= challenge_bytes(b).len() <= MAX_CHALLENGE_BYTES
            &&& b.profile matches Some(p) && !is_blank_text(p)
            &&& b.proof_id matches Some(p) && !is_blank_text(p)
            &&& b.issued_at matches Some(t) && !is_blank_text(t)
            &&& b.expires_at matches Some(t) && !is_blank_text(t)
            &&& b.subject matches Some(s) && !is_blank_text(s.value@)
            &&& b.signing matches Some(m) && !is_blank_text(m.format@) && !is_blank_text(
                m.algorithm@,
            )
            &&& evidence_outcome(b.evidence) is Ok
            &&& continuity_outcome(b.continuity) is Ok
        },
        build_outcome(b) matches Err(BuildErrorModel::InvalidChallengeLength { actual, min, max })
            ==> actual == challenge_bytes(b).len() as usize && min == MIN_CHALLENGE_BYTES && max
            == MAX_CHALLENGE_BYTES && !(MIN_CHALLENGE_BYTES <= challenge_bytes(b).len()
            <= MAX_CHALLENGE_BYTES),
        build_outcome(b) == Err::<(), BuildErrorModel>(BuildErrorModel::EmptyProfile) ==> !(
        b.profile matches Some(p) && !is_blank_text(p)),
        build_outcome(b) == Err::<(), BuildErrorModel>(BuildErrorModel::EmptyProofId) ==> !(
        b.proof_id matches Some(p) && !is_blank_text(p)),
        build_outcome(b) == Err::<(), BuildErrorModel>(BuildErrorModel::MissingTimeBounds) ==> !(
        b.issued_at matches Some(t) && !is_blank_text(t)) || !(b.expires_at matches Some(t)
            && !is_blank_text(t)),
        build_outcome(b) == Err::<(), BuildErrorModel>(BuildErrorModel::EmptySubject) ==> !(
        b.subject matches Some(s) && !is_blank_text(s.value@)),
        build_outcome(b) == Err::<(), BuildErrorModel>(BuildErrorModel::MissingSigningMetadata)
            ==> !(b.signing matches Some(m) && !is_blank_text(m.format@) && !is_blank_text(
            m.algorithm@,
        )),
        build_outcome(b) != Err::<(), BuildErrorModel>(BuildErrorModel::InvalidChallengeEncoding),
        forall|env: ProofEnvelope|
            MIN_CHALLENGE_BYTES <= challenge_bytes(b).len() <= MAX_CHALLENGE_BYTES
                && #[trigger] assembled_from(env, b) && base64url_decoded(env.challenge@) == Some(
                challenge_bytes(b),
            ) ==> build_outcome(b) == envelope_outcome(env),
{
}

/// The demo client answers a challenge exactly when it speaks the draft
/// protocol, its challenge is unpadded URL-safe base64 of 16 to 384 bytes,
/// and its profile, the issue time and the expiry are non-blank, whatever the
/// profile names. Each refusal names a real fault.
pub proof fn law_draft_proof_validity(challenge: ChallengeResponse, host: HostObservation)
    ensures
        demo_outcome(challenge, host) is Ok <==> {
            &&& challenge.protocol_version@ == DRAFT_PROTOCOL_VERSION@
            &&& base64url_decoded(challenge.challenge@) matches Some(c) && MIN_CHALLENGE_BYTES
                <= c.len() <= MAX_CHALLENGE_BYTES
            &&& !is_blank_text(challenge.profile@)
            &&& !is_blank_text(host.issued_at@)
            &&& !is_blank_text(challenge.expires_at@)
        },
        demo_outcome(challenge, host) matches Err(
            SubmissionErrorModel::UnsupportedProtocol { offered },
        ) ==> offered == challenge.protocol_version@ && offered != DRAFT_PROTOCOL_VERSION@,
        demo_outcome(challenge, host) matches Err(SubmissionErrorModel::InvalidChallengeEncoding)
            ==> base64url_decoded(challenge.challenge@) is None,
        demo_outcome(challenge, host) matches Err(
            SubmissionErrorModel::Proof(BuildErrorModel::InvalidChallengeLength { actual, .. }),
        ) ==> base64url_decoded(challenge.challenge@) matches Some(c) && c.len() as usize == actual
            && !(MIN_CHALLENGE_BYTES <= c.len() <= MAX_CHALLENGE_BYTES),
        demo_outcome(challenge, host) matches Err(
            SubmissionErrorModel::Proof(BuildErrorModel::EmptyProfile),
        ) ==> is_blank_text(challenge.profile@),
        demo_outcome(challenge, host) matches Err(
            SubmissionErrorModel::Proof(BuildErrorModel::MissingTimeBounds),
        ) ==> is_blank_text(host.issued_at@) || is_blank_text(challenge.expires_at@),
        demo_outcome(challenge, host) matches Err(SubmissionErrorModel::Proof(e)) ==> (
        e is InvalidChallengeLength || e is EmptyProfile || e is MissingTimeBounds),
{
}

/// Removing trailing slashes keeps the longest prefix of `s` that does not
/// end in `/` and after which `s` holds only `/` characters.
pub proof fn law_trailing_slashes_removed(s: Seq<char>)
    ensures
        without_trailing_slashes(s).len() <= s.len(),
        without_trailing_slashes(s) == s.take(without_trailing_slashes(s).len() as int),
        forall|i: int| without_trailing_slashes(s).len() <= i < s.len() ==> s[i] == '/',
        without_trailing_slashes(s).len() == 0 || without_trailing_slashes(s).last() != '/',
    decreases s.len(),
{
    if s.len() > 0 && s.last() == '/' {
        law_trailing_slashes_removed(s.drop_last());
        let r = without_trailing_slashes(s);
        assert(r == without_trailing_slashes(s.drop_last()));
        assert(s.drop_last().take(r.len() as int) =~= s.take(r.len() as int));
        assert forall|i: int| r.len() <= i < s.len() implies s[i] == '/' by {
            if i < s.len() - 1 {
                assert(s.drop_last()[i] == s[i]);
            }
        }
    } else {
        assert(s.take(s.len() as int) =~= s);
    }
}

/// The number that the digits of `s` spell, most significant first.
pub open spec fn numeral_value(s: Seq<char>) -> int
    decreases s.len(),
{
    if s.len() == 0 {
        0
    } else {
        numeral_value(s.drop_last()) * 10 + (s.last() as int - 48)
    }
}

/// The decimal rendering of a number is a non-empty run of the digits `0` to
/// `9`, with no leading zero unless the number is zero, and it reads back as
/// the number.
pub proof fn law_decimal_reads_back(n: nat)
    ensures
        decimal(n).len() > 0,
        forall|i: int| 0 <= i < decimal(n).len() ==> '0' <= #[trigger] decimal(n)[i] <= '9',
        decimal(n)[0] == '0' ==> n == 0,
        numeral_value(decimal(n)) == n,
    decreases n,
{
    if n >= 10 {
        law_decimal_reads_back(n / 10);
        let d = decimal(n);
        let h = decimal(n / 10);
        assert(d == h.push(((48 + n % 10) as int) as char));
        assert(d.drop_last() =~= h);
        assert(d[0] == h[0]);
        assert forall|i: int| 0 <= i < d.len() implies '0' <= #[trigger] d[i] <= '9' by {
            if i < h.len() {
                assert(d[i] == h[i]);
            }
        }
        assert(d.last() as int == 48 + n % 10);
        assert(numeral_value(d) == numeral_value(h) * 10 + n % 10);
        assert(n == (n / 10) * 10 + n % 10);
    } else {
        let d = decimal(n);
        assert(d.last() as int == 48 + n);
        assert(d.drop_last() =~= Seq::<char>::empty());
        assert(numeral_value(d.drop_last()) == 0);
    }
}

/// A stored key is read back exactly when it has version 1, its secret is
/// unpadded URL-safe base64 of 32 bytes, and its public key is the one that
/// belongs to that secret; what is read back is that secret. Each refusal
/// names the check that really fails.
pub proof fn law_stored_key_checks(stored: StoredKey)
    ensures
        stored_key_outcome(stored) is Ok <==> {
            &&& stored.version == 1
            &&& base64url_decoded(stored.secret_key@) matches Some(secret) && secret.len() == 32
                && stored.public_key@ == base64url_encoded(ed25519_public_key_of(secret))
        },
        stored_key_outcome(stored) matches Ok(secret) ==> base64url_decoded(stored.secret_key@)
            == Some(secret) && secret.len() == 32,
        stored_key_outcome(stored) matches Err(KeyFileErrorModel::UnsupportedVersion(v)) ==> v
            == stored.version && v != 1,
        stored_key_outcome(stored) matches Err(KeyFileErrorModel::NotBase64Url { name }) ==> name
            == "secretKey"@ && base64url_decoded(stored.secret_key@) is None,
        stored_key_outcome(stored) matches Err(
            KeyFileErrorModel::WrongLength { name, expected, actual },
        ) ==> {
            &&& name == "secretKey"@ && expected == 32
            &&& base64url_decoded(stored.secret_key@) matches Some(secret) && secret.len() != 32
                && actual == secret.len() as usize
        },
        stored_key_outcome(stored) == Err::<Seq<u8>, KeyFileErrorModel>(
            KeyFileErrorModel::PublicKeyMismatch,
        ) ==> (base64url_decoded(stored.secret_key@) matches Some(secret)
            && stored.public_key@ != base64url_encoded(ed25519_public_key_of(secret))),
{
}

} // verus!
