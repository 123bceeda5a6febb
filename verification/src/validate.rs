//! Structural validation of an envelope: non-blank fields, a well-formed
//! challenge, unique identifiers, resolved references and acyclic graphs.

use crate::encoding::{base64url_decoded, decode_base64url};
use crate::error::{outcome_of, BuildError, BuildErrorModel};
use crate::graph::{
    edge_listed, edges_of, has_cycle, has_edge, is_acyclic, successor_lists,
};
use crate::model::{
    Continuity, ContinuityEdge, EvidenceRecord, ProofEnvelope, MAX_CHALLENGE_BYTES,
    MIN_CHALLENGE_BYTES,
};
use crate::text::{is_blank, is_blank_text};
use vstd::prelude::*;

verus! {

/// Some entry before position `j` of `s` equals `s[j]`.
pub open spec fn repeats_earlier(s: Seq<Seq<char>>, j: int) -> bool {
    exists|i: int| 0 <= i < j && #[trigger] s[i] == s[j]
}

/// Scanning the first `m` entries of `s` in order, the first position whose
/// entry already occurred.
pub open spec fn first_repeat(s: Seq<Seq<char>>, m: int) -> Option<int>
    decreases m,
{
    if m <= 0 {
        None
    } else {
        match first_repeat(s, m - 1) {
            Some(j) => Some(j),
            None => if repeats_earlier(s, m - 1) {
                Some(m - 1)
            } else {
                None
            },
        }
    }
}

/// The first position below `m` whose name is not among `ids`.
pub open spec fn first_absent(ids: Seq<Seq<char>>, names: Seq<Seq<char>>, m: int) -> Option<int>
    decreases m,
{
    if m <= 0 {
        None
    } else {
        match first_absent(ids, names, m - 1) {
            Some(k) => Some(k),
            None => if !ids.contains(names[m - 1]) {
                Some(m - 1)
            } else {
                None
            },
        }
    }
}

/// The ids of `records`, in order.
pub open spec fn evidence_ids(records: Seq<EvidenceRecord>) -> Seq<Seq<char>> {
    Seq::new(records.len(), |i: int| records[i].id@)
}

/// The dependencies of a record, by their characters.
pub open spec fn dependencies_of(record: EvidenceRecord) -> Seq<Seq<char>> {
    record.dependencies.deep_view()
}

/// Scanning the first `m` records in order, and the dependencies of each in
/// order, the first (record, dependency) position whose name is not among
/// `ids`.
pub open spec fn first_missing_dependency(
    records: Seq<EvidenceRecord>,
    ids: Seq<Seq<char>>,
    m: int,
) -> Option<(int, int)>
    decreases m,
{
    if m <= 0 {
        None
    } else {
        match first_missing_dependency(records, ids, m - 1) {
            Some(p) => Some(p),
            None => match first_absent(
                ids,
                dependencies_of(records[m - 1]),
                dependencies_of(records[m - 1]).len() as int,
            ) {
                Some(k) => Some((m - 1, k)),
                None => None,
            },
        }
    }
}

/// Record `u` is a dependency of record `v`.
pub open spec fn evidence_edges(records: Seq<EvidenceRecord>) -> spec_fn(int, int) -> bool {
    |u: int, v: int|
        0 <= u < records.len() && 0 <= v < records.len() && dependencies_of(records[v]).contains(
            records[u].id@,
        )
}

/// What `validate_evidence` decides for `records`.
pub open spec fn evidence_outcome(records: Seq<EvidenceRecord>) -> Result<(), BuildErrorModel> {
    let ids = evidence_ids(records);
    match first_repeat(ids, ids.len() as int) {
        Some(j) => Err(BuildErrorModel::DuplicateEvidenceId(ids[j])),
        None => match first_missing_dependency(records, ids, records.len() as int) {
            Some((j, k)) => Err(
                BuildErrorModel::MissingEvidenceDependency {
                    record: ids[j],
                    dependency: dependencies_of(records[j])[k],
                },
            ),
            None => if has_cycle(evidence_edges(records)) {
                Err(BuildErrorModel::CyclicEvidenceDependencies)
            } else {
                Ok(())
            },
        },
    }
}

/// The ids of the events of `continuity`, in order.
pub open spec fn event_ids(continuity: Continuity) -> Seq<Seq<char>> {
    Seq::new(continuity.events@.len(), |i: int| continuity.events@[i].id@)
}

/// Scanning the first `m` edges in order, the first endpoint that names no
/// event: an edge's `before` is looked at before its `after`.
pub open spec fn first_dangling_endpoint(
    ids: Seq<Seq<char>>,
    edges: Seq<ContinuityEdge>,
    m: int,
) -> Option<Seq<char>>
    decreases m,
{
    if m <= 0 {
        None
    } else {
        match first_dangling_endpoint(ids, edges, m - 1) {
            Some(x) => Some(x),
            None => if !ids.contains(edges[m - 1].before@) {
                Some(edges[m - 1].before@)
            } else if !ids.contains(edges[m - 1].after@) {
                Some(edges[m - 1].after@)
            } else {
                None
            },
        }
    }
}

/// Some edge says event `u` happened before event `v`.
pub open spec fn continuity_edges(continuity: Continuity) -> spec_fn(int, int) -> bool {
    |u: int, v: int|
        0 <= u < continuity.events@.len() && 0 <= v < continuity.events@.len() && exists|i: int|
            0 <= i < continuity.edges@.len() && #[trigger] continuity.edges@[i].before@
                == continuity.events@[u].id@ && continuity.edges@[i].after@
                == continuity.events@[v].id@
}

/// What `validate_continuity` decides for `continuity`.
pub open spec fn continuity_outcome(continuity: Continuity) -> Result<(), BuildErrorModel> {
    let ids = event_ids(continuity);
    match first_repeat(ids, ids.len() as int) {
        Some(j) => Err(BuildErrorModel::DuplicateContinuityEvent(ids[j])),
        None => match first_dangling_endpoint(
            ids,
            continuity.edges@,
            continuity.edges@.len() as int,
        ) {
            Some(x) => Err(BuildErrorModel::MissingContinuityEvent(x)),
            None => if has_cycle(continuity_edges(continuity)) {
                Err(BuildErrorModel::CyclicContinuity)
            } else {
                Ok(())
            },
        },
    }
}

proof fn lemma_no_repeat_distinct(s: Seq<Seq<char>>, m: int)
    requires
        0 <= m <= s.len(),
        first_repeat(s, m) is None,
    ensures
        forall|i: int, j: int| 0 <= i < j < m ==> s[i] != s[j],
    decreases m,
{
    if m > 0 {
        lemma_no_repeat_distinct(s, m - 1);
        assert forall|i: int, j: int| 0 <= i < j < m implies s[i] != s[j] by {
            if j == m - 1 && s[i] == s[j] {
                assert(repeats_earlier(s, m - 1));
            }
        }
    }
}

/// Where in `ids` a name first occurs again.
fn find_repeat(ids: &Vec<String>) -> (res: Option<usize>)
    ensures
        match res {
            Some(j) => j < ids@.len() && first_repeat(ids.deep_view(), ids@.len() as int) == Some(
                j as int,
            ),
            None => first_repeat(ids.deep_view(), ids@.len() as int) is None,
        },
{
    let ghost s = ids.deep_view();
    let n = ids.len();
    let mut j: usize = 0;
    while j < n
        invariant
            n == ids@.len(),
            s == ids.deep_view(),
            j <= n,
            first_repeat(s, j as int) is None,
        decreases n - j,
    {
        let mut i: usize = 0;
        while i < j
            invariant
                n == ids@.len(),
                s == ids.deep_view(),
                i <= j < n,
                first_repeat(s, j as int) is None,
                forall|k: int| 0 <= k < i ==> s[k] != s[j as int],
            decreases j - i,
        {
            if ids[i] == ids[j] {
                proof {
                    assert(s[i as int] == s[j as int]);
                    assert(repeats_earlier(s, j as int));
                    assert(first_repeat(s, j + 1) == Some(j as int));
                    lemma_repeat_stays(s, j + 1, n as int);
                }
                return Some(j);
            }
            i += 1;
        }
        proof {
            assert(!repeats_earlier(s, j as int));
        }
        j += 1;
    }
    None
}

/// A position of `ids` that holds `name`, if any.
fn position_of(ids: &Vec<String>, name: &String) -> (res: Option<usize>)
    ensures
        match res {
            Some(i) => i < ids@.len() && ids.deep_view()[i as int] == name@,
            None => !ids.deep_view().contains(name@),
        },
{
    let ghost s = ids.deep_view();
    let mut i: usize = 0;
    while i < ids.len()
        invariant
            s == ids.deep_view(),
            i <= ids@.len(),
            forall|k: int| 0 <= k < i ==> s[k] != name@,
        decreases ids@.len() - i,
    {
        if ids[i] == *name {
            return Some(i);
        }
        i += 1;
    }
    None
}

/// Checks that evidence ids are unique, that every dependency names a record,
/// and that the dependencies have no cycle.
pub fn validate_evidence(records: &[EvidenceRecord]) -> (res: Result<(), BuildError>)
    ensures
        outcome_of(res) == evidence_outcome(records@),
{
    let ghost rs = records@;
    let n = records.len();
    let ghost s = evidence_ids(rs);
    let mut ids: Vec<String> = Vec::new();
    let mut i: usize = 0;
    while i < n
        invariant
            n == rs.len(),
            rs == records@,
            s == evidence_ids(rs),
            i <= n,
            ids@.len() == i,
            forall|k: int| 0 <= k < i ==> #[trigger] ids@[k]@ == s[k],
        decreases n - i,
    {
        ids.push(records[i].id.clone());
        i += 1;
    }
    assert(ids.deep_view() =~= s);
    match find_repeat(&ids) {
        Some(j) => {
            return Err(BuildError::DuplicateEvidenceId(records[j].id.clone()));
        },
        None => {},
    }
    proof {
        lemma_no_repeat_distinct(s, n as int);
    }
    let mut edges: Vec<(usize, usize)> = Vec::new();
    let mut v: usize = 0;
    while v < n
        invariant
            n == rs.len(),
            rs == records@,
            s == evidence_ids(rs),
            ids.deep_view() == s,
            forall|a: int, b: int| 0 <= a < b < n ==> s[a] != s[b],
            first_repeat(s, n as int) is None,
            v <= n,
            first_missing_dependency(rs, s, v as int) is None,
            forall|e: int|
                0 <= e < edges@.len() ==> #[trigger] edges@[e].0 < n && edges@[e].1 < v,
            forall|a: int, b: int|
                edge_listed(edges@, a, b) <==> 0 <= b < v && evidence_edges(rs)(a, b),
        decreases n - v,
    {
        let deps = &records[v].dependencies;
        let ghost d = dependencies_of(rs[v as int]);
        assert(deps.deep_view() == d);
        let mut k: usize = 0;
        while k < deps.len()
            invariant
                n == rs.len(),
                rs == records@,
                s == evidence_ids(rs),
                ids.deep_view() == s,
                forall|a: int, b: int| 0 <= a < b < n ==> s[a] != s[b],
                first_repeat(s, n as int) is None,
                v < n,
                deps.deep_view() == d,
                d == dependencies_of(rs[v as int]),
                k <= d.len(),
                first_missing_dependency(rs, s, v as int) is None,
                first_absent(s, d, k as int) is None,
                forall|e: int|
                    0 <= e < edges@.len() ==> #[trigger] edges@[e].0 < n && edges@[e].1 <= v,
                forall|a: int, b: int|
                    edge_listed(edges@, a, b) <==> (0 <= b < v && evidence_edges(rs)(a, b)) || (
                    b == v && 0 <= a < n && d.take(k as int).contains(s[a])),
            decreases d.len() - k,
        {
            match position_of(&ids, &deps[k]) {
                None => {
                    proof {
                        assert(first_absent(s, d, k + 1) == Some(k as int));
                        lemma_absent_stays(s, d, k + 1, d.len() as int);
                        assert(first_missing_dependency(rs, s, v + 1) == Some((v as int, k as int)));
                        lemma_missing_stays(rs, s, v + 1, n as int);
                    }
                    return Err(
                        BuildError::MissingEvidenceDependency {
                            record: records[v].id.clone(),
                            dependency: deps[k].clone(),
                        },
                    );
                },
                Some(u) => {
                    let ghost before = edges@;
                    edges.push((u, v));
                    proof {
                        let dk = d.take(k as int);
                        let dk1 = d.take(k + 1);
                        assert(s[u as int] == d[k as int]);
                        assert(dk1 =~= dk.push(d[k as int]));
                        let last = before.len() as int;
                        assert(edges@[last].0 == u && edges@[last].1 == v);
                        assert forall|e: int| 0 <= e < edges@.len() implies #[trigger] edges@[e].0
                            < n && edges@[e].1 <= v by {
                            if e < last {
                                assert(edges@[e] == before[e]);
                            }
                        }
                        assert forall|a: int, b: int|
                            #![trigger edge_listed(edges@, a, b)]
                            edge_listed(edges@, a, b) implies (0 <= b < v && evidence_edges(rs)(
                                a,
                                b,
                            )) || (b == v && 0 <= a < n && dk1.contains(s[a])) by {
                            let e = choose|e: int|
                                0 <= e < edges@.len() && #[trigger] edges@[e].0 == a && edges@[e].1
                                    == b;
                            if e < last {
                                assert(before[e] == edges@[e]);
                                assert(before[e].0 == a);
                                assert(edge_listed(before, a, b));
                                if !(0 <= b < v && evidence_edges(rs)(a, b)) {
                                    assert(dk.contains(s[a]));
                                    let t = choose|t: int| 0 <= t < dk.len() && dk[t] == s[a];
                                    assert(dk1[t] == s[a]);
                                }
                            } else {
                                assert(a == u as int && b == v as int);
                                assert(dk1[k as int] == s[a]);
                            }
                        }
                        assert forall|a: int, b: int|
                            #![trigger edge_listed(edges@, a, b)]
                            (0 <= b < v && evidence_edges(rs)(a, b)) || (b == v && 0 <= a < n
                                && dk1.contains(s[a])) implies edge_listed(edges@, a, b) by {
                            if b == v && 0 <= a < n && dk1.contains(s[a]) {
                                let t = choose|t: int| 0 <= t < dk1.len() && dk1[t] == s[a];
                                if t < k {
                                    assert(dk[t] == s[a]);
                                    assert(dk.contains(s[a]));
                                    assert(edge_listed(before, a, b));
                                    let e = choose|e: int|
                                        0 <= e < before.len() && #[trigger] before[e].0 == a
                                            && before[e].1 == b;
                                    assert(edges@[e] == before[e]);
                                    assert(edges@[e].0 == a);
                                } else {
                                    assert(s[a] == s[u as int]);
                                    assert(a == u as int);
                                    assert(edges@[last].0 == a);
                                }
                            } else {
                                assert(edge_listed(before, a, b));
                                let e = choose|e: int|
                                    0 <= e < before.len() && #[trigger] before[e].0 == a
                                        && before[e].1 == b;
                                assert(edges@[e] == before[e]);
                                assert(edges@[e].0 == a);
                            }
                        }
                    }
                },
            }
            proof {
                assert(first_absent(s, d, k + 1) is None);
            }
            k += 1;
        }
        proof {
            assert(d.take(d.len() as int) =~= d);
            assert(first_missing_dependency(rs, s, v + 1) is None);
            assert forall|a: int, b: int|
                #![trigger edge_listed(edges@, a, b)]
                edge_listed(edges@, a, b) <==> 0 <= b < v + 1 && evidence_edges(rs)(a, b) by {
                if b == v {
                    assert(dependencies_of(rs[b]) == d);
                }
            }
        }
        v += 1;
    }
    let (mut indegree, successors) = successor_lists(n, &edges);
    proof {
        let g = successors.deep_view();
        assert forall|a: int, b: int|
            #![trigger edges_of(g)(a, b)]
            edges_of(g)(a, b) == evidence_edges(rs)(a, b) by {
            assert(has_edge(g, a, b) <==> 0 <= a < n && 0 <= b < n && edge_listed(edges@, a, b));
            assert(edge_listed(edges@, a, b) <==> 0 <= b < n && evidence_edges(rs)(a, b));
        }
        assert(edges_of(g) =~= evidence_edges(rs));
    }
    if !is_acyclic(&mut indegree, &successors) {
        return Err(BuildError::CyclicEvidenceDependencies);
    }
    Ok(())
}

proof fn lemma_repeat_stays(s: Seq<Seq<char>>, m: int, n: int)
    requires
        1 <= m <= n,
        first_repeat(s, m) is Some,
    ensures
        first_repeat(s, n) == first_repeat(s, m),
    decreases n - m,
{
    if m < n {
        lemma_repeat_stays(s, m, n - 1);
    }
}

proof fn lemma_absent_stays(s: Seq<Seq<char>>, d: Seq<Seq<char>>, m: int, n: int)
    requires
        1 <= m <= n,
        first_absent(s, d, m) is Some,
    ensures
        first_absent(s, d, n) == first_absent(s, d, m),
    decreases n - m,
{
    if m < n {
        lemma_absent_stays(s, d, m, n - 1);
    }
}

proof fn lemma_missing_stays(rs: Seq<EvidenceRecord>, s: Seq<Seq<char>>, m: int, n: int)
    requires
        1 <= m <= n,
        first_missing_dependency(rs, s, m) is Some,
    ensures
        first_missing_dependency(rs, s, n) == first_missing_dependency(rs, s, m),
    decreases n - m,
{
    if m < n {
        lemma_missing_stays(rs, s, m, n - 1);
    }
}

/// Some edge among the first `m` of `edges` joins the names `x` and `y`.
spec fn joined(edges: Seq<ContinuityEdge>, x: Seq<char>, y: Seq<char>, m: int) -> bool {
    exists|t: int| 0 <= t < m && #[trigger] edges[t].before@ == x && edges[t].after@ == y
}

proof fn lemma_dangling_stays(s: Seq<Seq<char>>, e: Seq<ContinuityEdge>, m: int, n: int)
    requires
        1 <= m <= n,
        first_dangling_endpoint(s, e, m) is Some,
    ensures
        first_dangling_endpoint(s, e, n) == first_dangling_endpoint(s, e, m),
    decreases n - m,
{
    if m < n {
        lemma_dangling_stays(s, e, m, n - 1);
    }
}

/// Checks that event ids are unique, that every edge names two events, and
/// that the edges have no cycle.
pub fn validate_continuity(continuity: &Continuity) -> (res: Result<(), BuildError>)
    ensures
        outcome_of(res) == continuity_outcome(*continuity),
{
    let ghost c = *continuity;
    let ghost s = event_ids(c);
    let ghost es = continuity.edges@;
    let n = continuity.events.len();
    let mut ids: Vec<String> = Vec::new();
    let mut i: usize = 0;
    while i < n
        invariant
            c == *continuity,
            s == event_ids(c),
            n == c.events@.len(),
            i <= n,
            ids@.len() == i,
            forall|k: int| 0 <= k < i ==> #[trigger] ids@[k]@ == s[k],
        decreases n - i,
    {
        ids.push(continuity.events[i].id.clone());
        i += 1;
    }
    assert(ids.deep_view() =~= s);
    match find_repeat(&ids) {
        Some(j) => {
            return Err(BuildError::DuplicateContinuityEvent(continuity.events[j].id.clone()));
        },
        None => {},
    }
    proof {
        lemma_no_repeat_distinct(s, n as int);
    }
    let m = continuity.edges.len();
    let mut edges: Vec<(usize, usize)> = Vec::new();
    let mut i: usize = 0;
    while i < m
        invariant
            c == *continuity,
            s == event_ids(c),
            es == c.edges@,
            n == c.events@.len(),
            m == es.len(),
            ids.deep_view() == s,
            forall|a: int, b: int| 0 <= a < b < n ==> s[a] != s[b],
            first_repeat(s, n as int) is None,
            i <= m,
            first_dangling_endpoint(s, es, i as int) is None,
            forall|e: int|
                0 <= e < edges@.len() ==> #[trigger] edges@[e].0 < n && edges@[e].1 < n,
            forall|a: int, b: int|
                #![trigger edge_listed(edges@, a, b)]
                edge_listed(edges@, a, b) <==> 0 <= a < n && 0 <= b < n && joined(
                    es,
                    s[a],
                    s[b],
                    i as int,
                ),
        decreases m - i,
    {
        let edge = &continuity.edges[i];
        match position_of(&ids, &edge.before) {
            None => {
                proof {
                    assert(first_dangling_endpoint(s, es, i + 1) == Some(es[i as int].before@));
                    lemma_dangling_stays(s, es, i + 1, m as int);
                }
                return Err(BuildError::MissingContinuityEvent(edge.before.clone()));
            },
            Some(a0) => match position_of(&ids, &edge.after) {
                None => {
                    proof {
                        assert(s.contains(es[i as int].before@)) by {
                            assert(s[a0 as int] == es[i as int].before@);
                        }
                        assert(first_dangling_endpoint(s, es, i + 1) == Some(es[i as int].after@));
                        lemma_dangling_stays(s, es, i + 1, m as int);
                    }
                    return Err(BuildError::MissingContinuityEvent(edge.after.clone()));
                },
                Some(b0) => {
                    let ghost before = edges@;
                    edges.push((a0, b0));
                    proof {
                        let last = before.len() as int;
                        assert(edges@[last].0 == a0 && edges@[last].1 == b0);
                        assert forall|e: int| 0 <= e < edges@.len() implies #[trigger] edges@[e].0
                            < n && edges@[e].1 < n by {
                            if e < last {
                                assert(edges@[e] == before[e]);
                            }
                        }
                        assert(s.contains(es[i as int].before@)) by {
                            assert(s[a0 as int] == es[i as int].before@);
                        }
                        assert(s.contains(es[i as int].after@)) by {
                            assert(s[b0 as int] == es[i as int].after@);
                        }
                        assert forall|a: int, b: int|
                            #![trigger edge_listed(edges@, a, b)]
                            edge_listed(edges@, a, b) implies 0 <= a < n && 0 <= b < n && joined(
                                es,
                                s[a],
                                s[b],
                                i + 1,
                            ) by {
                            let e = choose|e: int|
                                0 <= e < edges@.len() && #[trigger] edges@[e].0 == a && edges@[e].1
                                    == b;
                            if e < last {
                                assert(before[e] == edges@[e]);
                                assert(before[e].0 == a);
                                assert(edge_listed(before, a, b));
                                let t = choose|t: int|
                                    0 <= t < i && #[trigger] es[t].before@ == s[a] && es[t].after@
                                        == s[b];
                                assert(es[t].before@ == s[a]);
                            } else {
                                assert(es[i as int].before@ == s[a]);
                            }
                        }
                        assert forall|a: int, b: int|
                            #![trigger edge_listed(edges@, a, b)]
                            0 <= a < n && 0 <= b < n && joined(es, s[a], s[b], i + 1) implies edge_listed(
                                edges@,
                                a,
                                b,
                            ) by {
                            let t = choose|t: int|
                                0 <= t < i + 1 && #[trigger] es[t].before@ == s[a] && es[t].after@
                                    == s[b];
                            if t < i {
                                assert(joined(es, s[a], s[b], i as int));
                                assert(edge_listed(before, a, b));
                                let e = choose|e: int|
                                    0 <= e < before.len() && #[trigger] before[e].0 == a
                                        && before[e].1 == b;
                                assert(edges@[e] == before[e]);
                                assert(edges@[e].0 == a);
                            } else {
                                assert(s[a] == s[a0 as int]);
                                assert(a == a0 as int);
                                assert(s[b] == s[b0 as int]);
                                assert(b == b0 as int);
                                assert(edges@[last].0 == a);
                            }
                        }
                    }
                },
            },
        }
        i += 1;
    }
    let (mut indegree, successors) = successor_lists(n, &edges);
    proof {
        let g = successors.deep_view();
        assert forall|a: int, b: int|
            #![trigger edges_of(g)(a, b)]
            edges_of(g)(a, b) == continuity_edges(c)(a, b) by {
            assert(has_edge(g, a, b) <==> 0 <= a < n && 0 <= b < n && edge_listed(edges@, a, b));
            if 0 <= a < n && 0 <= b < n {
                assert(edge_listed(edges@, a, b) <==> joined(es, s[a], s[b], m as int));
                assert(s[a] == c.events@[a].id@);
                assert(s[b] == c.events@[b].id@);
                if joined(es, s[a], s[b], m as int) {
                    let t = choose|t: int|
                        0 <= t < m && #[trigger] es[t].before@ == s[a] && es[t].after@ == s[b];
                    assert(c.edges@[t].before@ == c.events@[a].id@);
                }
            }
        }
        assert(edges_of(g) =~= continuity_edges(c));
    }
    if !is_acyclic(&mut indegree, &successors) {
        return Err(BuildError::CyclicContinuity);
    }
    Ok(())
}

/// What validation decides for an envelope with these fields, given what its
/// challenge text decodes to (`None` when it does not decode). The checks run
/// in this order, and the first that fails decides.
pub open spec fn field_checks(
    profile: Seq<char>,
    proof_id: Seq<char>,
    subject_value: Seq<char>,
    challenge: Option<Seq<u8>>,
    issued_at: Seq<char>,
    expires_at: Seq<char>,
    signing_format: Seq<char>,
    signing_algorithm: Seq<char>,
    evidence: Seq<EvidenceRecord>,
    continuity: Continuity,
) -> Result<(), BuildErrorModel> {
    if is_blank_text(profile) {
        Err(BuildErrorModel::EmptyProfile)
    } else if is_blank_text(proof_id) {
        Err(BuildErrorModel::EmptyProofId)
    } else if is_blank_text(subject_value) {
        Err(BuildErrorModel::EmptySubject)
    } else {
        match challenge {
            None => Err(BuildErrorModel::InvalidChallengeEncoding),
            Some(bytes) => if !(MIN_CHALLENGE_BYTES <= bytes.len() <= MAX_CHALLENGE_BYTES) {
                Err(
                    BuildErrorModel::InvalidChallengeLength {
                        actual: bytes.len() as usize,
                        min: MIN_CHALLENGE_BYTES,
                        max: MAX_CHALLENGE_BYTES,
                    },
                )
            } else if is_blank_text(issued_at) || is_blank_text(expires_at) {
                Err(BuildErrorModel::MissingTimeBounds)
            } else if is_blank_text(signing_format) || is_blank_text(signing_algorithm) {
                Err(BuildErrorModel::MissingSigningMetadata)
            } else {
                match evidence_outcome(evidence) {
                    Err(e) => Err(e),
                    Ok(_) => continuity_outcome(continuity),
                }
            },
        }
    }
}

/// What `ProofEnvelope::validate` decides for `e`.
pub open spec fn envelope_outcome(e: ProofEnvelope) -> Result<(), BuildErrorModel> {
    field_checks(
        e.profile@,
        e.proof_id@,
        e.subject.value@,
        base64url_decoded(e.challenge@),
        e.issued_at@,
        e.expires_at@,
        e.signing.format@,
        e.signing.algorithm@,
        e.evidence@,
        e.continuity,
    )
}

impl ProofEnvelope {
    /// Checks the envelope's structure: the first failing check, in the order
    /// of `field_checks`, gives the error.
    pub fn validate(&self) -> (res: Result<(), BuildError>)
        ensures
            outcome_of(res) == envelope_outcome(*self),
    {
        if is_blank(self.profile.as_str()) {
            return Err(BuildError::EmptyProfile);
        }
        if is_blank(self.proof_id.as_str()) {
            return Err(BuildError::EmptyProofId);
        }
        if is_blank(self.subject.value.as_str()) {
            return Err(BuildError::EmptySubject);
        }
        let challenge = match decode_base64url(self.challenge.as_str()) {
            Ok(bytes) => bytes,
            Err(_) => {
                return Err(BuildError::InvalidChallengeEncoding);
            },
        };
        if !(MIN_CHALLENGE_BYTES <= challenge.len() && challenge.len() <= MAX_CHALLENGE_BYTES) {
            return Err(
                BuildError::InvalidChallengeLength {
                    actual: challenge.len(),
                    min: MIN_CHALLENGE_BYTES,
                    max: MAX_CHALLENGE_BYTES,
                },
            );
        }
        if is_blank(self.issued_at.as_str()) || is_blank(self.expires_at.as_str()) {
            return Err(BuildError::MissingTimeBounds);
        }
        if is_blank(self.signing.format.as_str()) || is_blank(self.signing.algorithm.as_str()) {
            return Err(BuildError::MissingSigningMetadata);
        }
        validate_evidence(self.evidence.as_slice())?;
        validate_continuity(&self.continuity)?;
        Ok(())
    }
}

} // verus!
