//! Directed graphs over the nodes `0..n`, given by successor lists, and a
//! verified cycle check (Kahn's algorithm).

use vstd::prelude::*;
use vstd::set_lib::*;

verus! {

/// Number of entries of `s` equal to `v`.
pub open spec fn occurrences(s: Seq<usize>, v: int) -> nat
    decreases s.len(),
{
    if s.len() == 0 {
        0
    } else {
        occurrences(s.drop_last(), v) + if s.last() == v {
            1nat
        } else {
            0nat
        }
    }
}

/// Every successor named in `g` is a node of `g`.
pub open spec fn well_formed_lists(g: Seq<Seq<usize>>) -> bool {
    forall|u: int, k: int|
        0 <= u < g.len() && 0 <= k < g[u].len() ==> #[trigger] g[u][k] < g.len()
}

/// The edge `u -> v` of the graph whose successor lists are `g`.
pub open spec fn has_edge(g: Seq<Seq<usize>>, u: int, v: int) -> bool {
    &&& 0 <= u < g.len()
    &&& 0 <= v < g.len()
    &&& listed(g[u], v)
}

/// `p` follows edges of `edge` from each of its nodes to the next.
pub open spec fn is_walk(edge: spec_fn(int, int) -> bool, p: Seq<int>) -> bool {
    forall|i: int| #![trigger p[i]] 0 <= i < p.len() - 1 ==> edge(p[i], p[i + 1])
}

/// `p` is a closed walk of at least one edge.
pub open spec fn is_cycle(edge: spec_fn(int, int) -> bool, p: Seq<int>) -> bool {
    &&& p.len() >= 2
    &&& p[0] == p[p.len() - 1]
    &&& is_walk(edge, p)
}

/// The relation `edge` has a cycle.
pub open spec fn has_cycle(edge: spec_fn(int, int) -> bool) -> bool {
    exists|p: Seq<int>| #[trigger] is_cycle(edge, p)
}

/// The edge relation of the successor lists `g`.
pub open spec fn edges_of(g: Seq<Seq<usize>>) -> spec_fn(int, int) -> bool {
    |u: int, v: int| has_edge(g, u, v)
}

/// Number of edges into `v` from the nodes below `m` that are not in `excluded`.
pub open spec fn in_degree_among(g: Seq<Seq<usize>>, v: int, excluded: Set<int>, m: int) -> nat
    decreases m,
{
    if m <= 0 {
        0
    } else {
        in_degree_among(g, v, excluded, m - 1) + if excluded.contains(m - 1) {
            0nat
        } else {
            occurrences(g[m - 1], v)
        }
    }
}

/// Number of edges into `v`, counted with multiplicity over all successor lists.
pub open spec fn in_degree(g: Seq<Seq<usize>>, v: int) -> nat {
    in_degree_among(g, v, Set::empty(), g.len() as int)
}

/// Some entry of `q` is `x`.
pub open spec fn listed(q: Seq<usize>, x: int) -> bool {
    exists|i: int| 0 <= i < q.len() && q[i] == x
}

/// The nodes whose count in `counts` is zero.
pub open spec fn nodes_with_zero_count(counts: Seq<usize>) -> Set<int> {
    Set::new(|x: int| 0 <= x < counts.len() && counts[x] == 0)
}

/// Some entry before position `i` of `q` is `x`.
pub open spec fn appears_before(q: Seq<usize>, i: int, x: int) -> bool {
    exists|j: int| 0 <= j < i && #[trigger] q[j] == x
}

proof fn lemma_occurrences_push(s: Seq<usize>, x: usize, v: int)
    ensures
        occurrences(s.push(x), v) == occurrences(s, v) + if x == v {
            1nat
        } else {
            0nat
        },
{
    assert(s.push(x).drop_last() =~= s);
}

proof fn lemma_occurrences_contains(s: Seq<usize>, v: int)
    ensures
        occurrences(s, v) > 0 <==> listed(s, v),
    decreases s.len(),
{
    if s.len() > 0 {
        let t = s.drop_last();
        lemma_occurrences_contains(t, v);
        if listed(t, v) {
            let j = choose|j: int| 0 <= j < t.len() && t[j] == v;
            assert(s[j] == v);
        }
        if listed(s, v) {
            let j = choose|j: int| 0 <= j < s.len() && s[j] == v;
            if j < s.len() - 1 {
                assert(t[j] == s[j]);
            }
        }
    }
}

proof fn lemma_occurrences_take(s: Seq<usize>, k: int, v: int)
    requires
        0 <= k <= s.len(),
    ensures
        occurrences(s.take(k), v) <= occurrences(s, v),
    decreases s.len() - k,
{
    if k < s.len() {
        lemma_occurrences_take(s, k + 1, v);
        assert(s.take(k + 1).drop_last() =~= s.take(k));
    } else {
        assert(s.take(k) =~= s);
    }
}

proof fn lemma_in_degree_exclude(g: Seq<Seq<usize>>, v: int, excluded: Set<int>, u: int, m: int)
    requires
        0 <= u < m,
        !excluded.contains(u),
    ensures
        in_degree_among(g, v, excluded.insert(u), m) + occurrences(g[u], v)
            == in_degree_among(g, v, excluded, m),
    decreases m,
{
    if m - 1 > u {
        lemma_in_degree_exclude(g, v, excluded, u, m - 1);
    } else {
        lemma_in_degree_same(g, v, excluded.insert(u), excluded, m - 1);
    }
}

proof fn lemma_in_degree_same(g: Seq<Seq<usize>>, v: int, a: Set<int>, b: Set<int>, m: int)
    requires
        forall|x: int| 0 <= x < m ==> (a.contains(x) <==> b.contains(x)),
    ensures
        in_degree_among(g, v, a, m) == in_degree_among(g, v, b, m),
    decreases m,
{
    if m > 0 {
        lemma_in_degree_same(g, v, a, b, m - 1);
    }
}

proof fn lemma_in_degree_at_most_all(g: Seq<Seq<usize>>, v: int, excluded: Set<int>, m: int)
    ensures
        in_degree_among(g, v, excluded, m) <= in_degree_among(g, v, Set::empty(), m),
    decreases m,
{
    if m > 0 {
        lemma_in_degree_at_most_all(g, v, excluded, m - 1);
    }
}

proof fn lemma_in_degree_zero(g: Seq<Seq<usize>>, v: int, excluded: Set<int>, m: int, x: int)
    requires
        in_degree_among(g, v, excluded, m) == 0,
        0 <= x < m,
        !excluded.contains(x),
    ensures
        occurrences(g[x], v) == 0,
    decreases m,
{
    if x < m - 1 {
        lemma_in_degree_zero(g, v, excluded, m - 1, x);
    }
}

proof fn lemma_in_degree_witness(g: Seq<Seq<usize>>, v: int, excluded: Set<int>, m: int) -> (x: int)
    requires
        in_degree_among(g, v, excluded, m) > 0,
    ensures
        0 <= x < m,
        !excluded.contains(x),
        occurrences(g[x], v) > 0,
    decreases m,
{
    if m <= 0 {
        0
    } else if !excluded.contains(m - 1) && occurrences(g[m - 1], v) > 0 {
        m - 1
    } else {
        lemma_in_degree_witness(g, v, excluded, m - 1)
    }
}

/// A duplicate-free sequence of numbers below `n` has at most `n` entries,
/// and holds every number below `n` when it has exactly `n`.
pub(crate) proof fn lemma_distinct_below(s: Seq<int>, n: int)
    requires
        0 <= n,
        s.no_duplicates(),
        forall|i: int| 0 <= i < s.len() ==> 0 <= #[trigger] s[i] < n,
    ensures
        s.len() <= n,
        s.len() == n ==> forall|v: int| 0 <= v < n ==> s.contains(v),
{
    let range = set_int_range(0, n);
    lemma_int_range(0, n);
    s.unique_seq_to_set();
    assert(s.to_set().subset_of(range)) by {
        assert forall|x: int| s.to_set().contains(x) implies range.contains(x) by {
            let i = choose|i: int| 0 <= i < s.len() && s[i] == x;
            assert(0 <= s[i] < n);
        }
    }
    lemma_len_subset(s.to_set(), range);
    if s.len() == n {
        lemma_subset_equality(s.to_set(), range);
        assert forall|v: int| 0 <= v < n implies s.contains(v) by {
            assert(range.contains(v));
            assert(s.to_set().contains(v));
        }
    }
}

spec fn as_ints(q: Seq<usize>) -> Seq<int> {
    q.map_values(|x: usize| x as int)
}

proof fn lemma_queue_below(q: Seq<usize>, n: int)
    requires
        0 <= n,
        q.no_duplicates(),
        forall|i: int| 0 <= i < q.len() ==> #[trigger] q[i] < n,
    ensures
        q.len() <= n,
        q.len() == n ==> forall|v: int| 0 <= v < n ==> listed(q, v),
{
    let s = as_ints(q);
    assert(s.no_duplicates()) by {
        assert forall|i: int, j: int| 0 <= i < s.len() && 0 <= j < s.len() && i != j implies s[i]
            != s[j] by {
            assert(q[i] != q[j]);
        }
    }
    assert forall|i: int| 0 <= i < s.len() implies 0 <= #[trigger] s[i] < n by {
        assert(q[i] < n);
    }
    lemma_distinct_below(s, n);
    if q.len() == n {
        assert forall|v: int| 0 <= v < n implies listed(q, v) by {
            assert(s.contains(v));
            let i = choose|i: int| 0 <= i < s.len() && s[i] == v;
            assert(q[i] == v as usize);
        }
    }
}

/// Position of `x` in `q`.
spec fn position(q: Seq<usize>, x: int) -> int {
    choose|j: int| 0 <= j < q.len() && q[j] == x
}

/// When `q` lists every node once, and every edge into an entry comes from an
/// earlier entry, the graph has no cycle.
proof fn lemma_ordered_has_no_cycle(g: Seq<Seq<usize>>, q: Seq<usize>)
    requires
        q.no_duplicates(),
        forall|v: int| 0 <= v < g.len() ==> listed(q, v),
        forall|i: int, x: int|
            0 <= i < q.len() && #[trigger] has_edge(g, x, q[i] as int) ==> appears_before(q, i, x),
    ensures
        !has_cycle(edges_of(g)),
{
    if has_cycle(edges_of(g)) {
        let p = choose|p: Seq<int>| #[trigger] is_cycle(edges_of(g), p);
        assert forall|t: int| #![trigger p[t]] 0 <= t < p.len() - 1 implies position(q, p[t]) < position(q, p[t + 1])
            && 0 <= position(q, p[t]) < q.len() && q[position(q, p[t])] == p[t] by {
            assert(edges_of(g)(p[t], p[t + 1]));
            assert(has_edge(g, p[t], p[t + 1]));
            assert(listed(q, p[t + 1]));
            assert(listed(q, p[t]));
            let i = position(q, p[t + 1]);
            assert(has_edge(g, p[t], q[i] as int));
            let j = choose|j: int| 0 <= j < i && #[trigger] q[j] == p[t];
            let jj = position(q, p[t]);
            assert(q[jj] == q[j]);
        }
        lemma_positions_increase(q, p, p.len() - 1);
        assert(p[0] == p[p.len() - 1]);
    }
}

proof fn lemma_positions_increase(q: Seq<usize>, p: Seq<int>, t: int)
    requires
        1 <= t < p.len(),
        forall|s: int|
            0 <= s < p.len() - 1 ==> position(q, #[trigger] p[s]) < position(q, p[s + 1]),
    ensures
        position(q, p[0]) < position(q, p[t]),
    decreases t,
{
    assert(position(q, p[t - 1]) < position(q, p[t]));
    if t > 1 {
        lemma_positions_increase(q, p, t - 1);
    }
}

/// Every node below `n` outside `q` has a predecessor outside `q`.
spec fn closed_backwards(g: Seq<Seq<usize>>, q: Seq<usize>) -> bool {
    forall|x: int|
        #![trigger listed(q, x)]
        0 <= x < g.len() && !listed(q, x) ==> exists|y: int|
            0 <= y < g.len() && !listed(q, y) && #[trigger] has_edge(g, y, x)
}

spec fn predecessor_outside(g: Seq<Seq<usize>>, q: Seq<usize>, x: int) -> int {
    choose|y: int| 0 <= y < g.len() && !listed(q, y) && #[trigger] has_edge(g, y, x)
}

/// Following predecessors outside `q` backwards from `v`, `k` steps.
spec fn backward_walk(g: Seq<Seq<usize>>, q: Seq<usize>, v: int, k: nat) -> Seq<int>
    decreases k,
{
    if k == 0 {
        seq![v]
    } else {
        let w = backward_walk(g, q, v, (k - 1) as nat);
        w.push(predecessor_outside(g, q, w.last()))
    }
}

proof fn lemma_backward_walk(g: Seq<Seq<usize>>, q: Seq<usize>, v: int, k: nat)
    requires
        closed_backwards(g, q),
        0 <= v < g.len(),
        !listed(q, v),
    ensures
        backward_walk(g, q, v, k).len() == k + 1,
        forall|i: int|
            0 <= i < k + 1 ==> 0 <= #[trigger] backward_walk(g, q, v, k)[i] < g.len()
                && !listed(q, backward_walk(g, q, v, k)[i]),
        forall|i: int|
            0 <= i < k ==> has_edge(
                g,
                #[trigger] backward_walk(g, q, v, k)[i + 1],
                backward_walk(g, q, v, k)[i],
            ),
    decreases k,
{
    if k > 0 {
        lemma_backward_walk(g, q, v, (k - 1) as nat);
        let w = backward_walk(g, q, v, (k - 1) as nat);
        let x = w.last();
        assert(0 <= x < g.len() && !listed(q, x));
        let y = predecessor_outside(g, q, x);
        assert(0 <= y < g.len() && !listed(q, y) && has_edge(g, y, x));
        let w2 = backward_walk(g, q, v, k);
        assert(w2 == w.push(y));
        assert forall|i: int| 0 <= i < k implies has_edge(g, #[trigger] w2[i + 1], w2[i]) by {
            if i < k - 1 {
                assert(w2[i + 1] == w[i + 1]);
                assert(w2[i] == w[i]);
            } else {
                assert(w2[i] == x);
                assert(w2[i + 1] == y);
            }
        }
    }
}

/// When the nodes outside `q` include `v` and each has a predecessor outside
/// `q`, the graph has a cycle.
proof fn lemma_unordered_has_cycle(g: Seq<Seq<usize>>, q: Seq<usize>, v: int)
    requires
        closed_backwards(g, q),
        0 <= v < g.len(),
        !listed(q, v),
    ensures
        has_cycle(edges_of(g)),
{
    let n = g.len() as int;
    let w = backward_walk(g, q, v, n as nat);
    lemma_backward_walk(g, q, v, n as nat);
    if w.no_duplicates() {
        lemma_distinct_below(w, n);
        assert(false);
    }
    let (i, j) = choose|i: int, j: int|
        0 <= i < w.len() && 0 <= j < w.len() && i != j && w[i] == w[j];
    let lo = if i < j {
        i
    } else {
        j
    };
    let hi = if i < j {
        j
    } else {
        i
    };
    let p = Seq::new((hi - lo + 1) as nat, |t: int| w[hi - t]);
    assert forall|t: int| #![trigger p[t]] 0 <= t < p.len() - 1 implies edges_of(g)(p[t], p[t + 1]) by {
        assert(has_edge(g, w[(hi - t - 1) + 1], w[hi - t - 1]));
    }
    assert(is_cycle(edges_of(g), p));
}

/// Decides whether the graph given by `successors` has no cycle, where
/// `indegree[v]` holds on entry the number of edges into `v`.
///
/// Nodes whose count of edges from unvisited nodes is zero are visited in turn;
/// on return `indegree` holds, for each node, the number of edges into it
/// from nodes that were never visited, and the visited nodes are exactly those
/// whose count ended at zero. Counts only go down.
pub fn is_acyclic(indegree: &mut Vec<usize>, successors: &Vec<Vec<usize>>) -> (acyclic: bool)
    requires
        old(indegree)@.len() == successors@.len(),
        well_formed_lists(successors.deep_view()),
        forall|v: int|
            0 <= v < old(indegree)@.len() ==> old(indegree)@[v] == in_degree(
                successors.deep_view(),
                v,
            ),
    ensures
        final(indegree)@.len() == old(indegree)@.len(),
        acyclic == !has_cycle(edges_of(successors.deep_view())),
        acyclic == (forall|v: int| 0 <= v < final(indegree)@.len() ==> final(indegree)@[v] == 0),
        forall|v: int|
            0 <= v < final(indegree)@.len() ==> #[trigger] final(indegree)@[v] == in_degree_among(
                successors.deep_view(),
                v,
                nodes_with_zero_count(final(indegree)@),
                successors@.len() as int,
            ),
        forall|v: int|
            0 <= v < final(indegree)@.len() ==> #[trigger] final(indegree)@[v] <= old(
                indegree,
            )@[v],
{
    let n = successors.len();
    let ghost g = successors.deep_view();
    assert(g.len() == n);
    let mut queue: Vec<usize> = Vec::new();
    let mut v: usize = 0;
    while v < n
        invariant
            n == g.len(),
            g == successors.deep_view(),
            indegree@ == old(indegree)@,
            indegree@.len() == n,
            v <= n,
            queue@.no_duplicates(),
            forall|i: int| 0 <= i < queue@.len() ==> #[trigger] queue@[i] < v,
            forall|x: int| 0 <= x < v ==> (listed(queue@, x) <==> indegree@[x] == 0),
        decreases n - v,
    {
        if indegree[v] == 0 {
            proof {
                assert(!listed(queue@, v as int)) by {
                    if listed(queue@, v as int) {
                        let i = choose|i: int| 0 <= i < queue@.len() && queue@[i] == v;
                        assert(queue@[i] < v);
                    }
                }
            }
            let ghost qp = queue@;
            queue.push(v);
            proof {
                let last = qp.len() as int;
                assert(queue@[last] == v);
                assert(queue@.no_duplicates()) by {
                    assert forall|i: int, j: int|
                        0 <= i < queue@.len() && 0 <= j < queue@.len() && i != j implies queue@[i]
                        != queue@[j] by {
                        if i < last && j < last {
                            assert(qp[i] != qp[j]);
                        } else if i < last {
                            assert(qp[i] < v);
                        } else if j < last {
                            assert(qp[j] < v);
                        }
                    }
                }
                assert forall|x: int| 0 <= x < v + 1 implies (listed(queue@, x)
                    <==> indegree@[x] == 0) by {
                    if x < v {
                        if listed(queue@, x) {
                            let i = choose|i: int| 0 <= i < queue@.len() && queue@[i] == x;
                            assert(i < last);
                            assert(qp[i] == x);
                            assert(listed(qp, x));
                        }
                        if listed(qp, x) {
                            let i = choose|i: int| 0 <= i < qp.len() && qp[i] == x;
                            assert(queue@[i] == x);
                        }
                    }
                }
            }
        } else {
            proof {
                assert(!listed(queue@, v as int)) by {
                    if listed(queue@, v as int) {
                        let i = choose|i: int| 0 <= i < queue@.len() && queue@[i] == v;
                        assert(queue@[i] < v);
                    }
                }
            }
        }
        v += 1;
    }
    proof {
        assert forall|x: int| 0 <= x < n implies #[trigger] indegree@[x] == in_degree_among(
            g,
            x,
            Set::empty(),
            n as int,
        ) by {
            assert(old(indegree)@[x] == in_degree(successors.deep_view(), x));
        }
        lemma_queue_below(queue@, n as int);
        assert forall|i: int, x: int|
            0 <= i < queue@.len() && #[trigger] has_edge(g, x, queue@[i] as int) implies appears_before(
            queue@,
            i,
            x,
        ) by {
            let w = queue@[i] as int;
            assert(listed(queue@, w));
            assert(indegree@[w] == 0);
            lemma_in_degree_zero(g, w, Set::empty(), n as int, x);
            lemma_occurrences_contains(g[x], w);
        }
    }
    let mut head: usize = 0;
    let ghost mut done: Set<int> = Set::empty();
    while head < queue.len()
        invariant
            n == g.len(),
            g == successors.deep_view(),
            well_formed_lists(g),
            indegree@.len() == n,
            head <= queue@.len() <= n,
            queue@.no_duplicates(),
            forall|i: int| 0 <= i < queue@.len() ==> #[trigger] queue@[i] < n,
            forall|x: int| done.contains(x) <==> appears_before(queue@, head as int, x),
            forall|x: int|
                0 <= x < n ==> #[trigger] indegree@[x] == in_degree_among(g, x, done, n as int),
            forall|x: int| 0 <= x < n ==> (listed(queue@, x) <==> indegree@[x] == 0),
            forall|i: int, x: int|
                0 <= i < queue@.len() && #[trigger] has_edge(g, x, queue@[i] as int)
                    ==> appears_before(queue@, i, x),
        decreases n - head,
    {
        let u = queue[head];
        let ghost done2 = done.insert(u as int);
        let ghost q_head = queue@;
        proof {
            assert(!done.contains(u as int)) by {
                if done.contains(u as int) {
                    let j = choose|j: int| 0 <= j < head && #[trigger] queue@[j] == u as int;
                    assert(queue@[j] == queue@[head as int]);
                }
            }
            assert forall|x: int| 0 <= x < n implies in_degree_among(g, x, done2, n as int)
                + occurrences(g[u as int], x) == in_degree_among(g, x, done, n as int) by {
                lemma_in_degree_exclude(g, x, done, u as int, n as int);
            }
        }
        let succ = &successors[u];
        assert(succ@ == g[u as int]);
        let mut k: usize = 0;
        while k < succ.len()
            invariant
                n == g.len(),
                g == successors.deep_view(),
                well_formed_lists(g),
                succ@ == g[u as int],
                0 <= u < n,
                done2 == done.insert(u as int),
                !done.contains(u as int),
                k <= succ@.len(),
                indegree@.len() == n,
                head < q_head.len(),
                q_head[head as int] == u,
                q_head.len() <= queue@.len() <= n,
                forall|i: int| 0 <= i < q_head.len() ==> queue@[i] == q_head[i],
                queue@.no_duplicates(),
                forall|i: int| 0 <= i < queue@.len() ==> #[trigger] queue@[i] < n,
                forall|x: int| done.contains(x) <==> appears_before(q_head, head as int, x),
                forall|x: int|
                    0 <= x < n ==> #[trigger] indegree@[x] + occurrences(succ@.take(k as int), x)
                        == in_degree_among(g, x, done2, n as int) + occurrences(succ@, x),
                forall|x: int| 0 <= x < n ==> (listed(queue@, x) <==> indegree@[x] == 0),
                forall|i: int, x: int|
                    0 <= i < queue@.len() && #[trigger] has_edge(g, x, queue@[i] as int)
                        ==> appears_before(queue@, i, x),
            decreases succ@.len() - k,
        {
            let w = succ[k];
            proof {
                assert(w < n);
                assert(succ@.take(k + 1).drop_last() =~= succ@.take(k as int));
                lemma_occurrences_take(succ@, k + 1, w as int);
                assert(indegree@[w as int] >= 1);
                assert(!listed(queue@, w as int));
            }
            let ghost q_before = queue@;
            let d = indegree[w] - 1;
            indegree.set(w, d);
            if d == 0 {
                proof {
                    lemma_queue_below(queue@, n as int);
                    if queue@.len() == n {
                        assert(listed(queue@, w as int));
                    }
                }
                queue.push(w);
                proof {
                    let last = q_before.len() as int;
                    assert(queue@[last] == w);
                    assert(queue@.no_duplicates()) by {
                        assert forall|i: int, j: int|
                            0 <= i < queue@.len() && 0 <= j < queue@.len() && i != j implies queue@[i]
                            != queue@[j] by {
                            if i < last && j < last {
                                assert(q_before[i] != q_before[j]);
                            } else if i < last {
                                assert(listed(q_before, q_before[i] as int));
                            } else if j < last {
                                assert(listed(q_before, q_before[j] as int));
                            }
                        }
                    }
                    // every predecessor of `w` is visited or is `u`
                    assert(in_degree_among(g, w as int, done2, n as int) == 0) by {
                        lemma_occurrences_take(succ@, k + 1, w as int);
                    }
                    assert forall|i: int, x: int|
                        0 <= i < queue@.len() && #[trigger] has_edge(
                            g,
                            x,
                            queue@[i] as int,
                        ) implies appears_before(queue@, i, x) by {
                        if i < last {
                            assert(queue@[i] == q_before[i]);
                            assert(appears_before(q_before, i, x));
                            let j = choose|j: int| 0 <= j < i && #[trigger] q_before[j] == x;
                            assert(queue@[j] == x);
                        } else {
                            assert(queue@[i] == w);
                            lemma_occurrences_contains(g[x], w as int);
                            if !done2.contains(x) {
                                lemma_in_degree_zero(g, w as int, done2, n as int, x);
                            }
                            if x == u as int {
                                assert(queue@[head as int] == x);
                            } else {
                                assert(done.contains(x));
                                let j = choose|j: int| 0 <= j < head && #[trigger] q_head[j] == x;
                                assert(queue@[j] == x);
                            }
                        }
                    }
                    assert forall|x: int| 0 <= x < n implies (listed(queue@, x)
                        <==> indegree@[x] == 0) by {
                        if x != w as int {
                            if listed(queue@, x) {
                                let i = choose|i: int|
                                    0 <= i < queue@.len() && queue@[i] == x as usize;
                                assert(q_before[i] == x as usize);
                            }
                            if listed(q_before, x) {
                                let i = choose|i: int|
                                    0 <= i < q_before.len() && q_before[i] == x as usize;
                                assert(queue@[i] == x as usize);
                            }
                        }
                    }
                }
            } else {
                proof {
                    assert forall|i: int, x: int|
                        0 <= i < queue@.len() && #[trigger] has_edge(
                            g,
                            x,
                            queue@[i] as int,
                        ) implies appears_before(queue@, i, x) by {
                        assert(has_edge(g, x, q_before[i] as int));
                    }
                    assert(listed(queue@, w as int) == false) by {
                        if listed(queue@, w as int) {
                            assert(indegree@[w as int] == d);
                        }
                    }
                }
            }
            k += 1;
        }
        proof {
            assert(succ@.take(succ@.len() as int) =~= succ@);
            assert forall|x: int| done2.contains(x) <==> appears_before(queue@, head + 1, x) by {
                if done2.contains(x) {
                    if x == u as int {
                        assert(queue@[head as int] == x);
                    } else {
                        let j = choose|j: int| 0 <= j < head && #[trigger] q_head[j] == x;
                        assert(queue@[j] == x);
                    }
                }
                if appears_before(queue@, head + 1, x) {
                    let j = choose|j: int| 0 <= j < head + 1 && #[trigger] queue@[j] == x;
                    if j < head {
                        assert(q_head[j] == x);
                    }
                }
            }
        }
        head += 1;
        proof {
            done = done2;
            lemma_queue_below(queue@, n as int);
        }
    }
    proof {
        let zero = nodes_with_zero_count(indegree@);
        assert forall|x: int| 0 <= x < n implies (done.contains(x) <==> zero.contains(x)) by {
            if done.contains(x) {
                let j = choose|j: int| 0 <= j < head && #[trigger] queue@[j] == x;
                assert(listed(queue@, x));
            }
            if zero.contains(x) {
                assert(listed(queue@, x));
                let j = choose|j: int| 0 <= j < queue@.len() && queue@[j] == x;
                assert(appears_before(queue@, head as int, x));
            }
        }
        assert forall|v: int| 0 <= v < n implies #[trigger] indegree@[v] == in_degree_among(
            g,
            v,
            zero,
            n as int,
        ) && indegree@[v] <= old(indegree)@[v] by {
            lemma_in_degree_same(g, v, done, zero, n as int);
            lemma_in_degree_at_most_all(g, v, done, n as int);
            assert(old(indegree)@[v] == in_degree(successors.deep_view(), v));
        }
        lemma_queue_below(queue@, n as int);
        if head == n {
            lemma_ordered_has_no_cycle(g, queue@);
            assert forall|v: int| 0 <= v < n implies indegree@[v] == 0 by {
                assert(listed(queue@, v));
            }
        } else {
            if forall|v: int| 0 <= v < n ==> listed(queue@, v) {
                lemma_cover_long(queue@, n as int);
            }
            let missing = choose|v: int| 0 <= v < n && !listed(queue@, v);
            assert(indegree@[missing] != 0);
            assert(closed_backwards(g, queue@)) by {
                assert forall|x: int| 0 <= x < g.len() && !listed(queue@, x) implies exists|
                    y: int,
                |
                    0 <= y < g.len() && !listed(queue@, y) && #[trigger] has_edge(g, y, x) by {
                    assert(indegree@[x] != 0);
                    let y = lemma_in_degree_witness(g, x, done, n as int);
                    lemma_occurrences_contains(g[y], x);
                    assert(has_edge(g, y, x));
                    if listed(queue@, y) {
                        let j = choose|j: int| 0 <= j < queue@.len() && queue@[j] == y as usize;
                        assert(appears_before(queue@, head as int, y));
                    }
                }
            }
            lemma_unordered_has_cycle(g, queue@, missing);
        }
    }
    head == n
}

/// A sequence of numbers below `n` that holds every number below `n` has at
/// least `n` entries.
proof fn lemma_cover_long(q: Seq<usize>, n: int)
    requires
        0 <= n,
        forall|v: int| 0 <= v < n ==> listed(q, v),
    ensures
        q.len() >= n,
{
    let range = set_int_range(0, n);
    lemma_int_range(0, n);
    let s = as_ints(q);
    s.lemma_cardinality_of_set();
    assert(range.subset_of(s.to_set())) by {
        assert forall|v: int| range.contains(v) implies s.to_set().contains(v) by {
            assert(listed(q, v));
            let i = choose|i: int| 0 <= i < q.len() && q[i] == v;
            assert(s[i] == v);
            assert(s.contains(v));
        }
    }
    lemma_len_subset(range, s.to_set());
}

/// The pair `(u, v)` occurs in the edge list `edges`.
pub open spec fn edge_listed(edges: Seq<(usize, usize)>, u: int, v: int) -> bool {
    exists|i: int| 0 <= i < edges.len() && #[trigger] edges[i].0 == u && edges[i].1 == v
}

/// Number of entries of `edges` equal to `(u, v)`.
pub open spec fn pair_count(edges: Seq<(usize, usize)>, u: int, v: int) -> nat
    decreases edges.len(),
{
    if edges.len() == 0 {
        0
    } else {
        pair_count(edges.drop_last(), u, v) + if edges.last().0 == u && edges.last().1 == v {
            1nat
        } else {
            0nat
        }
    }
}

/// Number of entries of `edges` that end at `v`.
pub open spec fn target_count(edges: Seq<(usize, usize)>, v: int) -> nat
    decreases edges.len(),
{
    if edges.len() == 0 {
        0
    } else {
        target_count(edges.drop_last(), v) + if edges.last().1 == v {
            1nat
        } else {
            0nat
        }
    }
}

spec fn pair_count_below(edges: Seq<(usize, usize)>, v: int, m: int) -> nat
    decreases m,
{
    if m <= 0 {
        0
    } else {
        pair_count_below(edges, v, m - 1) + pair_count(edges, m - 1, v)
    }
}

proof fn lemma_target_count_bound(edges: Seq<(usize, usize)>, v: int)
    ensures
        target_count(edges, v) <= edges.len(),
    decreases edges.len(),
{
    if edges.len() > 0 {
        lemma_target_count_bound(edges.drop_last(), v);
    }
}

proof fn lemma_pair_count_listed(edges: Seq<(usize, usize)>, u: int, v: int)
    ensures
        pair_count(edges, u, v) > 0 <==> edge_listed(edges, u, v),
    decreases edges.len(),
{
    if edges.len() > 0 {
        let t = edges.drop_last();
        lemma_pair_count_listed(t, u, v);
        if edge_listed(t, u, v) {
            let j = choose|j: int| 0 <= j < t.len() && #[trigger] t[j].0 == u && t[j].1 == v;
            assert(edges[j] == t[j]);
        }
        if edge_listed(edges, u, v) {
            let j = choose|j: int|
                0 <= j < edges.len() && #[trigger] edges[j].0 == u && edges[j].1 == v;
            if j < edges.len() - 1 {
                assert(t[j] == edges[j]);
            }
        }
    }
}

proof fn lemma_pair_count_below_push(edges: Seq<(usize, usize)>, e: (usize, usize), v: int, m: int)
    ensures
        pair_count_below(edges.push(e), v, m) == pair_count_below(edges, v, m) + if e.1 == v && 0
            <= e.0 < m {
            1nat
        } else {
            0nat
        },
    decreases m,
{
    assert(edges.push(e).drop_last() =~= edges);
    if m > 0 {
        lemma_pair_count_below_push(edges, e, v, m - 1);
    }
}

proof fn lemma_pair_count_below_total(edges: Seq<(usize, usize)>, v: int, n: int)
    requires
        forall|i: int| 0 <= i < edges.len() ==> #[trigger] edges[i].0 < n,
    ensures
        pair_count_below(edges, v, n) == target_count(edges, v),
    decreases edges.len(),
{
    if edges.len() == 0 {
        lemma_pair_count_below_empty(edges, v, n);
    } else {
        let t = edges.drop_last();
        assert forall|i: int| 0 <= i < t.len() implies #[trigger] t[i].0 < n by {
            assert(t[i] == edges[i]);
        }
        lemma_pair_count_below_total(t, v, n);
        assert(t.push(edges.last()) =~= edges);
        lemma_pair_count_below_push(t, edges.last(), v, n);
        assert(edges[edges.len() - 1].0 < n);
    }
}

proof fn lemma_pair_count_below_empty(edges: Seq<(usize, usize)>, v: int, m: int)
    requires
        edges.len() == 0,
    ensures
        pair_count_below(edges, v, m) == 0,
    decreases m,
{
    if m > 0 {
        lemma_pair_count_below_empty(edges, v, m - 1);
    }
}

proof fn lemma_in_degree_from_pairs(
    g: Seq<Seq<usize>>,
    edges: Seq<(usize, usize)>,
    v: int,
    m: int,
)
    requires
        m <= g.len(),
        forall|u: int| 0 <= u < m ==> #[trigger] occurrences(g[u], v) == pair_count(edges, u, v),
    ensures
        in_degree_among(g, v, Set::empty(), m) == pair_count_below(edges, v, m),
    decreases m,
{
    if m > 0 {
        lemma_in_degree_from_pairs(g, edges, v, m - 1);
        assert(occurrences(g[m - 1], v) == pair_count(edges, m - 1, v));
    }
}

/// The successor lists and in-degree counts of the graph on the nodes `0..n`
/// whose edges are the pairs `(from, to)` of `edges`.
pub fn successor_lists(n: usize, edges: &Vec<(usize, usize)>) -> (res: (Vec<usize>, Vec<Vec<usize>>))
    requires
        forall|i: int| 0 <= i < edges@.len() ==> #[trigger] edges@[i].0 < n && edges@[i].1 < n,
    ensures
        res.0@.len() == n,
        res.1@.len() == n,
        well_formed_lists(res.1.deep_view()),
        forall|v: int| 0 <= v < n ==> res.0@[v] == in_degree(res.1.deep_view(), v),
        forall|u: int, v: int|
            has_edge(res.1.deep_view(), u, v) <==> 0 <= u < n && 0 <= v < n && edge_listed(
                edges@,
                u,
                v,
            ),
{
    let ghost e = edges@;
    let mut indegree: Vec<usize> = Vec::new();
    let mut v: usize = 0;
    while v < n
        invariant
            v <= n,
            indegree@.len() == v,
            forall|x: int| 0 <= x < v ==> indegree@[x] == 0,
        decreases n - v,
    {
        indegree.push(0);
        v += 1;
    }
    let mut i: usize = 0;
    while i < edges.len()
        invariant
            e == edges@,
            forall|j: int| 0 <= j < e.len() ==> #[trigger] e[j].0 < n && e[j].1 < n,
            i <= e.len(),
            indegree@.len() == n,
            forall|x: int| 0 <= x < n ==> #[trigger] indegree@[x] == target_count(e.take(i as int), x),
        decreases e.len() - i,
    {
        let to = edges[i].1;
        assert(e.take(i + 1).drop_last() =~= e.take(i as int));
        proof {
            assert(e[i as int].0 < n);
            lemma_target_count_bound(e.take(i as int), to as int);
        }
        let d = indegree[to] + 1;
        indegree.set(to, d);
        i += 1;
    }
    assert(e.take(e.len() as int) =~= e);
    let mut successors: Vec<Vec<usize>> = Vec::new();
    let mut u: usize = 0;
    while u < n
        invariant
            e == edges@,
            forall|j: int| 0 <= j < e.len() ==> #[trigger] e[j].0 < n && e[j].1 < n,
            u <= n,
            successors@.len() == u,
            forall|a: int, k: int|
                0 <= a < u && 0 <= k < successors@[a]@.len() ==> #[trigger] successors@[a]@[k] < n,
            forall|a: int, x: int|
                0 <= a < u ==> #[trigger] occurrences(successors@[a]@, x) == pair_count(e, a, x),
        decreases n - u,
    {
        let mut list: Vec<usize> = Vec::new();
        let mut i: usize = 0;
        while i < edges.len()
            invariant
                e == edges@,
                forall|j: int| 0 <= j < e.len() ==> #[trigger] e[j].0 < n && e[j].1 < n,
                i <= e.len(),
                u < n,
                forall|k: int| 0 <= k < list@.len() ==> #[trigger] list@[k] < n,
                forall|x: int| #[trigger]
                    occurrences(list@, x) == pair_count(e.take(i as int), u as int, x),
            decreases e.len() - i,
        {
            assert(e.take(i + 1).drop_last() =~= e.take(i as int));
            let (from, to) = edges[i];
            if from == u {
                let ghost before = list@;
                list.push(to);
                proof {
                    assert forall|x: int| #[trigger] occurrences(list@, x) == pair_count(
                        e.take(i + 1),
                        u as int,
                        x,
                    ) by {
                        lemma_occurrences_push(before, to, x);
                    }
                }
            }
            i += 1;
        }
        assert(e.take(e.len() as int) =~= e);
        successors.push(list);
        u += 1;
    }
    let ghost g = successors.deep_view();
    proof {
        assert forall|a: int| 0 <= a < n implies #[trigger] g[a] == successors@[a]@ by {}
        assert(well_formed_lists(g)) by {
            assert forall|a: int, k: int| 0 <= a < g.len() && 0 <= k < g[a].len() implies #[trigger] g[a][k] < g.len() by {
                assert(g[a] == successors@[a]@);
                assert(successors@[a]@[k] < n);
            }
        }
        assert forall|x: int| 0 <= x < n implies indegree@[x] == in_degree(g, x) by {
            assert forall|a: int| 0 <= a < n implies #[trigger] occurrences(g[a], x) == pair_count(e, a, x) by {
                assert(g[a] == successors@[a]@);
            }
            lemma_in_degree_from_pairs(g, e, x, n as int);
            lemma_pair_count_below_total(e, x, n as int);
        }
        assert forall|a: int, x: int| has_edge(g, a, x) <==> 0 <= a < n && 0 <= x < n && edge_listed(e, a, x) by {
            if 0 <= a < n {
                assert(g[a] == successors@[a]@);
                lemma_occurrences_contains(g[a], x);
                lemma_pair_count_listed(e, a, x);
            }
        }
    }
    (indegree, successors)
}

proof fn lemma_walk_increases(edge: spec_fn(int, int) -> bool, p: Seq<int>, t: int)
    requires
        is_walk(edge, p),
        1 <= t < p.len(),
        forall|u: int, v: int| #[trigger] edge(u, v) ==> u < v,
    ensures
        p[0] < p[t],
    decreases t,
{
    assert(edge(p[t - 1], p[t]));
    if t > 1 {
        lemma_walk_increases(edge, p, t - 1);
    }
}

/// A relation whose every edge leads from a smaller node to a larger one has
/// no cycle.
pub proof fn lemma_forward_edges_acyclic(edge: spec_fn(int, int) -> bool)
    requires
        forall|u: int, v: int| #[trigger] edge(u, v) ==> u < v,
    ensures
        !has_cycle(edge),
{
    if has_cycle(edge) {
        let p = choose|p: Seq<int>| #[trigger] is_cycle(edge, p);
        lemma_walk_increases(edge, p, p.len() - 1);
    }
}

/// A map of nodes that carries every edge of `from` onto an edge of `onto`
/// carries every cycle of `from` onto a cycle of `onto`.
pub proof fn lemma_cycle_maps(
    from: spec_fn(int, int) -> bool,
    onto: spec_fn(int, int) -> bool,
    node_map: Seq<int>,
)
    requires
        forall|u: int, v: int|
            #[trigger] from(u, v) ==> 0 <= u < node_map.len() && 0 <= v < node_map.len() && onto(
                node_map[u],
                node_map[v],
            ),
    ensures
        has_cycle(from) ==> has_cycle(onto),
{
    if has_cycle(from) {
        let p = choose|p: Seq<int>| #[trigger] is_cycle(from, p);
        assert(from(p[0], p[1]));
        assert forall|t: int| 0 <= t < p.len() implies 0 <= #[trigger] p[t] < node_map.len() by {
            if t < p.len() - 1 {
                assert(from(p[t], p[t + 1]));
            } else {
                assert(from(p[t - 1], p[t]));
            }
        }
        let q = Seq::new(p.len(), |t: int| node_map[p[t]]);
        assert forall|t: int| #![trigger q[t]] 0 <= t < q.len() - 1 implies onto(q[t], q[t + 1]) by {
            assert(from(p[t], p[t + 1]));
        }
        assert(is_cycle(onto, q));
    }
}

} // verus!
