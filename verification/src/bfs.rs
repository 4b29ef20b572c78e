//! Shortest-path distance engine: breadth-first traversal from a start node,
//! recording for every reachable node its minimum hop-count distance.
//!
//! The specification is stated over level sets: `reach(g, s, k)` is the set of
//! nodes within `k` hops of `s`, and a node is "at level `k`" when `k` is the
//! first step at which it appears. That first level is exactly the shortest
//! hop-count distance in an unweighted graph.

use vstd::prelude::*;

use crate::error::AnalysisError;
use crate::graph::RelationshipGraph;

verus! {

/// The nodes one edge away from the set `s`.
pub open spec fn step(g: RelationshipGraph, s: Set<int>) -> Set<int> {
    Set::new(|v: int| exists|u: int| #[trigger] s.contains(u) && g.edge(u, v))
}

/// The nodes within `k` hops of `src`.
pub open spec fn reach(g: RelationshipGraph, src: int, k: nat) -> Set<int>
    decreases k,
{
    if k == 0 {
        set![src]
    } else {
        reach(g, src, (k - 1) as nat).union(step(g, reach(g, src, (k - 1) as nat)))
    }
}

/// `v` first appears `k` hops away from `src`: its shortest distance is `k`.
pub open spec fn at_level(g: RelationshipGraph, src: int, v: int, k: nat) -> bool {
    reach(g, src, k).contains(v) && (k == 0 || !reach(g, src, (k - 1) as nat).contains(v))
}

/// `v` can be reached from `src` in some number of hops.
pub open spec fn reachable(g: RelationshipGraph, src: int, v: int) -> bool {
    exists|k: nat| reach(g, src, k).contains(v)
}

/// The shortest hop-count distance from `src` to `v` (meaningful when
/// `reachable(g, src, v)` holds; levels are unique by `lemma_level_unique`).
pub open spec fn hop_distance(g: RelationshipGraph, src: int, v: int) -> nat {
    choose|k: nat| at_level(g, src, v, k)
}

/// How many of the nodes `0..m` are reachable from `src`.
pub open spec fn visited_upto(g: RelationshipGraph, src: int, m: int) -> nat
    decreases m,
{
    if m <= 0 {
        0
    } else {
        visited_upto(g, src, m - 1) + if reachable(g, src, m - 1) {
            1nat
        } else {
            0nat
        }
    }
}

/// The sum of the shortest distances from `src` to the reachable nodes `0..m`.
pub open spec fn total_upto(g: RelationshipGraph, src: int, m: int) -> nat
    decreases m,
{
    if m <= 0 {
        0
    } else {
        total_upto(g, src, m - 1) + if reachable(g, src, m - 1) {
            hop_distance(g, src, m - 1)
        } else {
            0nat
        }
    }
}

/// The recorded hop count of a distance entry.
pub open spec fn dist_val(o: Option<usize>) -> nat {
    match o {
        Some(k) => k as nat,
        None => 0,
    }
}

/// An exact ratio of two integers; the denominator is never zero where the
/// library produces one.
#[derive(Debug, Clone, Copy, PartialEq, Eq, Structural)]
pub struct Ratio {
    pub num: u128,
    pub den: u128,
}

/// Outcome of one breadth-first traversal.
///
/// `dist[v]` is `Some(k)` iff node `v` is reachable from the start and its
/// shortest hop distance is `k`; `total` sums those distances, `visited`
/// counts the reachable nodes (start included), and `avg` is the mean
/// distance to each *other* visited node — `total / (visited - 1)`, or `0/1`
/// when the start is isolated.
#[derive(Debug)]
pub struct DistanceResult {
    pub dist: Vec<Option<usize>>,
    pub total: u128,
    pub visited: usize,
    pub avg: Ratio,
}

/// The average-distance ratio owed for a traversal from node `s`:
/// `total / (visited - 1)`, or `0/1` when no other node is reachable.
pub open spec fn avg_of(g: RelationshipGraph, s: int) -> Ratio {
    if visited_upto(g, s, g.n()) <= 1 {
        Ratio { num: 0, den: 1 }
    } else {
        Ratio {
            num: total_upto(g, s, g.n()) as u128,
            den: (visited_upto(g, s, g.n()) - 1) as u128,
        }
    }
}

/// What a correct traversal from node `s` reports.
pub open spec fn distance_result_ok(g: RelationshipGraph, s: int, r: DistanceResult) -> bool {
    &&& r.dist@.len() == g.n()
    &&& forall|v: int| 0 <= v < g.n() ==> ((#[trigger] r.dist@[v]) is Some <==> reachable(g, s, v))
    &&& forall|v: int|
        0 <= v < g.n() && (#[trigger] r.dist@[v]) is Some ==> at_level(g, s, v, dist_val(r.dist@[v]))
            && dist_val(r.dist@[v]) == hop_distance(g, s, v)
    &&& r.visited == visited_upto(g, s, g.n())
    &&& r.visited >= 1
    &&& r.total == total_upto(g, s, g.n())
    &&& r.avg.num == if r.visited <= 1 { 0int } else { r.total as int }
    &&& r.avg.den == if r.visited <= 1 { 1int } else { r.visited - 1 }
}

/// Everything within `k` hops is a node of the graph.
pub proof fn lemma_reach_bounded(g: RelationshipGraph, src: int, k: nat)
    requires
        0 <= src < g.n(),
    ensures
        forall|v: int| #[trigger] reach(g, src, k).contains(v) ==> 0 <= v < g.n(),
    decreases k,
{
    if k > 0 {
        lemma_reach_bounded(g, src, (k - 1) as nat);
        assert forall|v: int| #[trigger] reach(g, src, k).contains(v) implies 0 <= v < g.n() by {
            if !reach(g, src, (k - 1) as nat).contains(v) {
                assert(step(g, reach(g, src, (k - 1) as nat)).contains(v));
                let u = choose|u: int|
                    #[trigger] reach(g, src, (k - 1) as nat).contains(u) && g.edge(u, v);
            }
        }
    }
}

/// Level sets only grow with the hop bound.
pub proof fn lemma_reach_mono(g: RelationshipGraph, src: int, k1: nat, k2: nat)
    requires
        k1 <= k2,
    ensures
        forall|v: int| #[trigger] reach(g, src, k1).contains(v) ==> reach(g, src, k2).contains(v),
    decreases k2,
{
    if k1 < k2 {
        lemma_reach_mono(g, src, k1, (k2 - 1) as nat);
    }
}

/// A node is at one level only: its shortest distance is well defined.
pub proof fn lemma_level_unique(g: RelationshipGraph, src: int, v: int, k1: nat, k2: nat)
    requires
        at_level(g, src, v, k1),
        at_level(g, src, v, k2),
    ensures
        k1 == k2,
{
    if k1 < k2 {
        lemma_reach_mono(g, src, k1, (k2 - 1) as nat);
    }
    if k2 < k1 {
        lemma_reach_mono(g, src, k2, (k1 - 1) as nat);
    }
}

/// A node within `k` hops has a first level, no later than `k`.
pub proof fn lemma_at_level_exists(g: RelationshipGraph, src: int, v: int, k: nat)
    requires
        reach(g, src, k).contains(v),
    ensures
        exists|k2: nat| k2 <= k && #[trigger] at_level(g, src, v, k2),
    decreases k,
{
    if k == 0 {
        assert(at_level(g, src, v, 0));
    } else if reach(g, src, (k - 1) as nat).contains(v) {
        lemma_at_level_exists(g, src, v, (k - 1) as nat);
        let k2 = choose|k2: nat| k2 <= k - 1 && #[trigger] at_level(g, src, v, k2);
        assert(k2 <= k && at_level(g, src, v, k2));
    } else {
        assert(at_level(g, src, v, k));
    }
}

/// A node's first level is its hop distance.
pub proof fn lemma_hop_of_level(g: RelationshipGraph, src: int, v: int, k: nat)
    requires
        at_level(g, src, v, k),
    ensures
        reachable(g, src, v),
        hop_distance(g, src, v) == k,
{
    assert(reach(g, src, k).contains(v));
    let k2 = choose|k2: nat| at_level(g, src, v, k2);
    assert(at_level(g, src, v, k2));
    lemma_level_unique(g, src, v, k, k2);
}

/// A node first reached at hop `d + 1` has a neighbor at level `d`.
proof fn lemma_parent_at_level(g: RelationshipGraph, src: int, d: nat, v: int)
    requires
        reach(g, src, (d + 1) as nat).contains(v),
        !reach(g, src, d).contains(v),
    ensures
        exists|u: int| #[trigger] at_level(g, src, u, d) && g.edge(u, v),
{
    assert(step(g, reach(g, src, d)).contains(v));
    let u = choose|u: int| #[trigger] reach(g, src, d).contains(u) && g.edge(u, v);
    if d == 0 {
        assert(at_level(g, src, u, 0) && g.edge(u, v));
    } else {
        lemma_at_level_exists(g, src, u, d);
        let k = choose|k: nat| k <= d && #[trigger] at_level(g, src, u, k);
        if k < d {
            lemma_reach_mono(g, src, k, (d - 1) as nat);
            assert(reach(g, src, (d - 1) as nat).contains(u));
            assert(step(g, reach(g, src, (d - 1) as nat)).contains(v));
            assert(reach(g, src, d).contains(v));
            assert(false);
        }
        assert(at_level(g, src, u, d) && g.edge(u, v));
    }
}

/// Once one more hop adds nothing, no number of hops ever will.
proof fn lemma_reach_stable(g: RelationshipGraph, src: int, m: nat, k: nat)
    requires
        reach(g, src, (m + 1) as nat) == reach(g, src, m),
        m <= k,
    ensures
        reach(g, src, k) == reach(g, src, m),
    decreases k,
{
    if m < k {
        lemma_reach_stable(g, src, m, (k - 1) as nat);
        assert(reach(g, src, k) =~= reach(g, src, (m + 1) as nat));
    }
}

/// How many entries of the distance table are filled.
pub open spec fn count_some(s: Seq<Option<usize>>) -> nat
    decreases s.len(),
{
    if s.len() == 0 {
        0
    } else {
        count_some(s.drop_last()) + if s.last() is Some {
            1nat
        } else {
            0nat
        }
    }
}

proof fn lemma_count_some_le(s: Seq<Option<usize>>)
    ensures
        count_some(s) <= s.len(),
    decreases s.len(),
{
    if s.len() > 0 {
        lemma_count_some_le(s.drop_last());
    }
}

proof fn lemma_count_some_all_none(s: Seq<Option<usize>>)
    requires
        forall|i: int| 0 <= i < s.len() ==> (#[trigger] s[i]) is None,
    ensures
        count_some(s) == 0,
    decreases s.len(),
{
    if s.len() > 0 {
        lemma_count_some_all_none(s.drop_last());
    }
}

/// Filling an empty slot raises the count by one.
proof fn lemma_count_some_update(s: Seq<Option<usize>>, i: int, x: Option<usize>)
    requires
        0 <= i < s.len(),
        s[i] is None,
        x is Some,
    ensures
        count_some(s.update(i, x)) == count_some(s) + 1,
    decreases s.len(),
{
    if i == s.len() - 1 {
        assert(s.update(i, x).drop_last() =~= s.drop_last());
    } else {
        assert(s.update(i, x).drop_last() =~= s.drop_last().update(i, x));
        lemma_count_some_update(s.drop_last(), i, x);
    }
}

/// A range of nodes containing the start has at least one reachable node.
proof fn lemma_visited_lower(g: RelationshipGraph, src: int, m: int)
    requires
        0 <= src < m,
    ensures
        visited_upto(g, src, m) >= 1,
    decreases m,
{
    if src == m - 1 {
        assert(reach(g, src, 0).contains(src));
    } else {
        lemma_visited_lower(g, src, m - 1);
    }
}

/// The level sets of a node with no neighbors never grow past the node.
proof fn lemma_isolated_reach(g: RelationshipGraph, s: int, k: nat)
    requires
        0 <= s < g.n(),
        g.adj@[s]@.len() == 0,
    ensures
        reach(g, s, k) =~= set![s],
    decreases k,
{
    if k > 0 {
        lemma_isolated_reach(g, s, (k - 1) as nat);
        assert forall|v: int| reach(g, s, k).contains(v) implies v == s by {
            if !reach(g, s, (k - 1) as nat).contains(v) {
                assert(step(g, reach(g, s, (k - 1) as nat)).contains(v));
                let u = choose|u: int|
                    #[trigger] reach(g, s, (k - 1) as nat).contains(u) && g.edge(u, v);
                assert(u == s);
                assert(g.adj@[s]@.contains(v as usize));
            }
        }
        assert(reach(g, s, k).contains(s));
    }
}

/// When only the start itself is reachable, exactly one node in any index
/// range containing it is counted.
proof fn lemma_visited_only_start(g: RelationshipGraph, s: int, b: int)
    requires
        forall|v: int| #[trigger] reachable(g, s, v) ==> v == s,
        reachable(g, s, s),
        0 <= s,
    ensures
        visited_upto(g, s, b) == if s < b {
            1int
        } else {
            0int
        },
    decreases b,
{
    if b > 0 {
        lemma_visited_only_start(g, s, b - 1);
    }
}

/// An isolated node — one with no neighbors — visits only itself, and its
/// average distance is the zero ratio.
pub proof fn lemma_isolated_average(g: RelationshipGraph, s: int)
    requires
        0 <= s < g.n(),
        g.adj@[s]@.len() == 0,
    ensures
        visited_upto(g, s, g.n()) == 1,
        avg_of(g, s) == (Ratio { num: 0, den: 1 }),
{
    assert forall|v: int| #[trigger] reachable(g, s, v) implies v == s by {
        let k = choose|k: nat| reach(g, s, k).contains(v);
        lemma_isolated_reach(g, s, k);
        assert(set![s].contains(v));
    }
    assert(reach(g, s, 0).contains(s));
    lemma_visited_only_start(g, s, g.n());
}

/// The start node's own distance is zero — it never counts toward the total
/// the way a discovered node does — and each direct neighbor's distance is
/// exactly one. Together with `lemma_level_unique` (a node has one level
/// only, so it is recorded once and never revisited) this pins the engine's
/// bookkeeping at the first two levels.
pub proof fn lemma_distance_to_self_and_neighbors(
    g: RelationshipGraph,
    s: int,
    r: DistanceResult,
)
    requires
        g.wf(),
        0 <= s < g.n(),
        distance_result_ok(g, s, r),
    ensures
        r.dist@[s] == Some(0usize),
        forall|v: int| g.edge(s, v) && v != s ==> r.dist@[v] == Some(1usize),
{
    assert(reach(g, s, 0).contains(s));
    assert(at_level(g, s, s, 0));
    assert(r.dist@[s] is Some);
    lemma_level_unique(g, s, s, 0, dist_val(r.dist@[s]));
    assert forall|v: int| g.edge(s, v) && v != s implies r.dist@[v] == Some(1usize) by {
        assert(step(g, reach(g, s, 0)).contains(v));
        assert(reach(g, s, 1).contains(v));
        assert(!reach(g, s, 0).contains(v));
        assert(at_level(g, s, v, 1));
        assert(r.dist@[v] is Some);
        lemma_level_unique(g, s, v, 1, dist_val(r.dist@[v]));
    }
}

/// Breadth-first traversal from node index `src`.
///
/// Processes the graph level by level with a two-frontier scheme; each node is
/// discovered and enqueued at most once (its table entry is filled exactly
/// when it is first seen), and the traversal terminates on cyclic graphs.
pub fn bfs_from(g: &RelationshipGraph, src: usize) -> (r: DistanceResult)
    requires
        g.wf(),
        (src as int) < g.n(),
    ensures
        distance_result_ok(*g, src as int, r),
{
    let n = g.names.len();
    let mut dist: Vec<Option<usize>> = Vec::new();
    for i in 0..n
        invariant
            dist@.len() == i,
            forall|q: int| 0 <= q < i ==> (#[trigger] dist@[q]) is None,
    {
        dist.push(None);
    }
    proof {
        lemma_count_some_all_none(dist@);
        lemma_count_some_update(dist@, src as int, Some(0usize));
    }
    dist[src] = Some(0);
    let mut frontier: Vec<usize> = Vec::new();
    frontier.push(src);
    let mut d: usize = 0;
    proof {
        assert(frontier@[0] == src);
        assert(frontier@.contains(src));
        assert forall|u: usize| #[trigger] frontier@.contains(u) implies u == src by {
            let q = choose|q: int| 0 <= q < frontier@.len() && frontier@[q] == u;
            assert(q == 0);
        }
        assert(set![src as int].contains(src as int));
        assert(reach(*g, src as int, 0) =~= set![src as int]);
    }
    while frontier.len() > 0
        invariant
            g.wf(),
            (src as int) < g.n(),
            n == g.n(),
            dist@.len() == n,
            forall|v: int|
                0 <= v < n ==> ((#[trigger] dist@[v]) is Some <==> reach(
                    *g,
                    src as int,
                    d as nat,
                ).contains(v)),
            forall|v: int|
                0 <= v < n && (#[trigger] dist@[v]) is Some ==> at_level(
                    *g,
                    src as int,
                    v,
                    dist_val(dist@[v]),
                ),
            forall|u: usize|
                #[trigger] frontier@.contains(u) <==> at_level(*g, src as int, u as int, d as nat),
            frontier@.len() > 0 ==> d + 1 <= count_some(dist@),
            frontier@.len() == 0 ==> d >= 1,
            count_some(dist@) <= n,
        decreases n - count_some(dist@), frontier@.len(),
    {
        let ghost count_entry = count_some(dist@);
        let mut next: Vec<usize> = Vec::new();
        let new_d = d + 1;
        for fi in 0..frontier.len()
            invariant
                g.wf(),
                (src as int) < g.n(),
                n == g.n(),
                dist@.len() == n,
                new_d == d + 1,
                d + 1 <= count_entry,
                count_some(dist@) == count_entry + next@.len(),
                count_some(dist@) <= n,
                forall|u: usize|
                    #[trigger] frontier@.contains(u) <==> at_level(
                        *g,
                        src as int,
                        u as int,
                        d as nat,
                    ),
                forall|v: int|
                    0 <= v < n ==> ((#[trigger] dist@[v]) is Some <==> (reach(
                        *g,
                        src as int,
                        d as nat,
                    ).contains(v) || next@.contains(v as usize))),
                forall|v: int|
                    0 <= v < n && (#[trigger] dist@[v]) is Some ==> at_level(
                        *g,
                        src as int,
                        v,
                        dist_val(dist@[v]),
                    ),
                forall|u: usize|
                    #[trigger] next@.contains(u) ==> at_level(
                        *g,
                        src as int,
                        u as int,
                        (d + 1) as nat,
                    ),
                forall|q: int, v: int|
                    0 <= q < fi && 0 <= v < n && g.edge((#[trigger] frontier@[q]) as int, v) ==> (
                    #[trigger] dist@[v]) is Some,
        {
            let u = frontier[fi];
            proof {
                assert(frontier@.contains(u));
                assert(at_level(*g, src as int, u as int, d as nat));
                lemma_reach_bounded(*g, src as int, d as nat);
                assert((u as int) < g.n());
            }
            let row = &g.adj[u];
            proof {
                assert forall|j: int| 0 <= j < row@.len() implies ((#[trigger] row@[j]) as int)
                    < n by {
                    assert(g.adj@[u as int]@.contains(row@[j]));
                }
            }
            for t in 0..row.len()
                invariant
                    forall|j: int| 0 <= j < row@.len() ==> ((#[trigger] row@[j]) as int) < n,
                    g.wf(),
                    (src as int) < g.n(),
                    n == g.n(),
                    dist@.len() == n,
                    new_d == d + 1,
                    d + 1 <= count_entry,
                    count_some(dist@) == count_entry + next@.len(),
                    count_some(dist@) <= n,
                    (u as int) < g.n(),
                    fi < frontier@.len(),
                    frontier@[fi as int] == u,
                    at_level(*g, src as int, u as int, d as nat),
                    row@ == g.adj@[u as int]@,
                    forall|w: usize|
                        #[trigger] frontier@.contains(w) <==> at_level(
                            *g,
                            src as int,
                            w as int,
                            d as nat,
                        ),
                    forall|v: int|
                        0 <= v < n ==> ((#[trigger] dist@[v]) is Some <==> (reach(
                            *g,
                            src as int,
                            d as nat,
                        ).contains(v) || next@.contains(v as usize))),
                    forall|v: int|
                        0 <= v < n && (#[trigger] dist@[v]) is Some ==> at_level(
                            *g,
                            src as int,
                            v,
                            dist_val(dist@[v]),
                        ),
                    forall|w: usize|
                        #[trigger] next@.contains(w) ==> at_level(
                            *g,
                            src as int,
                            w as int,
                            (d + 1) as nat,
                        ),
                    forall|q: int, v: int|
                        0 <= q < fi && 0 <= v < n && g.edge((#[trigger] frontier@[q]) as int, v) ==> (
                        #[trigger] dist@[v]) is Some,
                    forall|j: int|
                        0 <= j < t ==> (#[trigger] dist@[row@[j] as int]) is Some,
            {
                let v: usize = row[t];
                proof {
                    assert(g.adj@[u as int]@[t as int] == v);
                    assert(g.adj@[u as int]@.contains(v));
                    assert((v as int) < g.n());
                    assert(g.edge(u as int, v as int));
                }
                if dist[v].is_none() {
                    let ghost dist0 = dist@;
                    let ghost next0 = next@;
                    proof {
                        lemma_count_some_update(dist@, v as int, Some(new_d));
                        // `v` enters at level d + 1: one step past `u`'s level.
                        assert(reach(*g, src as int, d as nat).contains(u as int));
                        assert(step(*g, reach(*g, src as int, d as nat)).contains(v as int));
                        assert(reach(*g, src as int, (d + 1) as nat).contains(v as int));
                        assert(!reach(*g, src as int, d as nat).contains(v as int));
                        assert(at_level(*g, src as int, v as int, (d + 1) as nat));
                    }
                    dist[v] = Some(new_d);
                    next.push(v);
                    proof {
                        assert(next@ =~= next0.push(v));
                        assert forall|w: usize| #[trigger] next@.contains(w) implies at_level(
                            *g,
                            src as int,
                            w as int,
                            (d + 1) as nat,
                        ) by {
                            crate::graph::lemma_push_contains(next0, v, w);
                        }
                        assert forall|w: int|
                            0 <= w < n && (#[trigger] dist@[w]) is Some implies (reach(
                            *g,
                            src as int,
                            d as nat,
                        ).contains(w) || next@.contains(w as usize)) by {
                            crate::graph::lemma_push_contains(next0, v, w as usize);
                        }
                        assert forall|w: int|
                            0 <= w < n && (reach(*g, src as int, d as nat).contains(w)
                                || next@.contains(w as usize)) implies (#[trigger] dist@[w]) is Some by {
                            crate::graph::lemma_push_contains(next0, v, w as usize);
                        }
                        lemma_count_some_le(dist@);
                    }
                }
                proof {
                    assert(row@[t as int] == v);
                    assert(dist@[v as int] is Some);
                }
            }
        }
        proof {
            // Everything at level d + 1 was discovered: its level-d parent sat
            // in the frontier, and every frontier node's row was scanned.
            assert forall|v: int|
                0 <= v < n && reach(*g, src as int, (d + 1) as nat).contains(v) implies (
            #[trigger] dist@[v]) is Some by {
                if !reach(*g, src as int, d as nat).contains(v) {
                    lemma_parent_at_level(*g, src as int, d as nat, v);
                    let u = choose|u: int|
                        #[trigger] at_level(*g, src as int, u, d as nat) && g.edge(u, v);
                    lemma_reach_bounded(*g, src as int, d as nat);
                    assert(0 <= u < g.n());
                    assert(frontier@.contains(u as usize));
                    let q = choose|q: int| 0 <= q < frontier@.len() && frontier@[q] == u as usize;
                    assert(g.edge(frontier@[q] as int, v));
                }
            }
            assert forall|v: int|
                0 <= v < n && (#[trigger] dist@[v]) is Some implies reach(
                *g,
                src as int,
                (d + 1) as nat,
            ).contains(v) by {
                if reach(*g, src as int, d as nat).contains(v) {
                    lemma_reach_mono(*g, src as int, d as nat, (d + 1) as nat);
                }
            }
            assert forall|u: usize| at_level(*g, src as int, u as int, (d + 1) as nat)
                implies #[trigger] next@.contains(u) by {
                lemma_reach_bounded(*g, src as int, (d + 1) as nat);
                assert(0 <= (u as int) && (u as int) < n);
                assert(dist@[u as int] is Some);
            }
        }
        frontier = next;
        d = new_d;
        proof {
            lemma_count_some_le(dist@);
        }
    }
    // The frontier emptied: the level sets have stabilized, so the filled
    // entries are exactly the reachable nodes.
    proof {
        assert(d >= 1);
        assert forall|v: int| reach(*g, src as int, d as nat).contains(v) implies reach(
            *g,
            src as int,
            (d - 1) as nat,
        ).contains(v) by {
            lemma_reach_bounded(*g, src as int, d as nat);
            if !reach(*g, src as int, (d - 1) as nat).contains(v) {
                assert(at_level(*g, src as int, v, d as nat));
                assert(frontier@.contains(v as usize));
            }
        }
        lemma_reach_mono(*g, src as int, (d - 1) as nat, d as nat);
        assert(reach(*g, src as int, ((d - 1) + 1) as nat) =~= reach(*g, src as int, (d
            - 1) as nat));
        assert forall|v: int| 0 <= v < n implies ((#[trigger] dist@[v]) is Some <==> reachable(
            *g,
            src as int,
            v,
        )) by {
            if reachable(*g, src as int, v) {
                let k = choose|k: nat| reach(*g, src as int, k).contains(v);
                if k <= d {
                    lemma_reach_mono(*g, src as int, k, d as nat);
                } else {
                    lemma_reach_stable(*g, src as int, (d - 1) as nat, k);
                }
                assert(reach(*g, src as int, d as nat).contains(v));
            }
            if dist@[v] is Some {
                assert(reach(*g, src as int, d as nat).contains(v));
            }
        }
        assert forall|v: int| 0 <= v < n && (#[trigger] dist@[v]) is Some implies dist_val(
            dist@[v],
        ) == hop_distance(*g, src as int, v) by {
            lemma_hop_of_level(*g, src as int, v, dist_val(dist@[v]));
        }
    }
    // Tally the reachable nodes and the sum of their distances.
    let mut total: u128 = 0;
    let mut visited: usize = 0;
    for v in 0..n
        invariant
            n == g.n(),
            (src as int) < g.n(),
            dist@.len() == n,
            forall|w: int|
                0 <= w < n ==> ((#[trigger] dist@[w]) is Some <==> reachable(*g, src as int, w)),
            forall|w: int|
                0 <= w < n && (#[trigger] dist@[w]) is Some ==> at_level(
                    *g,
                    src as int,
                    w,
                    dist_val(dist@[w]),
                ) && dist_val(dist@[w]) == hop_distance(*g, src as int, w),
            visited == visited_upto(*g, src as int, v as int),
            visited <= v,
            total == total_upto(*g, src as int, v as int),
            total <= (v as u128) * (usize::MAX as u128),
    {
        proof {
            assert((v as u128 + 1) * (usize::MAX as u128) <= u128::MAX && (v as u128) * (
            usize::MAX as u128) + (usize::MAX as u128) == (v as u128 + 1) * (usize::MAX as u128))
                by (nonlinear_arith)
                requires
                    v as u128 + 1 <= usize::MAX as u128,
                    usize::MAX as u128 <= u64::MAX as u128,
            ;
        }
        match dist[v] {
            Some(k) => {
                total = total + (k as u128);
                visited = visited + 1;
            },
            None => {},
        }
    }
    proof {
        lemma_visited_lower(*g, src as int, n as int);
    }
    let avg = if visited <= 1 {
        Ratio { num: 0, den: 1 }
    } else {
        Ratio { num: total, den: (visited - 1) as u128 }
    };
    DistanceResult { dist, total, visited, avg }
}

/// Breadth-first distances from the node named `start`.
///
/// Fails with `UnknownNode` exactly when no node of the graph carries that
/// username; otherwise reports the traversal from the unique node so named.
pub fn bfs_distance(g: &RelationshipGraph, start: &str) -> (r: Result<
    DistanceResult,
    AnalysisError,
>)
    requires
        g.wf(),
    ensures
        match r {
            Ok(res) => (exists|s: int| 0 <= s < g.n() && g.names@[s]@ == start@) && forall|s: int|
                0 <= s < g.n() && g.names@[s]@ == start@ ==> distance_result_ok(*g, s, res),
            Err(e) => e == AnalysisError::UnknownNode && forall|s: int|
                0 <= s < g.n() ==> g.names@[s]@ != start@,
        },
{
    match g.find_node(start) {
        Some(s) => {
            let res = bfs_from(g, s);
            proof {
                assert forall|s2: int|
                    0 <= s2 < g.n() && g.names@[s2]@ == start@ implies s2 == s as int by {}
            }
            Ok(res)
        },
        None => Err(AnalysisError::UnknownNode),
    }
}

} // verus!
