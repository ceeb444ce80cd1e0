//! Randomized, budgeted cheapest-path search over the passphrase graph.
//!
//! A single-pair search in the Dijkstra style answers "cheapest path
//! from node A to node B". Because the graph has many sources and many
//! sinks, the multi-pair search runs a fixed number of randomized
//! trials, sampling endpoints with a frequency-biased index so common
//! words are favoured, and keeps the cheapest path any trial found.

use crate::graph::{exists_path, is_path, path_cost, sat_add, EphemeralPassphraseGraph};
use crate::rng::{random_below, random_chance};
use vstd::prelude::*;

verus! {

/// How many endpoint pairs one request may try.
pub const MAX_ITERS: u32 = 100;

/// Adds two costs, capping at the largest representable cost.
fn sat_add_u64(a: u64, b: u64) -> (r: u64)
    ensures
        r as int == sat_add(a as int, b as int),
{
    if a > u64::MAX - b {
        u64::MAX
    } else {
        a + b
    }
}

/// Copies a vector of node ids.
fn copy_nodes(v: &Vec<u32>) -> (r: Vec<u32>)
    ensures
        r@ == v@,
{
    let mut out: Vec<u32> = Vec::new();
    let mut k: usize = 0;
    while k < v.len()
        invariant
            k <= v@.len(),
            out@ == v@.subrange(0, k as int),
        decreases v@.len() - k,
    {
        out.push(v[k]);
        proof {
            assert(out@ =~= v@.subrange(0, k as int + 1));
        }
        k = k + 1;
    }
    proof {
        assert(out@ =~= v@);
    }
    out
}

/// How many entries of `s` are set.
spec fn count_true(s: Seq<bool>) -> int
    decreases s.len(),
{
    if s.len() == 0 {
        0
    } else {
        count_true(s.drop_last()) + if s.last() {
            1int
        } else {
            0int
        }
    }
}

proof fn lemma_count_true_le(s: Seq<bool>)
    ensures
        count_true(s) <= s.len(),
    decreases s.len(),
{
    if s.len() > 0 {
        lemma_count_true_le(s.drop_last());
    }
}

proof fn lemma_count_true_update(s: Seq<bool>, j: int)
    requires
        0 <= j < s.len(),
        !s[j],
    ensures
        count_true(s.update(j, true)) == count_true(s) + 1,
    decreases s.len(),
{
    if j == s.len() - 1 {
        assert(s.update(j, true).drop_last() =~= s.drop_last());
    } else {
        assert(s.update(j, true).drop_last() =~= s.drop_last().update(j, true));
        lemma_count_true_update(s.drop_last(), j);
    }
}

proof fn lemma_count_true_lt(s: Seq<bool>, j: int)
    requires
        0 <= j < s.len(),
        !s[j],
    ensures
        count_true(s) < s.len(),
    decreases s.len(),
{
    lemma_count_true_le(s.drop_last());
    if j < s.len() - 1 {
        lemma_count_true_lt(s.drop_last(), j);
    }
}

proof fn lemma_count_true_full(s: Seq<bool>)
    requires
        count_true(s) == s.len(),
    ensures
        forall|j: int| 0 <= j < s.len() ==> s[j],
    decreases s.len(),
{
    if s.len() > 0 {
        lemma_count_true_le(s.drop_last());
        lemma_count_true_full(s.drop_last());
        assert forall|j: int| 0 <= j < s.len() implies s[j] by {
            if j < s.len() - 1 {
                assert(s.drop_last()[j]);
            }
        }
    }
}

/// Extending a path along an edge keeps it a path and adds the edge's
/// weight to its cost.
proof fn lemma_path_extend(g: &EphemeralPassphraseGraph, p: Seq<u32>, s: u32, a: u32, b: u32)
    requires
        g.wf(),
        is_path(g, p, s, a),
        b < g.spec_node_count(),
        g.spec_has_edge(a as int, b as int),
    ensures
        is_path(g, p.push(b), s, b),
        path_cost(g, p.push(b)) == sat_add(
            path_cost(g, p),
            g.spec_edge_weight(a as int, b as int) as int,
        ),
{
    let q = p.push(b);
    assert(q.last() == b);
    assert(q[0] == p[0]);
    assert forall|m: int| 0 <= m < q.len() implies #[trigger] q[m] < g.spec_node_count() by {
        if m < p.len() {
            assert(q[m] == p[m]);
        }
    }
    assert forall|m: int| 0 <= m < q.len() - 1 implies g.spec_has_edge(
        #[trigger] q[m] as int,
        q[m + 1] as int,
    ) by {
        if m < p.len() - 1 {
            assert(q[m] == p[m]);
            assert(q[m + 1] == p[m + 1]);
        } else {
            assert(q[m] == p.last());
            assert(q[m + 1] == b);
        }
    }
    assert(q.drop_last() =~= p);
    assert(q[q.len() - 2] == p.last());
}

/// A node set that holds the start and is closed under edges holds
/// every node a path from the start can end at.
proof fn lemma_path_reached(
    g: &EphemeralPassphraseGraph,
    p: Seq<u32>,
    s: u32,
    t: u32,
    reached: Seq<bool>,
)
    requires
        g.wf(),
        is_path(g, p, s, t),
        reached.len() == g.spec_node_count(),
        reached[s as int],
        forall|j: int, k: int|
            0 <= j < reached.len() && reached[j] && 0 <= k < g.spec_adj()[j].len() ==> reached[(
            #[trigger] g.spec_adj()[j][k]).0 as int],
    ensures
        reached[t as int],
    decreases p.len(),
{
    if p.len() == 1 {
        assert(t == s);
    } else {
        let q = p.drop_last();
        let t2 = p[p.len() - 2];
        assert(is_path(g, q, s, t2)) by {
            assert(q[0] == p[0]);
            assert(q.last() == p[p.len() - 2]);
            assert forall|m: int| 0 <= m < q.len() implies #[trigger] q[m] < g.spec_node_count() by {
                assert(q[m] == p[m]);
            }
            assert forall|m: int| 0 <= m < q.len() - 1 implies g.spec_has_edge(
                #[trigger] q[m] as int,
                q[m + 1] as int,
            ) by {
                assert(q[m] == p[m]);
                assert(q[m + 1] == p[m + 1]);
            }
        }
        lemma_path_reached(g, q, s, t2, reached);
        assert(g.spec_has_edge(t2 as int, t as int));
        let k = choose|k: int|
            0 <= k < g.spec_adj()[t2 as int].len() && (#[trigger] g.spec_adj()[t2 as int][k]).0
                == t as int;
        assert(reached[g.spec_adj()[t2 as int][k].0 as int]);
    }
}

/// Costs along a path never fall below zero.
proof fn lemma_path_cost_nonneg(g: &EphemeralPassphraseGraph, q: Seq<u32>)
    ensures
        path_cost(g, q) >= 0,
    decreases q.len(),
{
    if q.len() > 1 {
        lemma_path_cost_nonneg(g, q.drop_last());
    }
}

/// Dropping the last step never raises the cost.
proof fn lemma_path_cost_prefix(g: &EphemeralPassphraseGraph, q: Seq<u32>)
    requires
        q.len() >= 2,
    ensures
        path_cost(g, q) >= path_cost(g, q.drop_last()),
{
    lemma_path_cost_nonneg(g, q.drop_last());
}

/// Shortening a path by its last node keeps it a path.
proof fn lemma_path_shorten(g: &EphemeralPassphraseGraph, q: Seq<u32>, s: u32, t: u32)
    requires
        g.wf(),
        is_path(g, q, s, t),
        q.len() >= 2,
    ensures
        is_path(g, q.drop_last(), s, q[q.len() - 2]),
        g.spec_has_edge(q[q.len() - 2] as int, t as int),
{
    let r = q.drop_last();
    assert(r[0] == q[0]);
    assert(r.last() == q[q.len() - 2]);
    assert forall|m: int| 0 <= m < r.len() implies #[trigger] r[m] < g.spec_node_count() by {
        assert(r[m] == q[m]);
    }
    assert forall|m: int| 0 <= m < r.len() - 1 implies g.spec_has_edge(
        #[trigger] r[m] as int,
        r[m + 1] as int,
    ) by {
        assert(r[m] == q[m]);
        assert(r[m + 1] == q[m + 1]);
    }
}

/// Costs already settled bound the cost of every path to a settled
/// node.
spec fn settled_costs_minimal(
    g: &EphemeralPassphraseGraph,
    start: u32,
    done: Seq<bool>,
    dist: Seq<u64>,
) -> bool {
    forall|m: int, q: Seq<u32>|
        0 <= m < done.len() && done[m] && #[trigger] is_path(g, q, start, m as u32) ==> path_cost(
            g,
            q,
        ) >= dist[m]
}

/// Every settled node's outgoing edges have been relaxed.
spec fn edges_relaxed(
    g: &EphemeralPassphraseGraph,
    done: Seq<bool>,
    reached: Seq<bool>,
    dist: Seq<u64>,
) -> bool {
    forall|y: int, k: int|
        0 <= y < done.len() && done[y] && 0 <= k < g.spec_adj()[y].len() ==> {
            let e = #[trigger] g.spec_adj()[y][k];
            &&& reached[e.0 as int]
            &&& dist[e.0 as int] as int <= sat_add(dist[y] as int, e.1 as int)
        }
}

/// Any path from a settled start to an unsettled node passes a reached,
/// unsettled node whose recorded cost bounds the path's cost.
proof fn lemma_path_crosses_frontier(
    g: &EphemeralPassphraseGraph,
    q: Seq<u32>,
    start: u32,
    z: u32,
    done: Seq<bool>,
    reached: Seq<bool>,
    dist: Seq<u64>,
)
    requires
        g.wf(),
        done.len() == g.spec_node_count(),
        reached.len() == g.spec_node_count(),
        dist.len() == g.spec_node_count(),
        is_path(g, q, start, z),
        done[start as int],
        !done[z as int],
        settled_costs_minimal(g, start, done, dist),
        edges_relaxed(g, done, reached, dist),
    ensures
        exists|x: int|
            0 <= x < done.len() && reached[x] && !done[x] && #[trigger] dist[x] as int <= path_cost(
                g,
                q,
            ),
    decreases q.len(),
{
    if q.len() == 1 {
        assert(z == start);
        assert(false);
    } else {
        let prev = q[q.len() - 2];
        lemma_path_shorten(g, q, start, z);
        let r = q.drop_last();
        if done[prev as int] {
            assert(is_path(g, r, start, (prev as int) as u32));
            assert(path_cost(g, r) >= dist[prev as int]);
            let k = choose|k: int|
                0 <= k < g.spec_adj()[prev as int].len() && (#[trigger] g.spec_adj()[prev as
                    int][k]).0 == z as int;
            let e = g.spec_adj()[prev as int][k];
            g.lemma_edge_entry(prev as int, k);
            assert(reached[z as int]);
            assert(dist[z as int] as int <= sat_add(dist[prev as int] as int, e.1 as int));
            assert(path_cost(g, q) == sat_add(path_cost(g, r), e.1 as int));
            assert(dist[z as int] as int <= path_cost(g, q));
        } else {
            lemma_path_crosses_frontier(g, r, start, prev, done, reached, dist);
            lemma_path_cost_prefix(g, q);
            let x0 = choose|x: int|
                0 <= x < done.len() && reached[x] && !done[x] && #[trigger] dist[x] as int
                    <= path_cost(g, r);
            assert(dist[x0] as int <= path_cost(g, q));
        }
    }
}

/// Finds the cheapest path from `start` to `goal` by uniform-cost
/// search; returns a path of least capped cost, or `None` exactly when
/// no path at all leads from `start` to `goal`.
pub fn cheapest_path(g: &EphemeralPassphraseGraph, start: u32, goal: u32) -> (r: Option<
    (Vec<u32>, u64),
>)
    requires
        g.wf(),
        start < g.spec_node_count(),
        goal < g.spec_node_count(),
    ensures
        match r {
            Some((p, c)) => {
                &&& is_path(g, p@, start, goal)
                &&& c as int == path_cost(g, p@)
                &&& forall|q: Seq<u32>|
                    #[trigger] is_path(g, q, start, goal) ==> path_cost(g, q) >= c as int
            },
            None => !exists_path(g, start, goal),
        },
{
    let n = g.node_count() as usize;
    let mut reached: Vec<bool> = Vec::new();
    let mut done: Vec<bool> = Vec::new();
    let mut dist: Vec<u64> = Vec::new();
    let mut paths: Vec<Vec<u32>> = Vec::new();
    let mut j: usize = 0;
    while j < n
        invariant
            j <= n,
            reached@.len() == j,
            done@.len() == j,
            dist@.len() == j,
            paths@.len() == j,
            forall|m: int| 0 <= m < j ==> !reached@[m] && !done@[m],
        decreases n - j,
    {
        reached.push(false);
        done.push(false);
        dist.push(0);
        paths.push(Vec::new());
        j = j + 1;
    }
    let mut start_path: Vec<u32> = Vec::new();
    start_path.push(start);
    proof {
        assert(is_path(g, start_path@, start, start));
        assert(count_true(done@) == 0) by {
            lemma_count_all_false(done@);
        }
    }
    reached[start as usize] = true;
    dist[start as usize] = 0;
    paths[start as usize] = start_path;
    let mut processed: usize = 0;
    loop
        invariant
            processed <= n,
            g.wf(),
            n == g.spec_node_count(),
            start < n,
            goal < n,
            reached@.len() == n,
            done@.len() == n,
            dist@.len() == n,
            paths@.len() == n,
            processed == count_true(done@),
            reached@[start as int],
            dist@[start as int] == 0,
            processed == 0 ==> forall|m: int| 0 <= m < n && #[trigger] reached@[m] ==> m == start as int,
            processed > 0 ==> done@[start as int],
            forall|m: int| 0 <= m < n && #[trigger] done@[m] ==> reached@[m],
            forall|m: int|
                0 <= m < n && #[trigger] reached@[m] ==> is_path(g, paths@[m]@, start, m as u32)
                    && path_cost(g, paths@[m]@) == dist@[m] as int,
            settled_costs_minimal(g, start, done@, dist@),
            edges_relaxed(g, done@, reached@, dist@),
        ensures
            forall|m: int| 0 <= m < n && #[trigger] reached@[m] ==> done@[m],
            reached@.len() == n,
            dist@.len() == n,
            paths@.len() == n,
            reached@[start as int],
            forall|m: int|
                0 <= m < n && #[trigger] reached@[m] ==> is_path(g, paths@[m]@, start, m as u32)
                    && path_cost(g, paths@[m]@) == dist@[m] as int,
            settled_costs_minimal(g, start, done@, dist@),
            forall|m: int, k: int|
                0 <= m < n && done@[m] && 0 <= k < g.spec_adj()[m].len() ==> reached@[(
                #[trigger] g.spec_adj()[m][k]).0 as int],
        decreases n - processed,
    {
        // pick the unvisited reached node of least cost
        let mut bestj: usize = n;
        let mut bestd: u64 = 0;
        let mut scan: usize = 0;
        while scan < n
            invariant
                n == reached@.len(),
                n == done@.len(),
                n == dist@.len(),
                scan <= n,
                bestj == n || (bestj < n && reached@[bestj as int] && !done@[bestj as int] && bestd
                    == dist@[bestj as int]),
                bestj == n ==> forall|m: int| 0 <= m < scan ==> !(reached@[m] && !done@[m]),
                forall|m: int|
                    0 <= m < scan && reached@[m] && !done@[m] ==> bestj < n && bestd <= #[trigger] dist@[m],
            decreases n - scan,
        {
            if reached[scan] && !done[scan] {
                if bestj == n || dist[scan] < bestd {
                    bestj = scan;
                    bestd = dist[scan];
                }
            }
            scan = scan + 1;
        }
        if bestj == n {
            proof {
                assert forall|m: int| 0 <= m < n && #[trigger] reached@[m] implies done@[m] by {
                    assert(!(reached@[m] && !done@[m]));
                }
            }
            break;
        }
        proof {
            // the popped node's cost bounds every path that reaches it
            assert forall|q: Seq<u32>| #[trigger] is_path(g, q, start, bestj as u32)
                implies path_cost(g, q) >= dist@[bestj as int] by {
                lemma_path_cost_nonneg(g, q);
                if processed == 0 {
                    assert(q[0] == start);
                    assert(reached@[bestj as int]);
                    assert(bestj as int == start as int);
                } else {
                    lemma_path_crosses_frontier(g, q, start, bestj as u32, done@, reached@, dist@);
                    let x0 = choose|x: int|
                        0 <= x < done@.len() && reached@[x] && !done@[x] && #[trigger] dist@[x] as int
                            <= path_cost(g, q);
                    assert(bestd <= dist@[x0]);
                }
            }
            lemma_count_true_update(done@, bestj as int);
            lemma_count_true_lt(done@, bestj as int);
        }
        let ghost olddone = done@;
        done[bestj] = true;
        processed = processed + 1;
        proof {
            assert(settled_costs_minimal(g, start, done@, dist@)) by {
                assert forall|m: int, q: Seq<u32>|
                    0 <= m < done@.len() && done@[m] && #[trigger] is_path(g, q, start, m as u32)
                    implies path_cost(g, q) >= dist@[m] by {
                    if m == bestj as int {
                        assert((m as u32) == (bestj as u32));
                        assert(is_path(g, q, start, bestj as u32));
                    } else {
                        assert(olddone[m]);
                    }
                }
            }
        }
        // every successor now has a known path of no greater cost
        let edges = g.edges_from(bestj as u32);
        let basecost = dist[bestj];
        let basepath = copy_nodes(&paths[bestj]);
        let mut k: usize = 0;
        while k < edges.len()
            invariant
                g.wf(),
                n == g.spec_node_count(),
                start < n,
                bestj < n,
                edges@ == g.spec_adj()[bestj as int],
                reached@.len() == n,
                done@.len() == n,
                dist@.len() == n,
                paths@.len() == n,
                k <= edges@.len(),
                reached@[bestj as int],
                done@[bestj as int],
                reached@[start as int],
                dist@[start as int] == 0,
                basecost == dist@[bestj as int],
                basepath@ == paths@[bestj as int]@,
                forall|m: int| 0 <= m < n && #[trigger] done@[m] ==> reached@[m],
                forall|m: int|
                    0 <= m < n && #[trigger] reached@[m] ==> is_path(g, paths@[m]@, start, m as u32)
                        && path_cost(g, paths@[m]@) == dist@[m] as int,
                settled_costs_minimal(g, start, done@, dist@),
                forall|y: int, k2: int|
                    0 <= y < n && done@[y] && 0 <= k2 < g.spec_adj()[y].len() && (y != bestj as int
                        || k2 < k) ==> {
                        let e = #[trigger] g.spec_adj()[y][k2];
                        &&& reached@[e.0 as int]
                        &&& dist@[e.0 as int] as int <= sat_add(dist@[y] as int, e.1 as int)
                    },
            decreases edges@.len() - k,
        {
            let (m, w) = edges[k];
            proof {
                assert(g.spec_adj()[bestj as int][k as int].0 == m);
                assert(m < g.spec_node_count());
                assert(g.spec_level_of(m as int) == g.spec_level_of(bestj as int) + 1);
                g.lemma_edge_entry(bestj as int, k as int);
            }
            let nd = sat_add_u64(basecost, w);
            if !reached[m as usize] || nd < dist[m as usize] {
                let mut np = copy_nodes(&basepath);
                np.push(m);
                proof {
                    lemma_path_extend(g, basepath@, start, bestj as u32, m);
                    // a settled node's cost cannot improve: the new path
                    // through the popped node already costs at least it
                    assert(!done@[m as int]) by {
                        if done@[m as int] {
                            assert(is_path(g, np@, start, (m as int) as u32));
                            assert(path_cost(g, np@) >= dist@[m as int]);
                        }
                    }
                    assert(m != bestj) by {
                        if m == bestj {
                            assert(g.spec_level_of(m as int) == g.spec_level_of(bestj as int) + 1);
                        }
                    }
                    assert(basepath@ == paths@[bestj as int]@);
                }
                let ghost olddist = dist@;
                reached[m as usize] = true;
                dist[m as usize] = nd;
                paths[m as usize] = np;
                proof {
                    assert(settled_costs_minimal(g, start, done@, dist@)) by {
                        assert forall|m2: int, q: Seq<u32>|
                            0 <= m2 < done@.len() && done@[m2] && #[trigger] is_path(
                                g,
                                q,
                                start,
                                m2 as u32,
                            ) implies path_cost(g, q) >= dist@[m2] by {
                            assert(dist@[m2] == olddist[m2]);
                        }
                    }
                }
            }
            k = k + 1;
        }
    }
    if reached[goal as usize] {
        let p = copy_nodes(&paths[goal as usize]);
        let c = dist[goal as usize];
        proof {
            assert forall|q: Seq<u32>| #[trigger] is_path(g, q, start, goal) implies path_cost(
                g,
                q,
            ) >= c as int by {
                assert(done@[goal as int]);
                assert(is_path(g, q, start, (goal as int) as u32));
            }
        }
        Some((p, c))
    } else {
        proof {
            assert forall|j2: int, k: int|
                0 <= j2 < reached@.len() && reached@[j2] && 0 <= k < g.spec_adj()[j2].len()
                implies reached@[(#[trigger] g.spec_adj()[j2][k]).0 as int] by {
                assert(done@[j2]);
            }
            if exists_path(g, start, goal) {
                let p = choose|p: Seq<u32>| is_path(g, p, start, goal);
                lemma_path_reached(g, p, start, goal, reached@);
            }
        }
        None
    }
}

/// A sequence of cleared flags has none set.
proof fn lemma_count_all_false(s: Seq<bool>)
    requires
        forall|m: int| 0 <= m < s.len() ==> !s[m],
    ensures
        count_true(s) == 0,
    decreases s.len(),
{
    if s.len() > 0 {
        lemma_count_all_false(s.drop_last());
    }
}

/// A frequency-biased random index below `max`: repeatedly bisect the
/// index range, stepping toward the lower half with high probability,
/// so low (frequent) indices come out far more often.
pub fn weighted_random_index(max: usize) -> (r: usize)
    requires
        1 <= max <= u32::MAX,
    ensures
        r < max,
{
    let mut lo: i64 = 0;
    let mut hi: i64 = max as i64 - 1;
    while lo <= hi
        invariant
            0 <= lo <= max as i64,
            -1 <= hi <= max as i64 - 1,
        decreases hi - lo + 1,
    {
        let mid: i64 = lo + (hi - lo) / 2;
        if random_chance(8, 10) {
            hi = mid - 1;
        } else {
            lo = mid + 1;
        }
    }
    let bound: i64 = if hi < 1 {
        1
    } else {
        hi
    };
    let r = random_below(bound as u64);
    r as usize
}

/// Whether the endpoint pair was already tried.
fn pair_seen(seen: &Vec<(u32, u32)>, s: u32, t: u32) -> (r: bool)
    ensures
        r == seen@.contains((s, t)),
{
    let mut k: usize = 0;
    while k < seen.len()
        invariant
            k <= seen@.len(),
            forall|m: int| 0 <= m < k ==> seen@[m] != (s, t),
        decreases seen@.len() - k,
    {
        if seen[k].0 == s && seen[k].1 == t {
            proof {
                assert(seen@[k as int] == (s, t));
            }
            return true;
        }
        k = k + 1;
    }
    false
}

/// Runs the budgeted randomized search between the given source and
/// sink sets and returns the cheapest path any trial connected, or
/// `None` when no tried pair connects. With a single source and a
/// single sink every trial tries that pair, so a path is found if and
/// only if one exists.
pub fn shortest_path_multiple(
    g: &EphemeralPassphraseGraph,
    starts: &Vec<u32>,
    goals: &Vec<u32>,
) -> (r: Option<(Vec<u32>, u64)>)
    requires
        g.wf(),
        forall|m: int| 0 <= m < starts@.len() ==> #[trigger] starts@[m] < g.spec_node_count(),
        forall|m: int| 0 <= m < goals@.len() ==> #[trigger] goals@[m] < g.spec_node_count(),
    ensures
        match r {
            Some((p, c)) => exists|s: u32, t: u32|
                starts@.contains(s) && goals@.contains(t) && is_path(g, p@, s, t) && c as int
                    == path_cost(g, p@) && (forall|q: Seq<u32>|
                    #[trigger] is_path(g, q, s, t) ==> path_cost(g, q) >= c as int),
            None => true,
        },
        starts@.len() == 0 || goals@.len() == 0 ==> r is None,
        (1 <= starts@.len() <= u32::MAX && 1 <= goals@.len() <= u32::MAX && forall|si: int, ti: int|
            0 <= si < starts@.len() && 0 <= ti < goals@.len() ==> exists_path(
                g,
                #[trigger] starts@[si],
                #[trigger] goals@[ti],
            )) ==> r is Some,
{
    if starts.len() == 0 || goals.len() == 0 {
        return None;
    }
    if starts.len() > (u32::MAX as usize) || goals.len() > (u32::MAX as usize) {
        return None;
    }
    let mut best: Option<(Vec<u32>, u64)> = None;
    let mut seen: Vec<(u32, u32)> = Vec::new();
    let mut it: u32 = 0;
    while it <= MAX_ITERS
        invariant
            g.wf(),
            starts@.len() >= 1,
            goals@.len() >= 1,
            starts@.len() <= u32::MAX,
            goals@.len() <= u32::MAX,
            forall|m: int| 0 <= m < starts@.len() ==> #[trigger] starts@[m] < g.spec_node_count(),
            forall|m: int| 0 <= m < goals@.len() ==> #[trigger] goals@[m] < g.spec_node_count(),
            match best {
                Some((p, c)) => exists|s: u32, t: u32|
                    starts@.contains(s) && goals@.contains(t) && is_path(g, p@, s, t) && c as int
                        == path_cost(g, p@) && (forall|q: Seq<u32>|
                        #[trigger] is_path(g, q, s, t) ==> path_cost(g, q) >= c as int),
                None => true,
            },
            it == 0 ==> seen@.len() == 0,
            (it > 0 && forall|si: int, ti: int|
                0 <= si < starts@.len() && 0 <= ti < goals@.len() ==> exists_path(
                    g,
                    #[trigger] starts@[si],
                    #[trigger] goals@[ti],
                )) ==> best is Some,
        decreases MAX_ITERS + 1 - it,
    {
        let si = weighted_random_index(starts.len());
        let ti = weighted_random_index(goals.len());
        let s = starts[si];
        let t = goals[ti];
        if !pair_seen(&seen, s, t) {
            seen.push((s, t));
            match cheapest_path(g, s, t) {
                Some((p, c)) => {
                    let replace = match &best {
                        Some(bc) => c < bc.1,
                        None => true,
                    };
                    if replace {
                        proof {
                            assert(starts@[si as int] == s);
                            assert(starts@.contains(s));
                            assert(goals@.contains(t));
                        }
                        best = Some((p, c));
                    }
                },
                None => {
                    proof {
                        assert(s == starts@[si as int]);
                        assert(t == goals@[ti as int]);
                    }
                },
            }
        } else {
            proof {
                if it == 0 {
                    assert(seen@.len() == 0);
                    assert(!seen@.contains((s, t)));
                }
            }
        }
        it = it + 1;
    }
    best
}

} // verus!
