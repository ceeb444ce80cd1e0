//! Builds the per-request passphrase graph from a dictionary and an
//! ordered list of prefix choices, one per passphrase position.
//!
//! Level `i` holds one node per word of prefix `i`'s bucket. Between
//! consecutive levels every word pair is connected: with the plain rank
//! cost when corpus bigram adjacency backs the pair, and with a heavy
//! penalty added otherwise, so paths along genuine adjacencies always
//! cost less, all else equal. The first transition also charges the
//! source word's rank, so a whole path pays each word's rank once.

use crate::codec::decode_spec;
use crate::dict::{filter_indices, Dictionary};
use crate::error::GraphError;
use crate::graph::EphemeralPassphraseGraph;
use vstd::prelude::*;
use vstd::string::StringExecFns;

verus! {

/// The penalty a fallback edge pays over a bigram edge.
pub const ONE_GRAM_INCREMENTAL_COST: u64 = 1_000_000;

/// Whether the corpus saw `w2` follow `w1`, with `w2` kept by the
/// prefix filter `pf`.
pub open spec fn spec_bigram(dict: &Dictionary, w1: u32, w2: u32, pf: Seq<char>) -> bool {
    filter_indices(
        dict.spec_words(),
        decode_spec(dict.spec_successor_bytes(w1 as int)),
        pf,
    ).contains(w2)
}

/// The cost of the edge from `w1` (at level `lvl`) to `w2`: the ranks
/// favour frequent words, the penalty favours bigram adjacency.
pub open spec fn spec_pair_cost(dict: &Dictionary, lvl: u32, w1: u32, w2: u32, pf: Seq<char>) -> int {
    let base: int = if lvl == 0 {
        w1 + w2
    } else {
        w2 as int
    };
    if spec_bigram(dict, w1, w2, pf) {
        base
    } else {
        base + ONE_GRAM_INCREMENTAL_COST
    }
}

/// How many nodes the graph for the prefix choices `pids` holds.
pub open spec fn spec_total_nodes(dict: &Dictionary, pids: Seq<usize>) -> int
    decreases pids.len(),
{
    if pids.len() == 0 {
        0
    } else {
        spec_total_nodes(dict, pids.drop_last()) + dict.spec_bucket(pids.last() as int).len()
    }
}

/// Node totals grow with the number of levels.
pub proof fn lemma_total_nodes_mono(dict: &Dictionary, pids: Seq<usize>, i: int, j: int)
    requires
        dict.wf(),
        0 <= i <= j <= pids.len(),
        forall|t: int| 0 <= t < pids.len() ==> #[trigger] pids[t] < dict.spec_prefix_count(),
    ensures
        spec_total_nodes(dict, pids.subrange(0, i)) <= spec_total_nodes(dict, pids.subrange(0, j)),
    decreases j - i,
{
    if i < j {
        lemma_total_nodes_mono(dict, pids, i + 1, j);
        let a = pids.subrange(0, i);
        let b = pids.subrange(0, i + 1);
        assert(b.drop_last() =~= a);
        assert(b.last() == pids[i]);
        assert(spec_total_nodes(dict, b) == spec_total_nodes(dict, a) + dict.spec_bucket(
            pids[i] as int,
        ).len());
    }
}

/// The node id of the `k`-th word of level `lv`, given the level
/// offsets.
pub open spec fn node_id(offsets: Seq<u32>, lv: int, k: int) -> int {
    offsets[lv] + k
}

/// The nodes of `g` are exactly one per bucket entry per level, laid
/// out level by level at the given offsets.
pub open spec fn nodes_built(
    dict: &Dictionary,
    pids: Seq<usize>,
    g: &EphemeralPassphraseGraph,
    offsets: Seq<u32>,
) -> bool {
    &&& offsets.len() == pids.len()
    &&& g.spec_node_count() == spec_total_nodes(dict, pids)
    &&& forall|lv: int|
        0 <= lv < pids.len() ==> #[trigger] offsets[lv] as int == spec_total_nodes(
            dict,
            pids.subrange(0, lv),
        )
    &&& forall|lv: int, k: int|
        0 <= lv < pids.len() && 0 <= k < dict.spec_bucket(pids[lv] as int).len() ==> {
            let n = #[trigger] node_id(offsets, lv, k);
            &&& n < g.spec_node_count()
            &&& g.spec_level_of(n) == lv
            &&& g.spec_word_of(n) == dict.spec_bucket(pids[lv] as int)[k]
        }
    &&& forall|n: int|
        0 <= n < g.spec_node_count() ==> {
            let lv = #[trigger] g.spec_level_of(n) as int;
            &&& lv < pids.len()
            &&& offsets[lv] <= n
            &&& n - offsets[lv] < dict.spec_bucket(pids[lv] as int).len()
            &&& g.spec_word_of(n) == dict.spec_bucket(pids[lv] as int)[n - offsets[lv]]
        }
}

/// Node layout only depends on the node tables, not on the edges.
proof fn lemma_nodes_built_stable(
    dict: &Dictionary,
    pids: Seq<usize>,
    g1: &EphemeralPassphraseGraph,
    g2: &EphemeralPassphraseGraph,
    offsets: Seq<u32>,
)
    requires
        nodes_built(dict, pids, g1, offsets),
        g2.spec_levels() == g1.spec_levels(),
        g2.spec_words() == g1.spec_words(),
    ensures
        nodes_built(dict, pids, g2, offsets),
{
    assert forall|lv: int, k: int|
        0 <= lv < pids.len() && 0 <= k < dict.spec_bucket(pids[lv] as int).len() implies {
        let n = #[trigger] node_id(offsets, lv, k);
        &&& n < g2.spec_node_count()
        &&& g2.spec_level_of(n) == lv
        &&& g2.spec_word_of(n) == dict.spec_bucket(pids[lv] as int)[k]
    } by {
        let n = node_id(offsets, lv, k);
        assert(n < g1.spec_node_count());
        assert(g2.spec_level_of(n) == g1.spec_level_of(n));
        assert(g2.spec_word_of(n) == g1.spec_word_of(n));
    }
    assert forall|n: int| 0 <= n < g2.spec_node_count() implies {
        let lv = #[trigger] g2.spec_level_of(n) as int;
        &&& lv < pids.len()
        &&& offsets[lv] <= n
        &&& n - offsets[lv] < dict.spec_bucket(pids[lv] as int).len()
        &&& g2.spec_word_of(n) == dict.spec_bucket(pids[lv] as int)[n - offsets[lv]]
    } by {
        assert(g2.spec_level_of(n) == g1.spec_level_of(n));
        assert(g2.spec_word_of(n) == g1.spec_word_of(n));
        assert(g1.spec_level_of(n) == g1.spec_level_of(n));
    }
}

/// Whether `x` counts as fully wired when level `i`, position `ak` is
/// next in line.
pub open spec fn node_done(
    g: &EphemeralPassphraseGraph,
    offsets: Seq<u32>,
    x: int,
    i: int,
    ak: int,
) -> bool {
    g.spec_level_of(x) < i || (g.spec_level_of(x) == i && x - offsets[i] < ak)
}

/// The edges of `g` are exactly those of its fully wired nodes, one to
/// every node of the next level, each carrying the model cost.
pub open spec fn edges_done_upto(
    dict: &Dictionary,
    pids: Seq<usize>,
    g: &EphemeralPassphraseGraph,
    offsets: Seq<u32>,
    i: int,
    ak: int,
) -> bool {
    &&& forall|x: int, y: int|
        0 <= x < g.spec_node_count() && 0 <= y < g.spec_node_count()
            ==> (#[trigger] g.spec_has_edge(x, y) <==> (g.spec_level_of(y) == g.spec_level_of(x) + 1
            && node_done(g, offsets, x, i, ak)))
    &&& forall|x: int, y: int|
        0 <= x < g.spec_node_count() && 0 <= y < g.spec_node_count() && #[trigger] g.spec_has_edge(
            x,
            y,
        ) ==> g.spec_edge_weight(x, y) as int == spec_pair_cost(
            dict,
            g.spec_level_of(x),
            g.spec_word_of(x),
            g.spec_word_of(y),
            dict.spec_prefix_at(pids[g.spec_level_of(x) as int + 1] as int),
        )
}

/// Whether `v` holds `x`.
fn vec_contains(v: &Vec<u32>, x: u32) -> (r: bool)
    ensures
        r == v@.contains(x),
{
    let mut k: usize = 0;
    while k < v.len()
        invariant
            k <= v@.len(),
            forall|m: int| 0 <= m < k ==> v@[m] != x,
        decreases v@.len() - k,
    {
        if v[k] == x {
            return true;
        }
        k = k + 1;
    }
    false
}

/// Builds the layered graph for the given prefix choices, with its
/// level-0 nodes (sources) and its last-level nodes (sinks).
#[verifier::rlimit(100)]
pub fn build_passphrase_graph(dict: &Dictionary, prefix_ids: &Vec<usize>) -> (r: Result<
    (EphemeralPassphraseGraph, Vec<u32>, Vec<u32>),
    GraphError,
>)
    requires
        dict.wf(),
        1 <= prefix_ids@.len() <= u32::MAX,
        forall|t: int| 0 <= t < prefix_ids@.len() ==> #[trigger] prefix_ids@[t] < dict.spec_prefix_count(),
    ensures
        match r {
            Ok((g, sources, sinks)) => {
                let l = prefix_ids@.len() as int;
                &&& g.wf()
                &&& g.spec_node_count() == spec_total_nodes(dict, prefix_ids@)
                &&& forall|n: int|
                    0 <= n < g.spec_node_count() ==> #[trigger] g.spec_level_of(n) < l
                &&& forall|n: int|
                    0 <= n < g.spec_node_count() ==> 1 <= #[trigger] g.spec_word_of(n)
                        <= dict.spec_word_count()
                &&& forall|n: int|
                    0 <= n < g.spec_node_count() ==> dict.spec_bucket(
                        prefix_ids@[#[trigger] g.spec_level_of(n) as int] as int,
                    ).contains(g.spec_word_of(n))
                &&& forall|a: int|
                    0 <= a < g.spec_node_count() && #[trigger] g.spec_level_of(a) + 1 < l
                        ==> exists|b: u32|
                        b < g.spec_node_count() && #[trigger] g.spec_has_edge(a, b as int)
                &&& forall|a: int, b: int|
                    0 <= a < g.spec_node_count() && 0 <= b < g.spec_node_count()
                        && #[trigger] g.spec_level_of(b) == #[trigger] g.spec_level_of(a) + 1
                        ==> g.spec_has_edge(a, b)
                &&& forall|a: int, b: int|
                    0 <= a < g.spec_node_count() && 0 <= b < g.spec_node_count()
                        && #[trigger] g.spec_has_edge(a, b) ==> {
                        &&& g.spec_level_of(b) == g.spec_level_of(a) + 1
                        &&& g.spec_edge_weight(a, b) as int == spec_pair_cost(
                            dict,
                            g.spec_level_of(a),
                            g.spec_word_of(a),
                            g.spec_word_of(b),
                            dict.spec_prefix_at(prefix_ids@[g.spec_level_of(a) as int + 1] as int),
                        )
                    }
                &&& sources@.len() == dict.spec_bucket(prefix_ids@[0] as int).len()
                &&& forall|k: int|
                    0 <= k < sources@.len() ==> {
                        let n = #[trigger] sources@[k];
                        &&& n < g.spec_node_count()
                        &&& g.spec_level_of(n as int) == 0
                        &&& g.spec_word_of(n as int) == dict.spec_bucket(prefix_ids@[0] as int)[k]
                    }
                &&& sinks@.len() == dict.spec_bucket(prefix_ids@[l - 1] as int).len()
                &&& forall|k: int|
                    0 <= k < sinks@.len() ==> {
                        let n = #[trigger] sinks@[k];
                        &&& n < g.spec_node_count()
                        &&& g.spec_level_of(n as int) == l - 1
                        &&& g.spec_word_of(n as int) == dict.spec_bucket(
                            prefix_ids@[l - 1] as int,
                        )[k]
                    }
            },
            Err(e) => e is BuildError && spec_total_nodes(dict, prefix_ids@) > u32::MAX,
        },
{
    let l = prefix_ids.len();
    let mut g = EphemeralPassphraseGraph::new();
    let mut offsets: Vec<u32> = Vec::new();
    // one node per bucket entry, level by level
    let mut i: usize = 0;
    proof {
        assert(prefix_ids@.subrange(0, 0) =~= Seq::<usize>::empty());
    }
    while i < l
        invariant
            dict.wf(),
            g.wf(),
            l == prefix_ids@.len(),
            1 <= l <= u32::MAX,
            forall|t: int|
                0 <= t < prefix_ids@.len() ==> #[trigger] prefix_ids@[t]
                    < dict.spec_prefix_count(),
            i <= l,
            nodes_built(dict, prefix_ids@.subrange(0, i as int), &g, offsets@),
            forall|x: int, y: int|
                0 <= x < g.spec_node_count() && 0 <= y < g.spec_node_count()
                    ==> !#[trigger] g.spec_has_edge(x, y),
        decreases l - i,
    {
        let ghost pre = prefix_ids@.subrange(0, i as int);
        let ghost post = prefix_ids@.subrange(0, i as int + 1);
        proof {
            assert(post.drop_last() =~= pre);
            assert(post.last() == prefix_ids@[i as int]);
        }
        let off = g.node_count();
        let ghost o0 = offsets@;
        offsets.push(off);
        let bucket = dict.bucket_at(prefix_ids[i]);
        proof {
            assert forall|lv: int| 0 <= lv < i as int + 1 implies #[trigger] offsets@[lv] as int
                == spec_total_nodes(dict, prefix_ids@.subrange(0, lv)) by {
                if lv < i as int {
                    assert(offsets@[lv] == o0[lv]);
                    assert(pre.subrange(0, lv) =~= prefix_ids@.subrange(0, lv));
                } else {
                    assert(pre =~= prefix_ids@.subrange(0, i as int));
                }
            }
            assert forall|lv: int, kk: int|
                0 <= lv < i as int && 0 <= kk < dict.spec_bucket(pre[lv] as int).len() implies {
                let n = #[trigger] node_id(offsets@, lv, kk);
                &&& n < off
                &&& g.spec_level_of(n) == lv
                &&& g.spec_word_of(n) == dict.spec_bucket(pre[lv] as int)[kk]
            } by {
                assert(offsets@[lv] == o0[lv]);
                assert(node_id(o0, lv, kk) == o0[lv] + kk);
                assert(node_id(offsets@, lv, kk) == node_id(o0, lv, kk));
                assert(node_id(o0, lv, kk) < g.spec_node_count());
                assert(g.spec_level_of(node_id(o0, lv, kk)) == lv);
                lemma_total_nodes_mono(dict, pre, lv + 1, i as int);
                assert(pre.subrange(0, i as int) =~= pre);
                assert(pre.subrange(0, lv + 1).drop_last() =~= pre.subrange(0, lv));
                assert(pre.subrange(0, lv + 1).last() == pre[lv]);
                assert(spec_total_nodes(dict, pre.subrange(0, lv + 1)) == spec_total_nodes(
                    dict,
                    pre.subrange(0, lv),
                ) + dict.spec_bucket(pre[lv] as int).len());
            }
        }
        let mut k: usize = 0;
        while k < bucket.len()
            invariant
                dict.wf(),
                g.wf(),
                l == prefix_ids@.len(),
                1 <= l <= u32::MAX,
                forall|t: int|
                    0 <= t < prefix_ids@.len() ==> #[trigger] prefix_ids@[t]
                        < dict.spec_prefix_count(),
                i < l,
                pre == prefix_ids@.subrange(0, i as int),
                post == prefix_ids@.subrange(0, i as int + 1),
                bucket@ == dict.spec_bucket(prefix_ids@[i as int] as int),
                k <= bucket@.len(),
                offsets@.len() == i + 1,
                offsets@[i as int] == off,
                off as int == spec_total_nodes(dict, pre),
                g.spec_node_count() == off + k,
                forall|lv: int|
                    0 <= lv < i as int + 1 ==> #[trigger] offsets@[lv] as int == spec_total_nodes(
                        dict,
                        prefix_ids@.subrange(0, lv),
                    ),
                forall|lv: int, kk: int|
                    0 <= lv < i as int && 0 <= kk < dict.spec_bucket(pre[lv] as int).len() ==> {
                        let n = #[trigger] node_id(offsets@, lv, kk);
                        &&& n < off
                        &&& g.spec_level_of(n) == lv
                        &&& g.spec_word_of(n) == dict.spec_bucket(pre[lv] as int)[kk]
                    },
                forall|n: int|
                    0 <= n < off ==> {
                        let lv = #[trigger] g.spec_level_of(n) as int;
                        &&& lv < i as int
                        &&& offsets@[lv] <= n
                        &&& n - offsets@[lv] < dict.spec_bucket(pre[lv] as int).len()
                        &&& g.spec_word_of(n) == dict.spec_bucket(pre[lv] as int)[n - offsets@[lv]]
                    },
                forall|n: int|
                    off <= n < g.spec_node_count() ==> #[trigger] g.spec_level_of(n) == i
                        && g.spec_word_of(n) == bucket@[n - off],
                forall|x: int, y: int|
                    0 <= x < g.spec_node_count() && 0 <= y < g.spec_node_count()
                        ==> !#[trigger] g.spec_has_edge(x, y),
            decreases bucket@.len() - k,
        {
            if g.node_count() == u32::MAX {
                proof {
                    lemma_total_nodes_mono(dict, prefix_ids@, i as int + 1, l as int);
                    assert(prefix_ids@.subrange(0, l as int) =~= prefix_ids@);
                    assert(post.drop_last() =~= pre);
                    assert(post.last() == prefix_ids@[i as int]);
                    assert(spec_total_nodes(dict, post) == spec_total_nodes(dict, pre)
                        + bucket@.len());
                    assert(spec_total_nodes(dict, post) > u32::MAX);
                }
                return Err(
                    GraphError::BuildError(String::from_str("too many words for one graph")),
                );
            }
            let ghost oldg = g;
            g.add_node(i as u32, bucket[k]);
            proof {
                assert forall|n: int| 0 <= n < oldg.spec_node_count() implies #[trigger] g.spec_level_of(
                    n,
                ) == oldg.spec_level_of(n) && g.spec_word_of(n) == oldg.spec_word_of(n) by {
                    assert(g.spec_levels()[n] == oldg.spec_levels()[n]);
                    assert(g.spec_words()[n] == oldg.spec_words()[n]);
                }
                assert forall|x: int, y: int|
                    0 <= x < g.spec_node_count() && 0 <= y < g.spec_node_count() implies !#[trigger] g.spec_has_edge(
                    x,
                    y,
                ) by {
                    if g.spec_has_edge(x, y) {
                        let e = choose|kk: int|
                            0 <= kk < g.spec_adj()[x].len() && (#[trigger] g.spec_adj()[x][kk]).0
                                == y;
                        if x < oldg.spec_node_count() {
                            assert(g.spec_adj()[x] == oldg.spec_adj()[x]);
                            assert(oldg.spec_has_edge(x, y));
                        } else {
                            assert(g.spec_adj()[x].len() == 0);
                        }
                    }
                }
            }
            k = k + 1;
        }
        i = i + 1;
        proof {
            assert(spec_total_nodes(dict, post) == spec_total_nodes(dict, pre) + bucket@.len());
            assert(prefix_ids@.subrange(0, i as int) == post);
            assert(nodes_built(dict, post, &g, offsets@)) by {
                assert(g.spec_node_count() == spec_total_nodes(dict, post));
                assert forall|lv: int| 0 <= lv < post.len() implies #[trigger] offsets@[lv] as int
                    == spec_total_nodes(dict, post.subrange(0, lv)) by {
                    assert(post.subrange(0, lv) =~= prefix_ids@.subrange(0, lv));
                }
                assert forall|lv: int, kk: int|
                    0 <= lv < post.len() && 0 <= kk < dict.spec_bucket(post[lv] as int).len()
                    implies {
                    let n = #[trigger] node_id(offsets@, lv, kk);
                    &&& n < g.spec_node_count()
                    &&& g.spec_level_of(n) == lv
                    &&& g.spec_word_of(n) == dict.spec_bucket(post[lv] as int)[kk]
                } by {
                    assert(node_id(offsets@, lv, kk) == offsets@[lv] + kk);
                    if lv < i as int - 1 {
                        assert(pre[lv] == post[lv]);
                        assert(dict.spec_bucket(pre[lv] as int)[kk] == dict.spec_bucket(
                            post[lv] as int,
                        )[kk]);
                    } else {
                        assert(post[lv] == prefix_ids@[i as int - 1]);
                        assert(offsets@[lv] == off);
                        assert(bucket@ == dict.spec_bucket(post[lv] as int));
                        assert(off <= off + kk < g.spec_node_count());
                        assert(g.spec_level_of(off + kk) == i as int - 1);
                        assert(g.spec_word_of(off + kk) == bucket@[kk]);
                    }
                }
                assert forall|n: int| 0 <= n < g.spec_node_count() implies {
                    let lv = #[trigger] g.spec_level_of(n) as int;
                    &&& lv < post.len()
                    &&& offsets@[lv] <= n
                    &&& n - offsets@[lv] < dict.spec_bucket(post[lv] as int).len()
                    &&& g.spec_word_of(n) == dict.spec_bucket(post[lv] as int)[n - offsets@[lv]]
                } by {
                    let lv = g.spec_level_of(n) as int;
                    if n < off {
                        assert(lv < pre.len());
                        assert(pre[lv] == post[lv]);
                    } else {
                        assert(lv == i as int - 1);
                    }
                }
            }
        }
    }
    proof {
        assert(prefix_ids@.subrange(0, l as int) =~= prefix_ids@);
    }
    // wire every consecutive-level pair, preferring bigram adjacency
    let mut i2: usize = 0;
    while i2 < l - 1
        invariant
            dict.wf(),
            g.wf(),
            l == prefix_ids@.len(),
            1 <= l <= u32::MAX,
            forall|t: int|
                0 <= t < prefix_ids@.len() ==> #[trigger] prefix_ids@[t]
                    < dict.spec_prefix_count(),
            i2 <= l - 1,
            offsets@.len() == l,
            nodes_built(dict, prefix_ids@, &g, offsets@),
            edges_done_upto(dict, prefix_ids@, &g, offsets@, i2 as int, 0),
        decreases l - i2,
    {
        let off0 = offsets[i2];
        let off1 = offsets[i2 + 1];
        let b0len: usize = {
            let b = dict.bucket_at(prefix_ids[i2]);
            b.len()
        };
        let b1 = dict.bucket_at(prefix_ids[i2 + 1]);
        let pf1 = dict.prefix_at(prefix_ids[i2 + 1]);
        let mut ak: usize = 0;
        while ak < b0len
            invariant
                dict.wf(),
                g.wf(),
                l == prefix_ids@.len(),
                1 <= l <= u32::MAX,
                forall|t: int|
                    0 <= t < prefix_ids@.len() ==> #[trigger] prefix_ids@[t]
                        < dict.spec_prefix_count(),
                i2 as int + 1 < l,
                offsets@.len() == l,
                off0 == offsets@[i2 as int],
                off1 == offsets@[i2 as int + 1],
                b0len == dict.spec_bucket(prefix_ids@[i2 as int] as int).len(),
                b1@ == dict.spec_bucket(prefix_ids@[i2 as int + 1] as int),
                pf1@ == dict.spec_prefix_at(prefix_ids@[i2 as int + 1] as int),
                ak <= b0len,
                nodes_built(dict, prefix_ids@, &g, offsets@),
                edges_done_upto(dict, prefix_ids@, &g, offsets@, i2 as int, ak as int),
            decreases b0len - ak,
        {
            proof {
                assert(node_id(offsets@, i2 as int, ak as int) == offsets@[i2 as int] + ak);
                assert(node_id(offsets@, i2 as int, ak as int) < g.spec_node_count());
            }
            let a: u32 = off0 + ak as u32;
            proof {
                assert(g.spec_level_of(a as int) == i2 as int);
            }
            let w1 = g.word_of(a);
            let succs = dict.successors_matching(w1, pf1.as_str());
            let mut kb: usize = 0;
            while kb < b1.len()
                invariant
                    dict.wf(),
                    g.wf(),
                    l == prefix_ids@.len(),
                    1 <= l <= u32::MAX,
                    forall|t: int|
                        0 <= t < prefix_ids@.len() ==> #[trigger] prefix_ids@[t]
                            < dict.spec_prefix_count(),
                    i2 as int + 1 < l,
                    offsets@.len() == l,
                    off0 == offsets@[i2 as int],
                    off1 == offsets@[i2 as int + 1],
                    b0len == dict.spec_bucket(prefix_ids@[i2 as int] as int).len(),
                    b1@ == dict.spec_bucket(prefix_ids@[i2 as int + 1] as int),
                    pf1@ == dict.spec_prefix_at(prefix_ids@[i2 as int + 1] as int),
                    ak < b0len,
                    a == off0 + ak,
                    a < g.spec_node_count(),
                    g.spec_level_of(a as int) == i2 as int,
                    w1 == g.spec_word_of(a as int),
                    succs@ == filter_indices(
                        dict.spec_words(),
                        decode_spec(dict.spec_successor_bytes(w1 as int)),
                        pf1@,
                    ),
                    kb <= b1@.len(),
                    nodes_built(dict, prefix_ids@, &g, offsets@),
                    forall|x: int, y: int|
                        0 <= x < g.spec_node_count() && 0 <= y < g.spec_node_count() && x != a as int
                            ==> (#[trigger] g.spec_has_edge(x, y) <==> (g.spec_level_of(y)
                            == g.spec_level_of(x) + 1 && node_done(
                            &g,
                            offsets@,
                            x,
                            i2 as int,
                            ak as int,
                        ))),
                    forall|y: int|
                        0 <= y < g.spec_node_count()
                            ==> (#[trigger] g.spec_has_edge(a as int, y) <==> (off1 <= y < off1
                            + kb)),
                    forall|x: int, y: int|
                        0 <= x < g.spec_node_count() && 0 <= y < g.spec_node_count()
                            && #[trigger] g.spec_has_edge(x, y) ==> g.spec_edge_weight(x, y) as int
                            == spec_pair_cost(
                            dict,
                            g.spec_level_of(x),
                            g.spec_word_of(x),
                            g.spec_word_of(y),
                            dict.spec_prefix_at(prefix_ids@[g.spec_level_of(x) as int + 1] as int),
                        ),
                decreases b1@.len() - kb,
            {
                proof {
                    assert(node_id(offsets@, i2 as int + 1, kb as int) == offsets@[i2 as int + 1]
                        + kb);
                    assert(node_id(offsets@, i2 as int + 1, kb as int) < g.spec_node_count());
                }
                let w2 = b1[kb];
                let b: u32 = off1 + kb as u32;
                proof {
                    assert(g.spec_level_of(b as int) == i2 as int + 1);
                    assert(g.spec_word_of(b as int) == b1@[kb as int]);
                }
                let base: u64 = if i2 == 0 {
                    w1 as u64 + w2 as u64
                } else {
                    w2 as u64
                };
                let cost: u64 = if vec_contains(&succs, w2) {
                    base
                } else {
                    base + ONE_GRAM_INCREMENTAL_COST
                };
                let ghost before = g;
                g.add_edge(a, b, cost);
                proof {
                    lemma_nodes_built_stable(dict, prefix_ids@, &before, &g, offsets@);
                }
                kb = kb + 1;
            }
            ak = ak + 1;
            proof {
                assert(edges_done_upto(dict, prefix_ids@, &g, offsets@, i2 as int, ak as int)) by {
                    assert forall|x: int, y: int|
                        0 <= x < g.spec_node_count() && 0 <= y < g.spec_node_count() implies (
                    #[trigger] g.spec_has_edge(x, y) <==> (g.spec_level_of(y) == g.spec_level_of(x)
                        + 1 && node_done(&g, offsets@, x, i2 as int, ak as int))) by {
                        if x == a as int {
                            assert(g.spec_level_of(x) == i2 as int);
                            assert(x - offsets@[i2 as int] == ak - 1);
                            if g.spec_level_of(y) == g.spec_level_of(x) + 1 {
                                assert(offsets@[i2 as int + 1] <= y && y - offsets@[i2 as int + 1]
                                    < b1@.len());
                                assert(g.spec_has_edge(x, y));
                            }
                            assert(node_id(offsets@, i2 as int, ak as int - 1) == offsets@[i2 as
                                int] + (ak - 1));
                            if g.spec_has_edge(x, y) {
                                assert(off1 <= y < off1 + b1@.len());
                                assert(g.spec_level_of(y) == i2 as int + 1);
                            }
                        }
                    }
                }
            }
        }
        i2 = i2 + 1;
        proof {
            assert(edges_done_upto(dict, prefix_ids@, &g, offsets@, i2 as int, 0)) by {
                assert forall|x: int, y: int|
                    0 <= x < g.spec_node_count() && 0 <= y < g.spec_node_count() implies (
                #[trigger] g.spec_has_edge(x, y) <==> (g.spec_level_of(y) == g.spec_level_of(x) + 1
                    && node_done(&g, offsets@, x, i2 as int, 0))) by {
                    if g.spec_level_of(x) == i2 as int - 1 {
                        assert(x - offsets@[i2 as int - 1] < dict.spec_bucket(
                            prefix_ids@[i2 as int - 1] as int,
                        ).len());
                    }
                }
            }
        }
    }
    // collect sources and sinks
    let b0 = dict.bucket_at(prefix_ids[0]);
    let mut sources: Vec<u32> = Vec::new();
    let mut k: usize = 0;
    proof {
        assert(offsets@[0] as int == spec_total_nodes(dict, prefix_ids@.subrange(0, 0)));
        assert(prefix_ids@.subrange(0, 0) =~= Seq::<usize>::empty());
    }
    while k < b0.len()
        invariant
            dict.wf(),
            g.wf(),
            l == prefix_ids@.len(),
            1 <= l <= u32::MAX,
            offsets@.len() == l,
            offsets@[0] == 0,
            forall|t: int|
                0 <= t < prefix_ids@.len() ==> #[trigger] prefix_ids@[t]
                    < dict.spec_prefix_count(),
            b0@ == dict.spec_bucket(prefix_ids@[0] as int),
            k <= b0@.len(),
            nodes_built(dict, prefix_ids@, &g, offsets@),
            sources@.len() == k,
            forall|m: int|
                0 <= m < k ==> {
                    let n = #[trigger] sources@[m];
                    &&& n < g.spec_node_count()
                    &&& g.spec_level_of(n as int) == 0
                    &&& g.spec_word_of(n as int) == b0@[m]
                },
        decreases b0@.len() - k,
    {
        proof {
            assert(node_id(offsets@, 0, k as int) == offsets@[0] + k);
            assert(node_id(offsets@, 0, k as int) < g.spec_node_count());
        }
        sources.push(k as u32);
        k = k + 1;
    }
    let blast = dict.bucket_at(prefix_ids[l - 1]);
    let offlast = offsets[l - 1];
    let mut sinks: Vec<u32> = Vec::new();
    let mut k2: usize = 0;
    while k2 < blast.len()
        invariant
            dict.wf(),
            g.wf(),
            l == prefix_ids@.len(),
            1 <= l <= u32::MAX,
            offsets@.len() == l,
            offlast == offsets@[l as int - 1],
            forall|t: int|
                0 <= t < prefix_ids@.len() ==> #[trigger] prefix_ids@[t]
                    < dict.spec_prefix_count(),
            blast@ == dict.spec_bucket(prefix_ids@[l as int - 1] as int),
            k2 <= blast@.len(),
            nodes_built(dict, prefix_ids@, &g, offsets@),
            sinks@.len() == k2,
            forall|m: int|
                0 <= m < k2 ==> {
                    let n = #[trigger] sinks@[m];
                    &&& n < g.spec_node_count()
                    &&& g.spec_level_of(n as int) == l - 1
                    &&& g.spec_word_of(n as int) == blast@[m]
                },
        decreases blast@.len() - k2,
    {
        proof {
            assert(node_id(offsets@, l as int - 1, k2 as int) == offsets@[l as int - 1] + k2);
            assert(node_id(offsets@, l as int - 1, k2 as int) < g.spec_node_count());
        }
        sinks.push(offlast + k2 as u32);
        k2 = k2 + 1;
    }
    proof {
        // bucket membership and level inhabitation follow from the layout
        assert forall|n: int| 0 <= n < g.spec_node_count() implies dict.spec_bucket(
            prefix_ids@[#[trigger] g.spec_level_of(n) as int] as int,
        ).contains(g.spec_word_of(n)) by {
            let lv = g.spec_level_of(n) as int;
            let pos = n - offsets@[lv];
            assert(dict.spec_bucket(prefix_ids@[lv] as int)[pos] == g.spec_word_of(n));
        }
        assert forall|n: int| 0 <= n < g.spec_node_count() implies 1 <= #[trigger] g.spec_word_of(n)
            <= dict.spec_word_count() by {
            let lv = g.spec_level_of(n) as int;
            let pos = n - offsets@[lv];
            assert(dict.spec_bucket(prefix_ids@[lv] as int)[pos] == g.spec_word_of(n));
        }
        assert forall|a: int, b: int|
            0 <= a < g.spec_node_count() && 0 <= b < g.spec_node_count()
                && #[trigger] g.spec_level_of(b) == #[trigger] g.spec_level_of(a) + 1
            implies g.spec_has_edge(a, b) by {
            assert(g.spec_level_of(a) < prefix_ids@.len());
            assert(node_done(&g, offsets@, a, l as int - 1, 0));
        }
        assert forall|a: int|
            0 <= a < g.spec_node_count() && #[trigger] g.spec_level_of(a) + 1 < l as int
            implies exists|b: u32|
            b < g.spec_node_count() && #[trigger] g.spec_has_edge(a, b as int) by {
            let lv = g.spec_level_of(a) as int;
            assert(node_id(offsets@, lv + 1, 0) == offsets@[lv + 1] + 0);
            assert(dict.spec_bucket(prefix_ids@[lv + 1] as int).len() >= 1);
            assert(node_id(offsets@, lv + 1, 0) < g.spec_node_count());
            let b0 = offsets@[lv + 1];
            assert(g.spec_level_of(b0 as int) == lv + 1);
            assert(node_done(&g, offsets@, a, l as int - 1, 0));
            assert(g.spec_has_edge(a, b0 as int));
            assert(b0 < g.spec_node_count() && g.spec_has_edge(a, b0 as int));
        }
    }
    Ok((g, sources, sinks))
}

} // verus!
