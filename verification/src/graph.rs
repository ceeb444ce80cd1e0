//! The ephemeral passphrase graph: a layered, directed, weighted graph
//! whose nodes pair a passphrase position (level) with a word rank.
//!
//! Every edge leads from a node at some level `i` to a node at level
//! `i + 1`, and a pair of nodes carries at most one edge; both facts are
//! part of the type's well-formedness and hold of every graph the
//! methods below can build.

use vstd::prelude::*;

verus! {

/// A request-local layered graph over `(level, word rank)` nodes.
pub struct EphemeralPassphraseGraph {
    levels: Vec<u32>,
    words: Vec<u32>,
    adj: Vec<Vec<(u32, u64)>>,
}

impl EphemeralPassphraseGraph {
    /// The level of each node.
    pub closed spec fn spec_levels(&self) -> Seq<u32> {
        self.levels@
    }

    /// The word rank of each node.
    pub closed spec fn spec_words(&self) -> Seq<u32> {
        self.words@
    }

    /// The outgoing edges of each node, as `(target, weight)` pairs.
    pub closed spec fn spec_adj(&self) -> Seq<Seq<(u32, u64)>> {
        self.adj@.map_values(|v: Vec<(u32, u64)>| v@)
    }

    /// The number of nodes.
    pub open spec fn spec_node_count(&self) -> nat {
        self.spec_levels().len()
    }

    /// The level of node `n`.
    pub open spec fn spec_level_of(&self, n: int) -> u32 {
        self.spec_levels()[n]
    }

    /// The word rank of node `n`.
    pub open spec fn spec_word_of(&self, n: int) -> u32 {
        self.spec_words()[n]
    }

    /// Whether an edge leads from node `a` to node `b`.
    pub open spec fn spec_has_edge(&self, a: int, b: int) -> bool {
        exists|k: int| 0 <= k < self.spec_adj()[a].len() && (#[trigger] self.spec_adj()[a][k]).0 == b
    }

    /// The weight of the edge from node `a` to node `b`.
    pub open spec fn spec_edge_weight(&self, a: int, b: int) -> u64 {
        (self.spec_adj()[a][choose|k: int|
            0 <= k < self.spec_adj()[a].len() && (#[trigger] self.spec_adj()[a][k]).0 == b]).1
    }

    /// In a well-formed graph an adjacency entry determines the edge and
    /// its weight: node pairs carry at most one edge.
    pub proof fn lemma_edge_entry(&self, a: int, k: int)
        requires
            self.wf(),
            0 <= a < self.spec_adj().len(),
            0 <= k < self.spec_adj()[a].len(),
        ensures
            self.spec_has_edge(a, self.spec_adj()[a][k].0 as int),
            self.spec_edge_weight(a, self.spec_adj()[a][k].0 as int) == self.spec_adj()[a][k].1,
    {
        let b = self.spec_adj()[a][k].0;
        assert(self.spec_adj()[a][k].0 == b as int);
        assert(self.spec_has_edge(a, b as int));
        let kc = choose|m: int|
            0 <= m < self.spec_adj()[a].len() && (#[trigger] self.spec_adj()[a][m]).0 == b as int;
        if kc < k {
            assert(self.spec_adj()[a][kc].0 != self.spec_adj()[a][k].0);
        }
        if k < kc {
            assert(self.spec_adj()[a][k].0 != self.spec_adj()[a][kc].0);
        }
        assert(kc == k);
    }

    /// Well-formedness: matching node tables, edges only to the next
    /// level, and at most one edge per node pair.
    pub open spec fn wf(&self) -> bool {
        &&& self.spec_levels().len() == self.spec_words().len()
        &&& self.spec_levels().len() == self.spec_adj().len()
        &&& self.spec_levels().len() <= u32::MAX
        &&& forall|a: int, k: int|
            0 <= a < self.spec_adj().len() && 0 <= k < self.spec_adj()[a].len() ==> {
                let e = (#[trigger] self.spec_adj()[a][k]).0;
                &&& e < self.spec_node_count()
                &&& self.spec_level_of(e as int) == self.spec_level_of(a) + 1
            }
        &&& forall|a: int, k1: int, k2: int|
            0 <= a < self.spec_adj().len() && 0 <= k1 < k2 < self.spec_adj()[a].len()
                ==> (#[trigger] self.spec_adj()[a][k1]).0 != (#[trigger] self.spec_adj()[a][k2]).0
    }

    /// Creates an empty graph.
    pub fn new() -> (g: Self)
        ensures
            g.wf(),
            g.spec_node_count() == 0,
    {
        EphemeralPassphraseGraph { levels: Vec::new(), words: Vec::new(), adj: Vec::new() }
    }

    /// The number of nodes.
    pub fn node_count(&self) -> (n: u32)
        requires
            self.wf(),
        ensures
            n == self.spec_node_count(),
    {
        self.levels.len() as u32
    }

    /// The level of node `n`.
    pub fn level_of(&self, n: u32) -> (l: u32)
        requires
            self.wf(),
            n < self.spec_node_count(),
        ensures
            l == self.spec_level_of(n as int),
    {
        self.levels[n as usize]
    }

    /// The word rank of node `n`.
    pub fn word_of(&self, n: u32) -> (w: u32)
        requires
            self.wf(),
            n < self.spec_node_count(),
        ensures
            w == self.spec_word_of(n as int),
    {
        self.words[n as usize]
    }

    /// The outgoing edges of node `n`.
    pub fn edges_from(&self, n: u32) -> (r: &Vec<(u32, u64)>)
        requires
            self.wf(),
            n < self.spec_node_count(),
        ensures
            r@ == self.spec_adj()[n as int],
    {
        &self.adj[n as usize]
    }

    /// Adds a node at the given level for the given word rank.
    pub fn add_node(&mut self, level: u32, word: u32) -> (id: u32)
        requires
            old(self).wf(),
            old(self).spec_node_count() < u32::MAX,
        ensures
            final(self).wf(),
            id == old(self).spec_node_count(),
            final(self).spec_node_count() == old(self).spec_node_count() + 1,
            final(self).spec_levels() == old(self).spec_levels().push(level),
            final(self).spec_words() == old(self).spec_words().push(word),
            final(self).spec_adj() == old(self).spec_adj().push(Seq::empty()),
            final(self).spec_level_of(id as int) == level,
            final(self).spec_word_of(id as int) == word,
    {
        let id = self.levels.len() as u32;
        self.levels.push(level);
        self.words.push(word);
        self.adj.push(Vec::new());
        proof {
            assert(self.spec_adj() =~= old(self).spec_adj().push(Seq::empty()));
            assert forall|a: int, k: int|
                0 <= a < self.spec_adj().len() && 0 <= k < self.spec_adj()[a].len() implies {
                let e = (#[trigger] self.spec_adj()[a][k]).0;
                &&& e < self.spec_node_count()
                &&& self.spec_level_of(e as int) == self.spec_level_of(a) + 1
            } by {
                assert(a < old(self).spec_adj().len());
                assert(self.spec_adj()[a] == old(self).spec_adj()[a]);
                let e = self.spec_adj()[a][k].0;
                assert(e < old(self).spec_node_count());
            }
            assert forall|a: int, k1: int, k2: int|
                0 <= a < self.spec_adj().len() && 0 <= k1 < k2 < self.spec_adj()[a].len() implies (
            #[trigger] self.spec_adj()[a][k1]).0 != (#[trigger] self.spec_adj()[a][k2]).0 by {
                assert(a < old(self).spec_adj().len());
                assert(self.spec_adj()[a] == old(self).spec_adj()[a]);
            }
        }
        id
    }

    /// Whether an edge leads from node `a` to node `b`.
    pub fn has_edge(&self, a: u32, b: u32) -> (r: bool)
        requires
            self.wf(),
            a < self.spec_node_count(),
            b < self.spec_node_count(),
        ensures
            r == self.spec_has_edge(a as int, b as int),
    {
        let list = &self.adj[a as usize];
        let mut k: usize = 0;
        while k < list.len()
            invariant
                list@ == self.spec_adj()[a as int],
                k <= list@.len(),
                forall|m: int| 0 <= m < k ==> (#[trigger] list@[m]).0 != b,
            decreases list@.len() - k,
        {
            if list[k].0 == b {
                return true;
            }
            k = k + 1;
        }
        false
    }

    /// Adds the single edge from `a` to `b`, which must not exist yet,
    /// and must lead to the next level.
    pub fn add_edge(&mut self, a: u32, b: u32, weight: u64)
        requires
            old(self).wf(),
            a < old(self).spec_node_count(),
            b < old(self).spec_node_count(),
            old(self).spec_level_of(b as int) == old(self).spec_level_of(a as int) + 1,
            !old(self).spec_has_edge(a as int, b as int),
        ensures
            final(self).wf(),
            final(self).spec_node_count() == old(self).spec_node_count(),
            final(self).spec_levels() == old(self).spec_levels(),
            final(self).spec_words() == old(self).spec_words(),
            final(self).spec_has_edge(a as int, b as int),
            final(self).spec_edge_weight(a as int, b as int) == weight,
            forall|x: int, y: int|
                0 <= x < old(self).spec_node_count() && 0 <= y < old(self).spec_node_count() && !(x
                    == a as int && y == b as int) ==> {
                    &&& #[trigger] final(self).spec_has_edge(x, y) == old(self).spec_has_edge(x, y)
                    &&& old(self).spec_has_edge(x, y) ==> final(self).spec_edge_weight(x, y)
                        == old(self).spec_edge_weight(x, y)
                },
    {
        let ghost olda = self.spec_adj();
        self.adj[a as usize].push((b, weight));
        proof {
            assert(self.adj@ =~= old(self).adj@.update(a as int, self.adj@[a as int]));
            assert(self.spec_adj() =~= olda.update(a as int, olda[a as int].push((b, weight))));
            let newlist = self.spec_adj()[a as int];
            assert(newlist == olda[a as int].push((b, weight)));
            assert(newlist[newlist.len() - 1] == (b, weight));
            assert(self.spec_has_edge(a as int, b as int));
            // well-formedness is kept
            assert forall|x: int, k: int|
                0 <= x < self.spec_adj().len() && 0 <= k < self.spec_adj()[x].len() implies {
                let e = (#[trigger] self.spec_adj()[x][k]).0;
                &&& e < self.spec_node_count()
                &&& self.spec_level_of(e as int) == self.spec_level_of(x) + 1
            } by {
                if x == a as int && k == newlist.len() - 1 {
                } else {
                    assert(self.spec_adj()[x][k] == olda[x][k]);
                }
            }
            assert forall|x: int, k1: int, k2: int|
                0 <= x < self.spec_adj().len() && 0 <= k1 < k2 < self.spec_adj()[x].len() implies (
            #[trigger] self.spec_adj()[x][k1]).0 != (#[trigger] self.spec_adj()[x][k2]).0 by {
                if x == a as int {
                    if k2 == newlist.len() - 1 {
                        assert(newlist[k1] == olda[x][k1]);
                        if newlist[k1].0 == b {
                            assert(old(self).spec_has_edge(a as int, b as int));
                        }
                    } else {
                        assert(newlist[k1] == olda[x][k1]);
                        assert(newlist[k2] == olda[x][k2]);
                    }
                } else {
                    assert(self.spec_adj()[x] == olda[x]);
                }
            }
            // the new edge carries the given weight
            self.lemma_edge_entry(a as int, newlist.len() - 1);
            // other pairs are untouched
            assert forall|x: int, y: int|
                0 <= x < old(self).spec_node_count() && 0 <= y < old(self).spec_node_count() && !(x
                    == a as int && y == b as int) implies {
                    &&& #[trigger] self.spec_has_edge(x, y) == old(self).spec_has_edge(x, y)
                    &&& old(self).spec_has_edge(x, y) ==> self.spec_edge_weight(x, y) == old(
                        self,
                    ).spec_edge_weight(x, y)
                } by {
                if old(self).spec_has_edge(x, y) {
                    let ko = choose|k: int| 0 <= k < olda[x].len() && (#[trigger] olda[x][k]).0 == y;
                    old(self).lemma_edge_entry(x, ko);
                    assert(self.spec_adj()[x][ko] == olda[x][ko]);
                    self.lemma_edge_entry(x, ko);
                }
                if self.spec_has_edge(x, y) {
                    let kn = choose|k: int|
                        0 <= k < self.spec_adj()[x].len() && (#[trigger] self.spec_adj()[x][k]).0
                            == y;
                    if x == a as int && kn == newlist.len() - 1 {
                        assert(self.spec_adj()[x][kn].0 == b);
                        assert(false);
                    }
                    assert(self.spec_adj()[x][kn] == olda[x][kn]);
                    assert(old(self).spec_has_edge(x, y));
                }
            }
        }
    }
}

/// Addition on edge weights, capped at the largest representable cost.
pub open spec fn sat_add(a: int, b: int) -> int {
    if a + b > u64::MAX {
        u64::MAX as int
    } else {
        a + b
    }
}

/// Whether `p` walks real edges of `g` from node `s` to node `t`.
pub open spec fn is_path(g: &EphemeralPassphraseGraph, p: Seq<u32>, s: u32, t: u32) -> bool {
    &&& p.len() >= 1
    &&& p[0] == s
    &&& p.last() == t
    &&& forall|m: int| 0 <= m < p.len() ==> #[trigger] p[m] < g.spec_node_count()
    &&& forall|m: int| 0 <= m < p.len() - 1 ==> g.spec_has_edge(#[trigger] p[m] as int, p[m + 1] as int)
}

/// The capped sum of the edge weights along `p`.
pub open spec fn path_cost(g: &EphemeralPassphraseGraph, p: Seq<u32>) -> int
    decreases p.len(),
{
    if p.len() <= 1 {
        0
    } else {
        sat_add(
            path_cost(g, p.drop_last()),
            g.spec_edge_weight(p[p.len() - 2] as int, p.last() as int) as int,
        )
    }
}

/// Whether some path of `g` leads from node `s` to node `t`.
pub open spec fn exists_path(g: &EphemeralPassphraseGraph, s: u32, t: u32) -> bool {
    exists|p: Seq<u32>| is_path(g, p, s, t)
}

/// Path validity: a path in a well-formed graph climbs one level per
/// step, so it touches exactly one node of every level it crosses, in
/// increasing order, and its length is fixed by its endpoints' levels.
pub proof fn lemma_path_levels(g: &EphemeralPassphraseGraph, p: Seq<u32>, s: u32, t: u32)
    requires
        g.wf(),
        is_path(g, p, s, t),
    ensures
        forall|m: int|
            0 <= m < p.len() ==> g.spec_level_of(#[trigger] p[m] as int) == g.spec_level_of(
                s as int,
            ) + m,
        p.len() == g.spec_level_of(t as int) - g.spec_level_of(s as int) + 1,
    decreases p.len(),
{
    if p.len() == 1 {
    } else {
        let q = p.drop_last();
        let t2 = p[p.len() - 2];
        assert(is_path(g, q, s, t2)) by {
            assert(q[0] == p[0]);
            assert(q.last() == p[p.len() - 2]);
            assert forall|m: int| 0 <= m < q.len() implies #[trigger] q[m] < g.spec_node_count() by {
                assert(q[m] == p[m]);
            }
            assert forall|m: int| 0 <= m < q.len() - 1 implies g.spec_has_edge(
                #[trigger] q[m] as int,
                q[m + 1] as int,
            ) by {
                assert(q[m] == p[m]);
                assert(q[m + 1] == p[m + 1]);
            }
        }
        lemma_path_levels(g, q, s, t2);
        assert(g.spec_has_edge(t2 as int, t as int));
        let k = choose|k: int|
            0 <= k < g.spec_adj()[t2 as int].len() && (#[trigger] g.spec_adj()[t2 as int][k]).0
                == t as int;
        assert(g.spec_level_of(t as int) == g.spec_level_of(t2 as int) + 1);
        assert forall|m: int| 0 <= m < p.len() implies g.spec_level_of(#[trigger] p[m] as int)
            == g.spec_level_of(s as int) + m by {
            if m < p.len() - 1 {
                assert(q[m] == p[m]);
            }
        }
    }
}

} // verus!
