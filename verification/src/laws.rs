//! Laws that relate the graph store, the traversal and the paths.

use crate::graph::SocialNetwork;
use vstd::prelude::*;

verus! {

impl SocialNetwork {
    /// Adjacency is symmetric: `b` is among the neighbours of `a` exactly
    /// when `a` is among the neighbours of `b`.
    pub proof fn lemma_neighbors_symmetric(&self, a: u32, b: u32)
        requires
            self.wf(),
        ensures
            self.neighbor_set(a).contains(b) <==> self.neighbor_set(b).contains(a),
    {
        if self.adjacent(a, b) {
            assert(self.adjacent(b, a));
        }
        if self.adjacent(b, a) {
            assert(self.adjacent(a, b));
        }
    }

    /// A walk of `n` edges reaches its last node within `n` edges, so the
    /// hop distance between its ends is at most `n`.
    pub proof fn lemma_no_shorter_walk(&self, p: Seq<u32>)
        requires
            self.is_walk(p),
            p.len() >= 1,
        ensures
            self.within(p[0], p[p.len() - 1], (p.len() - 1) as nat),
            self.reachable(p[0], p[p.len() - 1]),
            self.distance(p[0], p[p.len() - 1]) <= p.len() - 1,
        decreases p.len(),
    {
        let n = (p.len() - 1) as nat;
        if n > 0 {
            let front = p.drop_last();
            assert forall|i: int| 0 <= i < front.len() - 1 implies self.adjacent(
                #[trigger] front[i],
                front[i + 1],
            ) by {
                assert(self.adjacent(p[i], p[i + 1]));
            }
            self.lemma_no_shorter_walk(front);
            assert(self.adjacent(p[n - 1], p[n - 1 + 1]));
            assert(self.within(p[0], front[front.len() - 1], (n - 1) as nat));
        }
        self.lemma_distance_exists(p[0], p[p.len() - 1], n);
    }

    /// Two distance maps for one start node on one graph are the same map.
    pub proof fn lemma_distance_map_unique(&self, s: u32, m1: Map<u32, usize>, m2: Map<u32, usize>)
        requires
            self.is_distance_map(s, m1),
            self.is_distance_map(s, m2),
        ensures
            m1 == m2,
    {
        assert forall|v: u32| m1.contains_key(v) == m2.contains_key(v) by {
            assert(m1.contains_key(v) <==> self.reachable(s, v));
            assert(m2.contains_key(v) <==> self.reachable(s, v));
        }
        assert forall|v: u32| m1.contains_key(v) implies m1[v] == m2[v] by {
            assert(m2.contains_key(v));
            self.lemma_distance_unique(s, v, m1[v] as nat);
            self.lemma_distance_unique(s, v, m2[v] as nat);
        }
        assert(m1 =~= m2);
    }

    /// A shortest path to `e` has one node more than the distance that the
    /// distance map of its start node gives for `e`, and each two
    /// consecutive nodes of it are joined by an edge.
    pub proof fn lemma_path_length(&self, s: u32, e: u32, m: Map<u32, usize>, p: Seq<u32>)
        requires
            self.is_distance_map(s, m),
            self.is_shortest_path(s, e, p),
        ensures
            m.contains_key(e),
            p.len() == m[e] + 1,
            forall|i: int| 0 <= i < p.len() - 1 ==> self.adjacent(#[trigger] p[i], p[i + 1]),
    {
        let last = p.len() - 1;
        assert(self.is_distance(s, p[last], last as nat));
        self.lemma_distance_unique(s, e, last as nat);
        assert(m.contains_key(e));
        self.lemma_distance_unique(s, e, m[e] as nat);
    }

    /// Along a shortest path the distances from its start node never fall:
    /// the node at index `i` has distance `i`.
    pub proof fn lemma_path_distances_monotonic(
        &self,
        s: u32,
        e: u32,
        m: Map<u32, usize>,
        p: Seq<u32>,
    )
        requires
            self.is_distance_map(s, m),
            self.is_shortest_path(s, e, p),
        ensures
            forall|i: int| 0 <= i < p.len() ==> m.contains_key(#[trigger] p[i]) && m[p[i]] == i,
            forall|i: int, j: int|
                0 <= i <= j < p.len() ==> m[#[trigger] p[i]] <= m[#[trigger] p[j]],
    {
        assert forall|i: int| 0 <= i < p.len() implies m.contains_key(#[trigger] p[i]) && m[p[i]]
            == i by {
            assert(self.is_distance(s, p[i], i as nat));
            self.lemma_distance_unique(s, p[i], i as nat);
            assert(m.contains_key(p[i]));
            self.lemma_distance_unique(s, p[i], m[p[i]] as nat);
        }
    }

    /// Two graphs with the same nodes and the same edges are the same graph,
    /// in whatever order their edges were inserted.
    pub proof fn lemma_same_edges_same_graph(&self, other: &SocialNetwork)
        requires
            self@.dom() == other@.dom(),
            forall|x: u32, y: u32| self.adjacent(x, y) == other.adjacent(x, y),
        ensures
            self@ == other@,
    {
        assert forall|k: u32| self@.contains_key(k) implies self@[k] =~= other@[k] by {
            assert(other@.dom().contains(k));
            assert forall|y: u32| self@[k].contains(y) == other@[k].contains(y) by {
                assert(self.adjacent(k, y) == other.adjacent(k, y));
            }
        }
        assert(self@ =~= other@);
    }

    /// A neighbour of a reachable node is reachable, over at most one edge
    /// more.
    pub proof fn lemma_neighbor_one_further(&self, s: u32, u: u32, w: u32)
        requires
            self.reachable(s, u),
            self.adjacent(u, w),
        ensures
            self.reachable(s, w),
            self.distance(s, w) <= self.distance(s, u) + 1,
    {
        self.lemma_reachable_distance(s, u);
        let n = self.distance(s, u);
        assert(self.within(s, u, n));
        assert(self.within(s, w, n + 1));
        self.lemma_distance_exists(s, w, n + 1);
    }

    /// A walk can be entered over one more edge at its start.
    proof fn lemma_within_prepend(&self, d: u32, m: u32, s: u32, k: nat)
        requires
            self.adjacent(d, m),
            self.within(m, s, k),
        ensures
            self.within(d, s, k + 1),
        decreases k,
    {
        if k == 0 {
            assert(self.within(d, d, 0));
        } else if self.within(m, s, (k - 1) as nat) {
            self.lemma_within_prepend(d, m, s, (k - 1) as nat);
            self.lemma_within_monotone(d, s, k, k + 1);
        } else {
            let x = choose|x: u32|
                self.within(m, x, (k - 1) as nat) && #[trigger] self.adjacent(x, s);
            self.lemma_within_prepend(d, m, x, (k - 1) as nat);
            assert(self.adjacent(x, s));
        }
    }

    /// What is reached over at most `n` edges reaches back over at most `n`.
    pub proof fn lemma_within_symmetric(&self, s: u32, d: u32, n: nat)
        requires
            self.wf(),
            self.within(s, d, n),
        ensures
            self.within(d, s, n),
        decreases n,
    {
        if n > 0 {
            if self.within(s, d, (n - 1) as nat) {
                self.lemma_within_symmetric(s, d, (n - 1) as nat);
                self.lemma_within_monotone(d, s, (n - 1) as nat, n);
            } else {
                let m = choose|m: u32|
                    self.within(s, m, (n - 1) as nat) && #[trigger] self.adjacent(m, d);
                self.lemma_within_symmetric(s, m, (n - 1) as nat);
                assert(self.adjacent(d, m));
                self.lemma_within_prepend(d, m, s, (n - 1) as nat);
            }
        }
    }

    /// Reachability and hop distance are the same in both directions.
    pub proof fn lemma_distance_symmetric(&self, s: u32, d: u32)
        requires
            self.wf(),
        ensures
            self.reachable(s, d) == self.reachable(d, s),
            self.reachable(s, d) ==> self.distance(s, d) == self.distance(d, s),
    {
        if self.reachable(s, d) {
            self.lemma_reachable_distance(s, d);
            self.lemma_within_symmetric(s, d, self.distance(s, d));
            self.lemma_distance_exists(d, s, self.distance(s, d));
        }
        if self.reachable(d, s) {
            self.lemma_reachable_distance(d, s);
            self.lemma_within_symmetric(d, s, self.distance(d, s));
            self.lemma_distance_exists(s, d, self.distance(d, s));
        }
    }
}

} // verus!
