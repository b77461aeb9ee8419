//! Shortest paths: a path is read off the predecessors that one traversal
//! recorded, walking back from the target to the start.

use crate::graph::SocialNetwork;
use std::collections::HashMap;
use vstd::prelude::*;

verus! {

broadcast use vstd::std_specs::hash::group_hash_axioms;

impl SocialNetwork {
    /// `p` leads from `s` to `e` over edges of the graph, and its node at
    /// index `i` lies at hop distance `i` from `s`: no walk from `s` reaches
    /// any node of `p` over fewer edges than `p` does.
    pub open spec fn is_shortest_path(&self, s: u32, e: u32, p: Seq<u32>) -> bool {
        &&& p.len() >= 1
        &&& p[0] == s
        &&& p[p.len() - 1] == e
        &&& self.is_walk(p)
        &&& forall|i: int| 0 <= i < p.len() ==> self.is_distance(s, #[trigger] p[i], i as nat)
    }

    /// A reachable node has its hop distance.
    pub proof fn lemma_reachable_distance(&self, s: u32, d: u32)
        requires
            self.reachable(s, d),
        ensures
            self.is_distance(s, d, self.distance(s, d)),
    {
        let n = choose|n: nat| self.within(s, d, n);
        self.lemma_distance_exists(s, d, n);
    }

    /// The path from `start` to `end` that the predecessors of a traversal
    /// from `start` describe, or `None` where that traversal did not reach
    /// `end`.
    pub fn reconstruct_path(
        &self,
        predecessors: &HashMap<u32, u32>,
        start: u32,
        end: u32,
    ) -> (r: Option<Vec<u32>>)
        requires
            self.is_predecessor_map(start, predecessors@),
        ensures
            match r {
                Some(p) => {
                    &&& self.reachable(start, end)
                    &&& self.is_shortest_path(start, end, p@)
                    &&& p@.len() == self.distance(start, end) + 1
                },
                None => !self.reachable(start, end),
            },
    {
        proof {
            self.lemma_self_distance(start);
        }
        if end != start && !predecessors.contains_key(&end) {
            return None;
        }
        let ghost total = self.distance(start, end);
        let mut back: Vec<u32> = Vec::new();
        back.push(end);
        let mut current = end;
        proof {
            self.lemma_reachable_distance(start, end);
        }
        while current != start
            invariant
                self.is_predecessor_map(start, predecessors@),
                total == self.distance(start, end),
                back.len() >= 1,
                back@[0] == end,
                back@[back.len() - 1] == current,
                self.reachable(start, current),
                forall|i: int|
                    0 <= i < back.len() ==> i <= total && self.is_distance(
                        start,
                        #[trigger] back@[i],
                        (total - i) as nat,
                    ),
                forall|i: int|
                    0 <= i < back.len() - 1 ==> self.adjacent(back@[i + 1], #[trigger] back@[i]),
            decreases self.distance(start, current),
        {
            let ghost last = back.len() - 1;
            proof {
                assert(predecessors@.contains_key(current));
                assert(self.is_distance(start, back@[last], (total - last) as nat));
                self.lemma_distance_unique(start, current, (total - last) as nat);
            }
            match predecessors.get(&current) {
                Some(p) => {
                    proof {
                        self.lemma_reachable_distance(start, *p);
                    }
                    back.push(*p);
                    current = *p;
                },
                None => {
                    return None;
                },
            }
        }
        proof {
            let last = back.len() - 1;
            assert(self.is_distance(start, back@[last], (total - last) as nat));
            self.lemma_distance_unique(start, start, (total - last) as nat);
        }
        let mut path: Vec<u32> = Vec::new();
        let mut i: usize = back.len();
        while i > 0
            invariant
                i <= back.len(),
                path.len() == back.len() - i,
                forall|k: int| 0 <= k < path.len() ==> path@[k] == back@[back.len() - 1 - k],
            decreases i,
        {
            i -= 1;
            path.push(back[i]);
        }
        proof {
            assert forall|k: int| 0 <= k < path@.len() - 1 implies self.adjacent(
                #[trigger] path@[k],
                path@[k + 1],
            ) by {
                let j = back.len() - 2 - k;
                assert(self.adjacent(back@[j + 1], back@[j]));
            }
            assert forall|k: int| 0 <= k < path@.len() implies self.is_distance(
                start,
                #[trigger] path@[k],
                k as nat,
            ) by {
                let j = back.len() - 1 - k;
                assert(self.is_distance(start, back@[j], (total - j) as nat));
            }
        }
        Some(path)
    }

    /// A shortest path from `start` to `end`, both included, or `None` where
    /// `end` cannot be reached from `start`, as no other node can from a
    /// start node without neighbours. Which of several shortest paths is
    /// returned is left open.
    pub fn shortest_path(&self, start: u32, end: u32) -> (r: Option<Vec<u32>>)
        requires
            self.wf(),
        ensures
            match r {
                Some(p) => {
                    &&& self.reachable(start, end)
                    &&& self.is_shortest_path(start, end, p@)
                    &&& p@.len() == self.distance(start, end) + 1
                },
                None => !self.reachable(start, end),
            },
            self.neighbor_set(start) == Set::<u32>::empty() && end != start ==> r is None,
    {
        let (_, predecessors) = self.bfs_with_predecessors(start);
        proof {
            if self.neighbor_set(start) == Set::<u32>::empty() && self.reachable(start, end) {
                let n = choose|n: nat| self.within(start, end, n);
                self.lemma_isolated(start, end, n);
            }
        }
        self.reconstruct_path(&predecessors, start, end)
    }
}

} // verus!
