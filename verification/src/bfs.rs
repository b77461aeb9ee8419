//! Breadth-first traversal from one start node: the hop distance of every
//! reachable node, and on request the node from which each was discovered.

use crate::graph::SocialNetwork;
use std::collections::HashMap;
use std::collections::VecDeque;
use vstd::prelude::*;
use vstd::std_specs::iter::IteratorSpec;

verus! {

broadcast use vstd::std_specs::hash::group_hash_axioms;

impl SocialNetwork {
    /// `m` holds exactly the nodes reachable from `s`, each with its hop
    /// distance from `s`.
    pub open spec fn is_distance_map(&self, s: u32, m: Map<u32, usize>) -> bool {
        &&& forall|v: u32| #[trigger] m.contains_key(v) <==> self.reachable(s, v)
        &&& forall|v: u32| #[trigger] m.contains_key(v) ==> self.is_distance(s, v, m[v] as nat)
    }

    /// `p` holds exactly the nodes reachable from `s` other than `s`, each
    /// with a neighbour that is one hop nearer to `s`.
    pub open spec fn is_predecessor_map(&self, s: u32, p: Map<u32, u32>) -> bool {
        &&& forall|v: u32| #[trigger] p.contains_key(v) <==> self.reachable(s, v) && v != s
        &&& forall|v: u32| #[trigger]
            p.contains_key(v) ==> {
                &&& self.adjacent(p[v], v)
                &&& self.reachable(s, p[v])
                &&& self.distance(s, v) == self.distance(s, p[v]) + 1
            }
    }

    /// What holds of the queue `q`, its head `h` and the distances recorded
    /// so far, at every point of a traversal from `s`. The nodes before `h`
    /// are settled, those from `h` on form the frontier.
    spec fn frontier_inv(&self, s: u32, q: Seq<u32>, h: int, dist: Map<u32, usize>) -> bool {
        &&& 0 <= h <= q.len()
        &&& q.len() >= 1
        &&& q[0] == s
        &&& q.no_duplicates()
        &&& forall|v: u32| #[trigger] dist.contains_key(v) <==> q.contains(v)
        &&& dist[s] == 0
        &&& forall|i: int| 0 <= i < q.len() ==> #[trigger] dist[q[i]] <= i
        &&& forall|i: int, j: int|
            0 <= i <= j < q.len() ==> #[trigger] dist[q[i]] <= #[trigger] dist[q[j]]
        &&& h < q.len() ==> forall|j: int|
            0 <= j < q.len() ==> #[trigger] dist[q[j]] <= dist[q[h]] + 1
        &&& forall|v: u32| #[trigger] dist.contains_key(v) ==> self.within(s, v, dist[v] as nat)
        &&& forall|i: int, w: u32|
            0 <= i < h && #[trigger] self.adjacent(q[i], w) ==> dist.contains_key(w) && dist[w]
                <= dist[q[i]] + 1
        &&& forall|v: u32| #[trigger] dist.contains_key(v) ==> v == s || self@.contains_key(v)
    }

    /// What holds of the recorded predecessors at every point of a traversal
    /// from `s`.
    spec fn parent_inv(&self, s: u32, dist: Map<u32, usize>, par: Map<u32, u32>) -> bool {
        &&& forall|v: u32| #[trigger] par.contains_key(v) <==> dist.contains_key(v) && v != s
        &&& forall|v: u32| #[trigger]
            par.contains_key(v) ==> {
                &&& dist.contains_key(par[v])
                &&& self.adjacent(par[v], v)
                &&& dist[v] == dist[par[v]] + 1
            }
    }

    /// What is reached over at most `k` edges is reached over at most `n`,
    /// for `k <= n`.
    pub proof fn lemma_within_monotone(&self, s: u32, d: u32, k: nat, n: nat)
        requires
            self.within(s, d, k),
            k <= n,
        ensures
            self.within(s, d, n),
        decreases n,
    {
        if k < n {
            self.lemma_within_monotone(s, d, k, (n - 1) as nat);
        }
    }

    /// A node has at most one hop distance from `s`, and `distance` names it.
    pub proof fn lemma_distance_unique(&self, s: u32, d: u32, n: nat)
        requires
            self.is_distance(s, d, n),
        ensures
            self.distance(s, d) == n,
            self.reachable(s, d),
    {
        let m = self.distance(s, d);
        assert(self.is_distance(s, d, m));
        if m < n {
            self.lemma_within_monotone(s, d, m, (n - 1) as nat);
        }
        if n < m {
            self.lemma_within_monotone(s, d, n, (m - 1) as nat);
        }
    }

    /// Every reachable node has a hop distance.
    pub proof fn lemma_distance_exists(&self, s: u32, d: u32, n: nat)
        requires
            self.within(s, d, n),
        ensures
            self.is_distance(s, d, self.distance(s, d)),
            self.distance(s, d) <= n,
        decreases n,
    {
        if n > 0 && self.within(s, d, (n - 1) as nat) {
            self.lemma_distance_exists(s, d, (n - 1) as nat);
        } else {
            assert(self.is_distance(s, d, n));
            self.lemma_distance_unique(s, d, n);
        }
    }

    /// Discovering the undiscovered neighbour `w` of the head of the queue
    /// keeps the traversal's invariant.
    proof fn lemma_discover(&self, s: u32, q: Seq<u32>, h: int, dist: Map<u32, usize>, w: u32)
        requires
            self.wf(),
            self.frontier_inv(s, q, h, dist),
            h < q.len(),
            self.adjacent(q[h], w),
            !dist.contains_key(w),
            q.len() <= usize::MAX,
        ensures
            dist[q[h]] + 1 <= q.len(),
            self.frontier_inv(s, q.push(w), h, dist.insert(w, (dist[q[h]] + 1) as usize)),
    {
        let u = q[h];
        let q2 = q.push(w);
        let dw = (dist[u] + 1) as usize;
        let dist2 = dist.insert(w, dw);
        assert(dist[q[h]] <= h);
        assert(q.contains(u));
        assert(dist.contains_key(u));
        assert(!q.contains(w));
        assert forall|i: int| 0 <= i < q.len() implies q2[i] == q[i] && q[i] != w && dist2[q2[i]]
            == dist[q[i]] by {
            assert(q.contains(q[i]));
        }
        assert(q2[q.len() as int] == w);
        assert(dist2[w] == dw);
        assert(q2.no_duplicates());
        assert forall|v: u32| #[trigger] dist2.contains_key(v) <==> q2.contains(v) by {
            if dist2.contains_key(v) {
                if v == w {
                    assert(q2[q.len() as int] == v);
                } else {
                    assert(q.contains(v));
                    let i = choose|i: int| 0 <= i < q.len() && q[i] == v;
                    assert(q2[i] == v);
                }
            }
            if q2.contains(v) {
                let i = choose|i: int| 0 <= i < q2.len() && q2[i] == v;
                if i < q.len() {
                    assert(q.contains(q[i]));
                }
            }
        }
        assert(dist.contains_key(s)) by {
            assert(q.contains(q[0]));
        }
        assert forall|i: int| 0 <= i < q2.len() implies #[trigger] dist2[q2[i]] <= i by {
            if i < q.len() {
                assert(dist[q[i]] <= i);
            }
        }
        assert forall|i: int, j: int| 0 <= i <= j < q2.len() implies #[trigger] dist2[q2[i]]
            <= #[trigger] dist2[q2[j]] by {
            if j < q.len() {
                assert(dist[q[i]] <= dist[q[j]]);
            } else if i < q.len() {
                assert(dist[q[i]] <= dist[q[h]] + 1);
            }
        }
        assert forall|j: int| 0 <= j < q2.len() implies #[trigger] dist2[q2[j]] <= dist2[q2[h]]
            + 1 by {
            if j < q.len() {
                assert(dist[q[j]] <= dist[q[h]] + 1);
            }
        }
        assert forall|v: u32| #[trigger] dist2.contains_key(v) implies self.within(
            s,
            v,
            dist2[v] as nat,
        ) by {
            if v == w {
                assert(self.within(s, u, dist[u] as nat));
                assert(self.adjacent(u, w));
            } else {
                assert(dist.contains_key(v));
            }
        }
        assert forall|i: int, x: u32| 0 <= i < h && #[trigger] self.adjacent(q2[i], x) implies
            dist2.contains_key(x) && dist2[x] <= dist2[q2[i]] + 1 by {
            assert(self.adjacent(q[i], x));
            assert(dist.contains_key(x));
        }
        assert forall|v: u32| #[trigger] dist2.contains_key(v) implies v == s
            || self@.contains_key(v) by {
            if v == w {
                assert(self.adjacent(w, u));
            } else {
                assert(dist.contains_key(v));
            }
        }
    }

    /// Once every neighbour of the head of the queue is discovered, the head
    /// is settled.
    proof fn lemma_settle(&self, s: u32, q: Seq<u32>, h: int, dist: Map<u32, usize>)
        requires
            self.frontier_inv(s, q, h, dist),
            h < q.len(),
            forall|w: u32| #[trigger] self.adjacent(q[h], w) ==> dist.contains_key(w),
        ensures
            self.frontier_inv(s, q, h + 1, dist),
    {
        assert forall|i: int, w: u32| 0 <= i < h + 1 && #[trigger] self.adjacent(q[i], w) implies
            dist.contains_key(w) && dist[w] <= dist[q[i]] + 1 by {
            if i == h {
                assert(q.contains(w));
                let j = choose|j: int| 0 <= j < q.len() && q[j] == w;
                assert(dist[q[j]] <= dist[q[h]] + 1);
            }
        }
        if h + 1 < q.len() {
            assert forall|j: int| 0 <= j < q.len() implies #[trigger] dist[q[j]] <= dist[q[h + 1]]
                + 1 by {
                assert(dist[q[j]] <= dist[q[h]] + 1);
                assert(dist[q[h]] <= dist[q[h + 1]]);
            }
        }
    }

    /// When the queue is drained, every node within `n` edges of `s` has been
    /// discovered, at a distance of at most `n`.
    proof fn lemma_drained(&self, s: u32, q: Seq<u32>, dist: Map<u32, usize>, x: u32, n: nat)
        requires
            self.frontier_inv(s, q, q.len() as int, dist),
            self.within(s, x, n),
        ensures
            dist.contains_key(x),
            dist[x] <= n,
        decreases n,
    {
        assert(q.contains(q[0]));
        if n > 0 {
            if self.within(s, x, (n - 1) as nat) {
                self.lemma_drained(s, q, dist, x, (n - 1) as nat);
            } else {
                let m = choose|m: u32|
                    self.within(s, m, (n - 1) as nat) && #[trigger] self.adjacent(m, x);
                self.lemma_drained(s, q, dist, m, (n - 1) as nat);
                assert(q.contains(m));
                let i = choose|i: int| 0 <= i < q.len() && q[i] == m;
                assert(self.adjacent(q[i], x));
            }
        }
    }

    /// The distances of a drained traversal are the hop distances from `s`.
    proof fn lemma_drained_distances(&self, s: u32, q: Seq<u32>, dist: Map<u32, usize>)
        requires
            self.frontier_inv(s, q, q.len() as int, dist),
        ensures
            self.is_distance_map(s, dist),
            forall|v: u32| #[trigger] dist.contains_key(v) ==> self.distance(s, v) == dist[v],
    {
        assert forall|v: u32| #[trigger] dist.contains_key(v) <==> self.reachable(s, v) by {
            if dist.contains_key(v) {
                assert(self.within(s, v, dist[v] as nat));
            }
            if self.reachable(s, v) {
                let n = choose|n: nat| self.within(s, v, n);
                self.lemma_drained(s, q, dist, v, n);
            }
        }
        assert forall|v: u32| #[trigger] dist.contains_key(v) implies self.is_distance(
            s,
            v,
            dist[v] as nat,
        ) && self.distance(s, v) == dist[v] by {
            assert(self.within(s, v, dist[v] as nat));
            if dist[v] > 0 && self.within(s, v, (dist[v] - 1) as nat) {
                self.lemma_drained(s, q, dist, v, (dist[v] - 1) as nat);
            }
            self.lemma_distance_unique(s, v, dist[v] as nat);
        }
    }

    /// The queue never holds more nodes than the graph has, the start node
    /// counted in.
    proof fn lemma_queue_bounded(&self, s: u32, q: Seq<u32>, h: int, dist: Map<u32, usize>)
        requires
            self.wf(),
            self.frontier_inv(s, q, h, dist),
        ensures
            q.len() <= self@.dom().insert(s).len(),
    {
        let universe = self@.dom().insert(s);
        q.unique_seq_to_set();
        assert forall|v: u32| q.to_set().contains(v) implies universe.contains(v) by {
            assert(q.contains(v));
            assert(dist.contains_key(v));
        }
        vstd::set_lib::lemma_len_subset(q.to_set(), universe);
    }

    /// Every recorded distance is below the number of nodes of the graph,
    /// the start node counted in.
    proof fn lemma_distances_bounded(&self, s: u32, q: Seq<u32>, h: int, dist: Map<u32, usize>)
        requires
            self.wf(),
            self.frontier_inv(s, q, h, dist),
        ensures
            forall|v: u32| #[trigger]
                dist.contains_key(v) ==> dist[v] < self@.dom().insert(s).len(),
    {
        self.lemma_queue_bounded(s, q, h, dist);
        assert forall|v: u32| #[trigger] dist.contains_key(v) implies dist[v] < self@.dom().insert(
            s,
        ).len() by {
            assert(q.contains(v));
            let i = choose|i: int| 0 <= i < q.len() && q[i] == v;
            assert(dist[q[i]] <= i);
        }
    }

    /// As many nodes are discovered as have a distance.
    proof fn lemma_discovered_count(&self, s: u32, q: Seq<u32>, h: int, dist: Map<u32, usize>)
        requires
            self.frontier_inv(s, q, h, dist),
        ensures
            q.len() == dist.len(),
    {
        q.unique_seq_to_set();
        assert(q.to_set() =~= dist.dom());
    }

    /// Recording the head of the queue as the predecessor of a node that it
    /// discovers keeps what holds of the predecessors.
    proof fn lemma_record(
        &self,
        s: u32,
        q: Seq<u32>,
        h: int,
        dist: Map<u32, usize>,
        par: Map<u32, u32>,
        w: u32,
    )
        requires
            self.frontier_inv(s, q, h, dist),
            self.parent_inv(s, dist, par),
            h < q.len(),
            self.adjacent(q[h], w),
            !dist.contains_key(w),
            q.len() <= usize::MAX,
        ensures
            self.parent_inv(
                s,
                dist.insert(w, (dist[q[h]] + 1) as usize),
                par.insert(w, q[h]),
            ),
    {
        let dist2 = dist.insert(w, (dist[q[h]] + 1) as usize);
        let par2 = par.insert(w, q[h]);
        assert(q.contains(q[h]));
        assert(q.contains(q[0]));
        assert(dist[q[h]] <= h);
        assert forall|v: u32| #[trigger] par2.contains_key(v) implies dist2.contains_key(par2[v])
            && self.adjacent(par2[v], v) && dist2[v] == dist2[par2[v]] + 1 by {
            if v != w {
                assert(par.contains_key(v));
            }
        }
    }

    /// The predecessors of a drained traversal each lie one hop nearer to
    /// the start.
    proof fn lemma_drained_predecessors(
        &self,
        s: u32,
        q: Seq<u32>,
        dist: Map<u32, usize>,
        par: Map<u32, u32>,
    )
        requires
            self.frontier_inv(s, q, q.len() as int, dist),
            self.parent_inv(s, dist, par),
        ensures
            self.is_predecessor_map(s, par),
    {
        self.lemma_drained_distances(s, q, dist);
        assert forall|v: u32| #[trigger] par.contains_key(v) implies self.adjacent(par[v], v)
            && self.reachable(s, par[v]) && self.distance(s, v) == self.distance(s, par[v])
            + 1 by {
            assert(dist.contains_key(v));
            assert(dist.contains_key(par[v]));
        }
        assert forall|v: u32| #[trigger] par.contains_key(v) <==> self.reachable(s, v) && v
            != s by {
            assert(dist.contains_key(v) <==> self.reachable(s, v));
        }
    }

    /// Runs the traversal from `start`; the predecessors are recorded only
    /// where `record` is set.
    fn traverse(&self, start: u32, record: bool) -> (r: (HashMap<u32, usize>, HashMap<u32, u32>))
        requires
            self.wf(),
        ensures
            self.is_distance_map(start, r.0@),
            forall|v: u32| #[trigger] r.0@.contains_key(v) ==> self.distance(start, v) == r.0@[v],
            forall|v: u32| #[trigger]
                r.0@.contains_key(v) ==> r.0@[v] < self@.dom().insert(start).len(),
            record ==> self.is_predecessor_map(start, r.1@),
            !record ==> r.1@ == Map::<u32, u32>::empty(),
    {
        let mut dist: HashMap<u32, usize> = HashMap::new();
        let mut parents: HashMap<u32, u32> = HashMap::new();
        let mut queue: VecDeque<u32> = VecDeque::new();
        queue.push_back(start);
        dist.insert(start, 0);
        // Every node discovered so far, in the order of discovery; those
        // from `head` on are still queued.
        let ghost mut order: Seq<u32> = seq![start];
        let ghost mut head: int = 0;
        proof {
            assert(order.contains(order[0]));
            assert forall|v: u32| #[trigger] dist@.contains_key(v) <==> order.contains(v) by {
                if order.contains(v) {
                    let i = choose|i: int| 0 <= i < order.len() && order[i] == v;
                }
            }
            assert(self.within(start, start, 0));
            assert(self.frontier_inv(start, order, 0, dist@));
            assert(self.parent_inv(start, dist@, parents@));
            assert(queue@ =~= order.skip(0));
        }
        loop
            invariant
                self.wf(),
                self.frontier_inv(start, order, head, dist@),
                queue@ == order.skip(head),
                record ==> self.parent_inv(start, dist@, parents@),
                !record ==> parents@ == Map::<u32, u32>::empty(),
            ensures
                self.frontier_inv(start, order, order.len() as int, dist@),
                record ==> self.parent_inv(start, dist@, parents@),
                !record ==> parents@ == Map::<u32, u32>::empty(),
            decreases self@.dom().insert(start).len() - head,
        {
            let node = match queue.pop_front() {
                Some(node) => node,
                None => {
                    break ;
                },
            };
            let here: usize = match dist.get(&node) {
                Some(d) => *d,
                None => 0,
            };
            proof {
                assert(node == order[head]);
                assert(order.contains(order[head]));
                assert(queue@ =~= order.skip(head + 1));
                self.lemma_queue_bounded(start, order, head, dist@);
            }
            if let Some(set) = self.neighbor_ref(node) {
                let ghost near: Seq<u32> = set.iter().remaining().unref();
                for x in it: set.iter()
                    invariant
                        near == it.seq().unref(),
                        near.to_set() == self@[node],
                        self@.contains_key(node),
                        self.wf(),
                        0 <= head < order.len(),
                        order[head] == node,
                        dist@.contains_key(node),
                        dist@[node] == here,
                        queue@ == order.skip(head + 1),
                        self.frontier_inv(start, order, head, dist@),
                        record ==> self.parent_inv(start, dist@, parents@),
                        !record ==> parents@ == Map::<u32, u32>::empty(),
                        forall|i: int| 0 <= i < it.index() ==> dist@.contains_key(#[trigger] near[i]),
                {
                    let neighbor = *x;
                    assert(neighbor == near[it.index() as int]);
                    assert(near.to_set().contains(neighbor));
                    assert(self.adjacent(node, neighbor));
                    if !dist.contains_key(&neighbor) {
                        proof {
                            self.lemma_discovered_count(start, order, head, dist@);
                            assert(dist@.len() == dist.len());
                            self.lemma_discover(start, order, head, dist@, neighbor);
                            if record {
                                self.lemma_record(start, order, head, dist@, parents@, neighbor);
                            }
                            assert(order.push(neighbor).skip(head + 1) =~= order.skip(head + 1).push(
                                neighbor,
                            ));
                            order = order.push(neighbor);
                        }
                        queue.push_back(neighbor);
                        dist.insert(neighbor, here + 1);
                        if record {
                            parents.insert(neighbor, node);
                        }
                    }
                }
                proof {
                    assert forall|w: u32| #[trigger] self.adjacent(node, w) implies dist@.contains_key(
                        w,
                    ) by {
                        assert(near.to_set().contains(w));
                        let i = choose|i: int| 0 <= i < near.len() && near[i] == w;
                        assert(dist@.contains_key(near[i]));
                    }
                }
            }
            proof {
                self.lemma_settle(start, order, head, dist@);
                self.lemma_queue_bounded(start, order, head + 1, dist@);
                head = head + 1;
            }
        }
        proof {
            self.lemma_drained_distances(start, order, dist@);
            self.lemma_distances_bounded(start, order, order.len() as int, dist@);
            if record {
                self.lemma_drained_predecessors(start, order, dist@, parents@);
            }
        }
        (dist, parents)
    }

    /// The hop distance from `start` of every node reachable from it,
    /// `start` itself included at distance 0. A start node that the graph
    /// lacks, or that has no neighbour, reaches itself only.
    pub fn bfs(&self, start: u32) -> (distances: HashMap<u32, usize>)
        requires
            self.wf(),
        ensures
            self.is_distance_map(start, distances@),
            forall|v: u32| #[trigger]
                distances@.contains_key(v) ==> distances@[v] == self.distance(start, v),
            forall|v: u32| #[trigger]
                distances@.contains_key(v) ==> distances@[v] < self@.dom().insert(start).len(),
            distances@.contains_key(start),
            distances@[start] == 0,
            self.neighbor_set(start) == Set::<u32>::empty() ==> distances@ == Map::<
                u32,
                usize,
            >::empty().insert(start, 0),
    {
        let (distances, _) = self.traverse(start, false);
        proof {
            self.lemma_self_distance(start);
            if self.neighbor_set(start) == Set::<u32>::empty() {
                assert forall|v: u32| #[trigger] distances@.contains_key(v) implies v == start by {
                    let n = choose|n: nat| self.within(start, v, n);
                    self.lemma_isolated(start, v, n);
                }
                assert(distances@ =~= Map::<u32, usize>::empty().insert(start, 0));
            }
        }
        distances
    }

    /// As `bfs`, and with it the node from which each reached node other
    /// than `start` was discovered: a neighbour one hop nearer to `start`.
    /// Which of several such neighbours is recorded is left open.
    pub fn bfs_with_predecessors(&self, start: u32) -> (r: (HashMap<u32, usize>, HashMap<u32, u32>))
        requires
            self.wf(),
        ensures
            self.is_distance_map(start, r.0@),
            forall|v: u32| #[trigger] r.0@.contains_key(v) ==> r.0@[v] == self.distance(start, v),
            self.is_predecessor_map(start, r.1@),
            r.0@.contains_key(start),
            r.0@[start] == 0,
    {
        let r = self.traverse(start, true);
        proof {
            self.lemma_self_distance(start);
            assert(r.0@.contains_key(start));
        }
        r
    }

    /// Every node reaches itself, at distance 0.
    pub proof fn lemma_self_distance(&self, s: u32)
        ensures
            self.reachable(s, s),
            self.distance(s, s) == 0,
    {
        assert(self.within(s, s, 0));
        self.lemma_distance_unique(s, s, 0);
    }

    /// A node without neighbours reaches itself only.
    pub proof fn lemma_isolated(&self, s: u32, d: u32, n: nat)
        requires
            self.neighbor_set(s) == Set::<u32>::empty(),
            self.within(s, d, n),
        ensures
            d == s,
        decreases n,
    {
        if n > 0 {
            if self.within(s, d, (n - 1) as nat) {
                self.lemma_isolated(s, d, (n - 1) as nat);
            } else {
                let m = choose|m: u32|
                    self.within(s, m, (n - 1) as nat) && #[trigger] self.adjacent(m, d);
                self.lemma_isolated(s, m, (n - 1) as nat);
                assert(self.neighbor_set(s).contains(d));
            }
        }
    }
}

} // verus!
