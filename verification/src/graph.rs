//! The graph store: a symmetric adjacency relation over node identifiers,
//! together with the mathematical notions (walks, reachability, hop
//! distance) that the traversal contracts are stated over.

use std::collections::HashMap;
use std::collections::HashSet;
use vstd::prelude::*;
use vstd::std_specs::iter::IteratorSpec;

verus! {

broadcast use vstd::std_specs::hash::group_hash_axioms;

/// An undirected graph. Each node that occurs in an edge is a key, and maps
/// to the set of its neighbours.
pub struct SocialNetwork {
    edges: HashMap<u32, HashSet<u32>>,
}

impl View for SocialNetwork {
    type V = Map<u32, Set<u32>>;

    /// The adjacency relation: each node of the graph with its neighbour set.
    closed spec fn view(&self) -> Map<u32, Set<u32>> {
        Map::new(|k: u32| self.edges@.contains_key(k), |k: u32| self.edges@[k]@)
    }
}

impl SocialNetwork {
    /// `b` is a neighbour of `a`.
    pub open spec fn adjacent(&self, a: u32, b: u32) -> bool {
        self@.contains_key(a) && self@[a].contains(b)
    }

    /// The neighbours of `node`; empty for a node that the graph lacks.
    pub open spec fn neighbor_set(&self, node: u32) -> Set<u32> {
        if self@.contains_key(node) {
            self@[node]
        } else {
            Set::empty()
        }
    }

    /// The graph is finite and its adjacency relation is symmetric; every
    /// neighbour is therefore itself a node of the graph.
    pub open spec fn wf(&self) -> bool {
        &&& self@.dom().finite()
        &&& forall|a: u32, b: u32| #[trigger]
            self.adjacent(a, b) ==> self.adjacent(b, a)
    }

    /// Consecutive nodes of `p` are joined by an edge.
    pub open spec fn is_walk(&self, p: Seq<u32>) -> bool {
        forall|i: int| 0 <= i < p.len() - 1 ==> self.adjacent(#[trigger] p[i], p[i + 1])
    }

    /// `d` can be reached from `s` over at most `n` edges.
    pub open spec fn within(&self, s: u32, d: u32, n: nat) -> bool
        decreases n,
    {
        if n == 0 {
            d == s
        } else {
            self.within(s, d, (n - 1) as nat) || exists|m: u32|
                self.within(s, m, (n - 1) as nat) && #[trigger] self.adjacent(m, d)
        }
    }

    /// `d` can be reached from `s`.
    pub open spec fn reachable(&self, s: u32, d: u32) -> bool {
        exists|n: nat| self.within(s, d, n)
    }

    /// `n` is the least number of edges over which `d` is reached from `s`.
    pub open spec fn is_distance(&self, s: u32, d: u32, n: nat) -> bool {
        self.within(s, d, n) && (n == 0 || !self.within(s, d, (n - 1) as nat))
    }

    /// The hop distance from `s` to `d`, where `d` is reachable from `s`.
    pub open spec fn distance(&self, s: u32, d: u32) -> nat {
        choose|n: nat| self.is_distance(s, d, n)
    }

    /// An empty graph.
    pub fn new() -> (g: Self)
        ensures
            g.wf(),
            g@ == Map::<u32, Set<u32>>::empty(),
    {
        let g = SocialNetwork { edges: HashMap::new() };
        assert(g@ =~= Map::<u32, Set<u32>>::empty());
        g
    }

    /// Adds `to` to the neighbour set of `from`, which is created if absent.
    fn link(&mut self, from: u32, to: u32)
        ensures
            final(self)@ == old(self)@.insert(from, old(self).neighbor_set(from).insert(to)),
    {
        let mut set = match self.edges.remove(&from) {
            Some(s) => s,
            None => HashSet::new(),
        };
        set.insert(to);
        self.edges.insert(from, set);
        assert(self@ =~= old(self)@.insert(from, old(self).neighbor_set(from).insert(to)));
    }

    /// Inserts the undirected edge between `a` and `b`. Inserting an edge a
    /// second time changes nothing; `a == b` gives a node that is its own
    /// neighbour.
    pub fn add_edge(&mut self, a: u32, b: u32)
        requires
            old(self).wf(),
        ensures
            final(self).wf(),
            final(self)@.dom() == old(self)@.dom().insert(a).insert(b),
            final(self).adjacent(a, b),
            final(self).adjacent(b, a),
            forall|x: u32, y: u32|
                final(self).adjacent(x, y) <==> old(self).adjacent(x, y) || (x == a && y == b) || (x
                    == b && y == a),
            old(self).adjacent(a, b) ==> final(self)@ == old(self)@,
    {
        self.link(a, b);
        self.link(b, a);
        proof {
            assert(self@.dom() =~= old(self)@.dom().insert(a).insert(b));
            assert(self@.dom().finite());
            assert forall|x: u32, y: u32|
                self.adjacent(x, y) <==> old(self).adjacent(x, y) || (x == a && y == b) || (x == b
                    && y == a) by {}
            assert forall|x: u32, y: u32| #[trigger] self.adjacent(x, y) implies self.adjacent(
                y,
                x,
            ) by {
                if old(self).adjacent(x, y) {
                    assert(old(self).adjacent(y, x));
                }
            }
            if old(self).adjacent(a, b) {
                assert(old(self).adjacent(b, a));
                assert(old(self)@[a].insert(b) =~= old(self)@[a]);
                assert(old(self)@[b].insert(a) =~= old(self)@[b]);
                assert(self@ =~= old(self)@);
            }
        }
    }

    /// The stored neighbour set of `node`, if the graph has the node.
    pub(crate) fn neighbor_ref(&self, node: u32) -> (r: Option<&HashSet<u32>>)
        ensures
            match r {
                Some(set) => self@.contains_key(node) && set@ == self@[node],
                None => !self@.contains_key(node),
            },
    {
        self.edges.get(&node)
    }

    /// Whether the edge between `a` and `b` is in the graph.
    pub fn has_edge(&self, a: u32, b: u32) -> (r: bool)
        ensures
            r == self.adjacent(a, b),
    {
        match self.edges.get(&a) {
            Some(set) => set.contains(&b),
            None => false,
        }
    }

    /// The nodes of the graph, each once, in no particular order.
    pub fn nodes(&self) -> (list: Vec<u32>)
        ensures
            list@.no_duplicates(),
            list@.to_set() == self@.dom(),
            list@.len() == self@.dom().len(),
    {
        let mut list: Vec<u32> = Vec::new();
        let ghost order: Seq<u32> = self.edges.keys().remaining().unref();
        assert(self.edges@.dom() =~= self@.dom());
        for x in it: self.edges.keys()
            invariant
                order == it.seq().unref(),
                list@ == order.take(it.index()),
        {
            list.push(*x);
            assert(order.take(it.index() + 1) =~= order.take(it.index()).push(order[it.index()]));
        }
        assert(list@ =~= order);
        list
    }

    /// The neighbours of `node`, each once, in no particular order; empty for
    /// a node that the graph lacks.
    pub fn neighbors(&self, node: u32) -> (list: Vec<u32>)
        ensures
            list@.no_duplicates(),
            list@.to_set() == self.neighbor_set(node),
            list@.len() == self.neighbor_set(node).len(),
    {
        let mut list: Vec<u32> = Vec::new();
        match self.edges.get(&node) {
            Some(set) => {
                let ghost order: Seq<u32> = set.iter().remaining().unref();
                for x in it: set.iter()
                    invariant
                        order == it.seq().unref(),
                        list@ == order.take(it.index()),
                {
                    list.push(*x);
                    assert(order.take(it.index() + 1) =~= order.take(it.index()).push(
                        order[it.index()],
                    ));
                }
                assert(list@ =~= order);
            },
            None => {
                assert(list@.to_set() =~= Set::<u32>::empty());
            },
        }
        list
    }
}

} // verus!
