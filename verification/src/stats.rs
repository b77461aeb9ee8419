//! Statistics over all hop distances of the graph: their mean and their
//! median, each given as an exact ratio of integers.

use crate::graph::SocialNetwork;
use std::collections::HashMap;
use vstd::prelude::*;
use vstd::relations::sorted_by;
use vstd::relations::total_ordering;
use vstd::seq_lib::group_to_multiset_ensures;
use vstd::std_specs::iter::IteratorSpec;

verus! {

broadcast use vstd::std_specs::hash::group_hash_axioms;

/// The exact value `numerator / denominator` of a statistic. A mean over no
/// distances at all has numerator and denominator 0.
#[derive(Debug, Clone, Copy, PartialEq, Eq, Structural)]
pub struct Ratio {
    pub numerator: u128,
    pub denominator: u128,
}

/// The order by which distances are sorted.
pub open spec fn leq() -> spec_fn(usize, usize) -> bool {
    |a: usize, b: usize| a <= b
}

/// The distances `ds` in ascending order.
pub open spec fn ascending(ds: Seq<usize>) -> Seq<usize> {
    ds.sort_by(leq())
}

/// The sum of the distances `ds`.
pub open spec fn total(ds: Seq<usize>) -> nat
    decreases ds.len(),
{
    if ds.len() == 0 {
        0
    } else {
        (total(ds.drop_last()) + ds.last()) as nat
    }
}

/// The median of a non-empty ascending sequence: its middle element, or the
/// sum of its two middle elements over 2.
pub open spec fn middle(sorted: Seq<usize>) -> Ratio {
    let mid = (sorted.len() / 2) as int;
    if sorted.len() % 2 == 0 {
        Ratio { numerator: (sorted[mid - 1] + sorted[mid]) as u128, denominator: 2 }
    } else {
        Ratio { numerator: sorted[mid] as u128, denominator: 1 }
    }
}

/// The sum of a sequence of distances is at most its length times the
/// largest distance there is.
pub proof fn lemma_total_bound(ds: Seq<usize>)
    ensures
        total(ds) <= ds.len() * usize::MAX,
    decreases ds.len(),
{
    if ds.len() > 0 {
        lemma_total_bound(ds.drop_last());
        assert((ds.len() - 1) * usize::MAX + usize::MAX == ds.len() * usize::MAX)
            by (nonlinear_arith);
    }
}

/// Sorts `v` in place with `sort` of std's slices, which the documentation
/// describes as sorting in ascending order: afterwards `v` holds the same
/// values as before, each as often as before, and none before a smaller one.
#[verifier::external_body]
fn sort_ascending(v: &mut Vec<usize>)
    ensures
        final(v)@.to_multiset() == old(v)@.to_multiset(),
        forall|i: int, j: int| 0 <= i < j < final(v)@.len() ==> final(v)@[i] <= final(v)@[j],
{
    v.sort();
}

/// The mean of the distances `ds`: their sum over their number.
pub fn mean_of(ds: &Vec<usize>) -> (r: Ratio)
    ensures
        r.numerator == total(ds@),
        r.denominator == ds@.len(),
{
    let mut sum: u128 = 0;
    let mut i: usize = 0;
    while i < ds.len()
        invariant
            i <= ds.len(),
            sum == total(ds@.take(i as int)),
        decreases ds.len() - i,
    {
        proof {
            assert(ds@.take(i + 1).drop_last() =~= ds@.take(i as int));
            lemma_total_bound(ds@.take(i + 1));
            assert((i + 1) * usize::MAX <= usize::MAX * usize::MAX) by (nonlinear_arith)
                requires
                    i + 1 <= usize::MAX,
            ;
        }
        sum = sum + ds[i] as u128;
        i += 1;
    }
    assert(ds@.take(ds.len() as int) =~= ds@);
    Ratio { numerator: sum, denominator: ds.len() as u128 }
}

/// The median of the distances `ds`: with them in ascending order, the
/// middle one, or the sum of the two middle ones over 2; `None` where there
/// is no distance.
pub fn median_of(ds: Vec<usize>) -> (r: Option<Ratio>)
    ensures
        r is None <==> ds@.len() == 0,
        r is Some ==> r == Some(middle(ascending(ds@))),
{
    let mut sorted = ds;
    sort_ascending(&mut sorted);
    proof {
        broadcast use group_to_multiset_ensures;

        assert(total_ordering(leq()));
        ds@.lemma_sort_by_ensures(leq());
        assert(sorted_by(sorted@, leq()));
        vstd::seq_lib::lemma_sorted_unique(sorted@, ascending(ds@), leq());
        assert(sorted@.len() == sorted@.to_multiset().len());
        assert(ds@.len() == ds@.to_multiset().len());
    }
    let len = sorted.len();
    if len == 0 {
        None
    } else if len % 2 == 0 {
        let mid = len / 2;
        Some(Ratio { numerator: sorted[mid - 1] as u128 + sorted[mid] as u128, denominator: 2 })
    } else {
        Some(Ratio { numerator: sorted[len / 2] as u128, denominator: 1 })
    }
}

/// The sum of distances that are each at most `m` is at most their number
/// times `m`.
pub proof fn lemma_total_at_most(ds: Seq<usize>, m: int)
    requires
        forall|i: int| 0 <= i < ds.len() ==> #[trigger] ds[i] <= m,
    ensures
        total(ds) <= ds.len() * m,
    decreases ds.len(),
{
    if ds.len() > 0 {
        let front = ds.drop_last();
        assert forall|i: int| 0 <= i < front.len() implies #[trigger] front[i] <= m by {
            assert(front[i] == ds[i]);
        }
        lemma_total_at_most(front, m);
        assert(ds.last() == ds[ds.len() - 1]);
        assert((ds.len() - 1) * m + m == ds.len() * m) by (nonlinear_arith);
    }
}

/// Removing the distance at index `j` lowers the sum by that distance.
pub proof fn lemma_total_remove(ds: Seq<usize>, j: int)
    requires
        0 <= j < ds.len(),
    ensures
        total(ds) == total(ds.remove(j)) + ds[j],
    decreases ds.len(),
{
    if j == ds.len() - 1 {
        assert(ds.remove(j) =~= ds.drop_last());
    } else {
        lemma_total_remove(ds.drop_last(), j);
        assert(ds.remove(j).drop_last() =~= ds.drop_last().remove(j));
        assert(ds.remove(j).last() == ds.last());
    }
}

/// The sum of a sequence of distances does not depend on their order.
pub proof fn lemma_total_permutation(a: Seq<usize>, b: Seq<usize>)
    requires
        a.to_multiset() == b.to_multiset(),
    ensures
        total(a) == total(b),
        a.len() == b.len(),
    decreases a.len(),
{
    broadcast use group_to_multiset_ensures;

    assert(a.len() == a.to_multiset().len());
    assert(b.len() == b.to_multiset().len());
    if a.len() > 0 {
        let x = a.last();
        let front = a.drop_last();
        assert(a =~= front.push(x));
        assert(a.to_multiset() =~= front.to_multiset().insert(x));
        assert(a.contains(x));
        assert(b.to_multiset().count(x) > 0);
        assert(b.contains(x));
        let j = choose|j: int| 0 <= j < b.len() && b[j] == x;
        let rest = b.remove(j);
        assert(rest.to_multiset() =~= b.to_multiset().remove(x));
        assert(front.to_multiset() =~= rest.to_multiset());
        lemma_total_permutation(front, rest);
        lemma_total_remove(b, j);
    }
}

impl SocialNetwork {
    /// The ordered pairs of a node of the graph and a node reachable from
    /// it; each node is paired with itself.
    pub open spec fn pairs(&self) -> Set<(u32, u32)> {
        Set::new(|p: (u32, u32)| self@.contains_key(p.0) && self.reachable(p.0, p.1))
    }

    /// The pairs of `s` and a node reachable from it.
    pub open spec fn pairs_from(&self, s: u32) -> Set<(u32, u32)> {
        Set::new(|p: (u32, u32)| p.0 == s && self.reachable(s, p.1))
    }

    /// The pairs among `among` whose second node lies at hop distance `d`
    /// from the first.
    pub open spec fn at_distance(&self, among: Set<(u32, u32)>, d: nat) -> Set<(u32, u32)> {
        Set::new(|p: (u32, u32)| among.contains(p) && self.distance(p.0, p.1) == d)
    }

    /// How many pairs of the graph lie at hop distance `d`.
    pub open spec fn pair_count(&self, d: nat) -> nat {
        self.at_distance(self.pairs(), d).len()
    }

    /// `ds` lists the hop distance of every pair of the graph, one entry for
    /// each pair, in any order.
    pub open spec fn is_distance_listing(&self, ds: Seq<usize>) -> bool {
        forall|d: usize| #[trigger] ds.to_multiset().count(d) == self.pair_count(d as nat)
    }

    /// Some listing of the hop distances of all pairs of the graph. Its sum,
    /// its length and its ascending order are those of every such listing.
    pub open spec fn distance_listing(&self) -> Seq<usize> {
        choose|ds: Seq<usize>| self.is_distance_listing(ds)
    }

    /// One more pair raises the count at its own distance by one, and no
    /// other count.
    proof fn lemma_count_insert(&self, among: Set<(u32, u32)>, p: (u32, u32), d: nat)
        requires
            among.finite(),
            !among.contains(p),
        ensures
            self.at_distance(among, d).finite(),
            self.at_distance(among.insert(p), d).len() == self.at_distance(among, d).len() + (if self.distance(
                p.0,
                p.1,
            ) == d {
                1nat
            } else {
                0nat
            }),
    {
        vstd::set_lib::lemma_len_subset(self.at_distance(among, d), among);
        if self.distance(p.0, p.1) == d {
            assert(self.at_distance(among.insert(p), d) =~= self.at_distance(among, d).insert(p));
        } else {
            assert(self.at_distance(among.insert(p), d) =~= self.at_distance(among, d));
        }
    }

    /// Two listings of the distances of one graph hold the same distances,
    /// each as often in the one as in the other.
    pub proof fn lemma_listing_unique(&self, a: Seq<usize>, b: Seq<usize>)
        requires
            self.is_distance_listing(a),
            self.is_distance_listing(b),
        ensures
            a.to_multiset() == b.to_multiset(),
            total(a) == total(b),
            a.len() == b.len(),
            ascending(a) == ascending(b),
    {
        assert forall|d: usize| a.to_multiset().count(d) == b.to_multiset().count(d) by {
            assert(a.to_multiset().count(d) == self.pair_count(d as nat));
            assert(b.to_multiset().count(d) == self.pair_count(d as nat));
        }
        assert(a.to_multiset() =~= b.to_multiset());
        lemma_total_permutation(a, b);
        assert(total_ordering(leq()));
        a.lemma_sort_by_ensures(leq());
        b.lemma_sort_by_ensures(leq());
        vstd::seq_lib::lemma_sorted_unique(ascending(a), ascending(b), leq());
    }

    /// Where every edge joins a node to itself, a node reaches itself only.
    pub proof fn lemma_loops_reach_nothing(&self, s: u32, d: u32, n: nat)
        requires
            forall|a: u32, b: u32| #[trigger] self.adjacent(a, b) ==> a == b,
            self.within(s, d, n),
        ensures
            d == s,
        decreases n,
    {
        if n > 0 {
            if self.within(s, d, (n - 1) as nat) {
                self.lemma_loops_reach_nothing(s, d, (n - 1) as nat);
            } else {
                let m = choose|m: u32|
                    self.within(s, m, (n - 1) as nat) && #[trigger] self.adjacent(m, d);
                self.lemma_loops_reach_nothing(s, m, (n - 1) as nat);
            }
        }
    }

    /// The distances of all pairs sum to 0 exactly where no node has a
    /// neighbour other than itself.
    pub proof fn lemma_total_zero(&self, ds: Seq<usize>)
        requires
            self.is_distance_listing(ds),
            self.pairs().finite(),
        ensures
            total(ds) == 0 <==> (forall|a: u32, b: u32| #[trigger] self.adjacent(a, b) ==> a == b),
    {
        broadcast use group_to_multiset_ensures;

        if forall|a: u32, b: u32| #[trigger] self.adjacent(a, b) ==> a == b {
            assert forall|i: int| 0 <= i < ds.len() implies #[trigger] ds[i] <= 0 by {
                let d = ds[i];
                if d > 0 {
                    assert(ds.contains(d));
                    assert(ds.to_multiset().count(d) > 0);
                    assert(ds.to_multiset().count(d) == self.pair_count(d as nat));
                    let among = self.at_distance(self.pairs(), d as nat);
                    if among =~= Set::<(u32, u32)>::empty() {
                        assert(among.len() == 0);
                    } else {
                        let p = choose|p: (u32, u32)| among.contains(p);
                        assert(self.reachable(p.0, p.1));
                        let n = choose|n: nat| self.within(p.0, p.1, n);
                        self.lemma_loops_reach_nothing(p.0, p.1, n);
                        self.lemma_self_distance(p.0);
                    }
                }
            }
            lemma_total_at_most(ds, 0);
        } else {
            let (a, b) = choose|a: u32, b: u32| #[trigger] self.adjacent(a, b) && a != b;
            assert(self.within(a, a, 0));
            assert(self.within(a, b, 1));
            assert(!self.within(a, b, 0));
            self.lemma_distance_unique(a, b, 1);
            let among = self.at_distance(self.pairs(), 1);
            assert(self.pairs().contains((a, b)));
            assert(among.contains((a, b)));
            vstd::set_lib::lemma_len_subset(among, self.pairs());
            assert(among.len() > 0);
            assert(ds.to_multiset().count(1usize) == self.pair_count(1));
            assert(ds.contains(1usize));
            let j = choose|j: int| 0 <= j < ds.len() && ds[j] == 1usize;
            lemma_total_remove(ds, j);
        }
    }

    /// Appends to `out` the hop distance from `s` of every node reachable
    /// from `s`. `seen` holds the pairs whose distances `out` lists so far.
    fn collect_from(&self, s: u32, out: &mut Vec<usize>, Ghost(seen): Ghost<Set<(u32, u32)>>)
        requires
            self.wf(),
            seen.finite(),
            forall|p: (u32, u32)| #[trigger] seen.contains(p) ==> p.0 != s,
            forall|d: usize| #[trigger]
                old(out)@.to_multiset().count(d) == self.at_distance(seen, d as nat).len(),
            old(out)@.len() == seen.len(),
            self@.contains_key(s),
            forall|i: int| 0 <= i < old(out)@.len() ==> #[trigger] old(out)@[i] < self@.dom().len(),
        ensures
            forall|i: int|
                0 <= i < final(out)@.len() ==> #[trigger] final(out)@[i] < self@.dom().len(),
            seen.union(self.pairs_from(s)).finite(),
            final(out)@.len() == seen.union(self.pairs_from(s)).len(),
            forall|d: usize| #[trigger]
                final(out)@.to_multiset().count(d) == self.at_distance(
                    seen.union(self.pairs_from(s)),
                    d as nat,
                ).len(),
            final(out)@.len() > old(out)@.len(),
    {
        let m = self.bfs(s);
        assert(self@.dom().insert(s) =~= self@.dom());
        let ghost order: Seq<u32> = m.keys().remaining().unref();
        let ghost mut cur: Set<(u32, u32)> = seen;
        let ghost before = out@.len();
        for t in it: m.keys()
            invariant
                order == it.seq().unref(),
                order.no_duplicates(),
                order.to_set() == m@.dom(),
                self.is_distance_map(s, m@),
                forall|v: u32| #[trigger] m@.contains_key(v) ==> m@[v] == self.distance(s, v),
                cur.finite(),
                forall|p: (u32, u32)| #[trigger]
                    cur.contains(p) <==> seen.contains(p) || (p.0 == s && exists|i: int|
                        0 <= i < it.index() && #[trigger] order[i] == p.1),
                forall|p: (u32, u32)| #[trigger] seen.contains(p) ==> p.0 != s,
                forall|d: usize| #[trigger]
                    out@.to_multiset().count(d) == self.at_distance(cur, d as nat).len(),
                out@.len() == before + it.index(),
                out@.len() == cur.len(),
                forall|v: u32| #[trigger] m@.contains_key(v) ==> m@[v] < self@.dom().len(),
                forall|i: int| 0 <= i < out@.len() ==> #[trigger] out@[i] < self@.dom().len(),
        {
            let ghost j = it.index() as int;
            assert(*t == order[j]);
            assert(order.to_set().contains(*t));
            let dv: usize = match m.get(t) {
                Some(d) => *d,
                None => 0,
            };
            proof {
                broadcast use group_to_multiset_ensures;

                let p = (s, *t);
                assert(!cur.contains(p));
                assert forall|d: usize| #[trigger]
                    out@.push(dv).to_multiset().count(d) == self.at_distance(
                        cur.insert(p),
                        d as nat,
                    ).len() by {
                    self.lemma_count_insert(cur, p, d as nat);
                    assert(out@.push(dv).to_multiset() =~= out@.to_multiset().insert(dv));
                    assert(out@.to_multiset().count(d) == self.at_distance(cur, d as nat).len());
                }
                assert forall|q: (u32, u32)| #[trigger]
                    cur.insert(p).contains(q) <==> seen.contains(q) || (q.0 == s && exists|i: int|
                        0 <= i < j + 1 && #[trigger] order[i] == q.1) by {
                    if q == p {
                        assert(order[j] == q.1);
                    }
                }
                cur = cur.insert(p);
            }
            out.push(dv);
        }
        proof {
            assert(order.to_set().contains(s));
            assert forall|q: (u32, u32)|
                cur.contains(q) <==> seen.union(self.pairs_from(s)).contains(q) by {
                if q.0 == s && self.reachable(s, q.1) {
                    assert(m@.contains_key(q.1));
                    assert(order.to_set().contains(q.1));
                }
                if cur.contains(q) && !seen.contains(q) {
                    let i = choose|i: int| 0 <= i < order.len() && #[trigger] order[i] == q.1;
                    assert(order.to_set().contains(order[i]));
                    assert(m@.contains_key(q.1));
                }
            }
            assert(cur =~= seen.union(self.pairs_from(s)));
        }
    }

    /// The hop distance of every pair of the graph: for each node, its
    /// distance to each node that it reaches, itself included.
    pub fn all_distances(&self) -> (ds: Vec<usize>)
        requires
            self.wf(),
        ensures
            self.is_distance_listing(ds@),
            self.pairs().finite(),
            ds@.len() == self.pairs().len(),
            ds@.len() == 0 <==> self@.dom() == Set::<u32>::empty(),
            forall|i: int| 0 <= i < ds@.len() ==> #[trigger] ds@[i] < self@.dom().len(),
    {
        let nodes = self.nodes();
        let mut out: Vec<usize> = Vec::new();
        let ghost mut seen: Set<(u32, u32)> = Set::empty();
        let mut k: usize = 0;
        proof {
            assert forall|d: usize| #[trigger]
                out@.to_multiset().count(d) == self.at_distance(seen, d as nat).len() by {
                assert(self.at_distance(seen, d as nat) =~= Set::<(u32, u32)>::empty());
                assert(out@ =~= Seq::<usize>::empty());
                out@.to_multiset_ensures();
                assert(out@.to_multiset().len() == 0);
            }
        }
        while k < nodes.len()
            invariant
                self.wf(),
                nodes@.no_duplicates(),
                nodes@.to_set() == self@.dom(),
                k <= nodes.len(),
                seen.finite(),
                forall|p: (u32, u32)| #[trigger]
                    seen.contains(p) <==> self.reachable(p.0, p.1) && exists|i: int|
                        0 <= i < k && #[trigger] nodes@[i] == p.0,
                forall|d: usize| #[trigger]
                    out@.to_multiset().count(d) == self.at_distance(seen, d as nat).len(),
                out@.len() == seen.len(),
                forall|i: int| 0 <= i < out@.len() ==> #[trigger] out@[i] < self@.dom().len(),
                k > 0 ==> out@.len() > 0,
                k == 0 ==> out@.len() == 0,
            decreases nodes.len() - k,
        {
            let s = nodes[k];
            assert(nodes@.to_set().contains(nodes@[k as int]));
            self.collect_from(s, &mut out, Ghost(seen));
            proof {
                let grown = seen.union(self.pairs_from(s));
                assert forall|p: (u32, u32)| #[trigger]
                    grown.contains(p) <==> self.reachable(p.0, p.1) && exists|i: int|
                        0 <= i < k + 1 && #[trigger] nodes@[i] == p.0 by {
                    if self.pairs_from(s).contains(p) {
                        assert(nodes@[k as int] == p.0);
                    }
                }
                seen = grown;
            }
            k += 1;
        }
        proof {
            assert forall|p: (u32, u32)| seen.contains(p) <==> self.pairs().contains(p) by {
                if self.pairs().contains(p) {
                    assert(nodes@.to_set().contains(p.0));
                }
                if seen.contains(p) {
                    let i = choose|i: int| 0 <= i < nodes@.len() && #[trigger] nodes@[i] == p.0;
                    assert(nodes@.to_set().contains(nodes@[i]));
                }
            }
            assert(seen =~= self.pairs());
            if nodes@.len() == 0 {
                assert(self@.dom() =~= Set::<u32>::empty());
            } else {
                assert(nodes@.to_set().contains(nodes@[0]));
            }
        }
        out
    }

    /// The mean of the hop distances of all pairs of the graph: their sum
    /// over their number, which is 0 over 0 for a graph without nodes. It is
    /// at most the number of nodes less one, and 0 exactly where no node
    /// has a neighbour other than itself.
    pub fn average_shortest_path_length(&self) -> (r: Ratio)
        requires
            self.wf(),
        ensures
            self.is_distance_listing(self.distance_listing()),
            r.numerator == total(self.distance_listing()),
            r.denominator == self.distance_listing().len(),
            self.pairs().finite(),
            r.denominator == self.pairs().len(),
            r.denominator == 0 <==> self@.dom() == Set::<u32>::empty(),
            r.numerator <= r.denominator * (self@.dom().len() - 1),
            r.numerator == 0 <==> (forall|a: u32, b: u32| #[trigger]
                self.adjacent(a, b) ==> a == b),
    {
        let ds = self.all_distances();
        proof {
            self.lemma_listing_unique(ds@, self.distance_listing());
            lemma_total_at_most(ds@, self@.dom().len() - 1);
            self.lemma_total_zero(ds@);
        }
        mean_of(&ds)
    }

    /// The median of the hop distances of all pairs of the graph: with them
    /// in ascending order, the middle one, or the sum of the two middle ones
    /// over 2. A graph without nodes has no median.
    pub fn median_shortest_path_length(&self) -> (r: Option<Ratio>)
        requires
            self.wf(),
        ensures
            self.is_distance_listing(self.distance_listing()),
            r is None <==> self@.dom() == Set::<u32>::empty(),
            r is Some ==> r == Some(middle(ascending(self.distance_listing()))),
    {
        let ds = self.all_distances();
        proof {
            self.lemma_listing_unique(ds@, self.distance_listing());
        }
        median_of(ds)
    }
}

} // verus!
