//! The indexed topology and the mathematical model of reachability on it.

use vstd::prelude::*;

verus! {

/// One node of the topology: its stake and the nodes it receives from.
///
/// `producers` lists node ids in the order in which the node declares them.
pub struct Node {
    pub stake: u64,
    pub producers: Vec<usize>,
}

/// A topology: node `i` is `nodes[i]`.
///
/// An id at or above `nodes.len()` stands for a name that is referred to but
/// that has no node of its own; such an id has no producers.
pub struct Topology {
    pub nodes: Vec<Node>,
}

impl Topology {
    /// The producer lists of all nodes, in node order.
    pub open spec fn adj(&self) -> Seq<Seq<usize>> {
        self.nodes@.map_values(|n: Node| n.producers@)
    }

    /// The stakes of all nodes, in node order.
    pub open spec fn stakes(&self) -> Seq<u64> {
        self.nodes@.map_values(|n: Node| n.stake)
    }

    /// No node lists the same producer twice.
    pub open spec fn producers_distinct(&self) -> bool {
        forall|x: int| 0 <= x < self.nodes@.len() ==> seq_distinct(#[trigger] self.adj()[x])
    }

    /// Every producer is a node of the topology, and none is listed twice.
    pub open spec fn well_formed(&self) -> bool {
        &&& self.producers_distinct()
        &&& edges_below(self.adj(), self.nodes@.len() as int)
    }
}

/// No element occurs twice in `s`.
pub open spec fn seq_distinct(s: Seq<usize>) -> bool {
    forall|i: int, j: int| 0 <= i < s.len() && 0 <= j < s.len() && i != j ==> s[i] != s[j]
}

/// Every producer id in `adj` is below `bound`.
pub open spec fn edges_below(adj: Seq<Seq<usize>>, bound: int) -> bool {
    forall|x: int, e: int|
        0 <= x < adj.len() && 0 <= e < adj[x].len() ==> (#[trigger] adj[x][e]) < bound
}

/// The producers of `u`; empty for an id that has no node.
pub open spec fn succ(adj: Seq<Seq<usize>>, u: int) -> Seq<usize> {
    if 0 <= u < adj.len() {
        adj[u]
    } else {
        Seq::empty()
    }
}

/// `u` lists `v` among its producers.
pub open spec fn has_edge(adj: Seq<Seq<usize>>, u: int, v: int) -> bool {
    exists|e: int| 0 <= e < succ(adj, u).len() && succ(adj, u)[e] as int == v
}

/// The ids reached from `s` in at most `k` steps along producer links,
/// never entering `avoid` (an `avoid` of `-1` avoids nothing).
pub open spec fn within(adj: Seq<Seq<usize>>, s: int, avoid: int, k: nat) -> Set<int>
    decreases k,
{
    if k == 0 {
        set![s]
    } else {
        let prev = within(adj, s, avoid, (k - 1) as nat);
        prev.union(
            Set::new(
                |v: int| v != avoid && exists|u: int| #[trigger] prev.contains(u) && has_edge(adj, u, v),
            ),
        )
    }
}

/// The ids whose shortest distance from `s` (avoiding `avoid`) is exactly `k`.
pub open spec fn layer(adj: Seq<Seq<usize>>, s: int, avoid: int, k: nat) -> Set<int> {
    if k == 0 {
        set![s]
    } else {
        within(adj, s, avoid, k).difference(within(adj, s, avoid, (k - 1) as nat))
    }
}

/// `v` can be reached from `s` without entering `avoid`.
pub open spec fn reachable(adj: Seq<Seq<usize>>, s: int, avoid: int, v: int) -> bool {
    exists|k: nat| #[trigger] within(adj, s, avoid, k).contains(v)
}

/// The number of `true` entries of `s`.
pub open spec fn count_true(s: Seq<bool>) -> nat
    decreases s.len(),
{
    if s.len() == 0 {
        0
    } else {
        count_true(s.drop_last()) + if s.last() {
            1nat
        } else {
            0nat
        }
    }
}

pub proof fn lemma_count_true_bound(s: Seq<bool>)
    ensures
        count_true(s) <= s.len(),
    decreases s.len(),
{
    if s.len() > 0 {
        lemma_count_true_bound(s.drop_last());
    }
}

pub proof fn lemma_count_true_set(s: Seq<bool>, i: int)
    requires
        0 <= i < s.len(),
        !s[i],
    ensures
        count_true(s.update(i, true)) == count_true(s) + 1,
    decreases s.len(),
{
    let t = s.update(i, true);
    if i == s.len() - 1 {
        assert(t.drop_last() =~= s.drop_last());
    } else {
        lemma_count_true_set(s.drop_last(), i);
        assert(t.drop_last() =~= s.drop_last().update(i, true));
    }
}

/// Reaching within `j` steps implies reaching within any `k >= j` steps.
pub proof fn lemma_within_monotone(adj: Seq<Seq<usize>>, s: int, avoid: int, j: nat, k: nat)
    requires
        j <= k,
    ensures
        within(adj, s, avoid, j).subset_of(within(adj, s, avoid, k)),
    decreases k - j,
{
    if j < k {
        lemma_within_monotone(adj, s, avoid, j, (k - 1) as nat);
    }
}

/// Once a step adds nothing, no later step does.
pub proof fn lemma_within_stable(adj: Seq<Seq<usize>>, s: int, avoid: int, l: nat, k: nat)
    requires
        within(adj, s, avoid, l + 1) == within(adj, s, avoid, l),
        l <= k,
    ensures
        within(adj, s, avoid, k) == within(adj, s, avoid, l),
    decreases k - l,
{
    if l < k {
        lemma_within_stable(adj, s, avoid, l, (k - 1) as nat);
        assert(within(adj, s, avoid, (k - 1) as nat) == within(adj, s, avoid, l));
        assert(within(adj, s, avoid, k) == within(adj, s, avoid, l + 1));
    }
}

/// Once a step adds nothing, everything reachable lies within that many steps.
pub proof fn lemma_reachable_within(adj: Seq<Seq<usize>>, s: int, avoid: int, l: nat, v: int)
    requires
        within(adj, s, avoid, l + 1) == within(adj, s, avoid, l),
        reachable(adj, s, avoid, v),
    ensures
        within(adj, s, avoid, l).contains(v),
{
    let k = choose|k: nat| #[trigger] within(adj, s, avoid, k).contains(v);
    if k <= l {
        lemma_within_monotone(adj, s, avoid, k, l);
    } else {
        lemma_within_stable(adj, s, avoid, l, k);
    }
}


/// `w` is a walk along producer links: each id lists the next one as a
/// producer, and no id after the first is `avoid`.
pub open spec fn is_walk(adj: Seq<Seq<usize>>, w: Seq<int>, avoid: int) -> bool {
    &&& w.len() >= 1
    &&& forall|i: int, j: int|
        0 <= i && j == i + 1 && j < w.len() ==> has_edge(adj, #[trigger] w[i], #[trigger] w[j])
    &&& forall|i: int| 1 <= i < w.len() ==> #[trigger] w[i] != avoid
}

/// The end of a walk lies within as many steps as the walk has links.
pub proof fn lemma_walk_within(adj: Seq<Seq<usize>>, w: Seq<int>, avoid: int)
    requires
        is_walk(adj, w, avoid),
    ensures
        within(adj, w[0], avoid, (w.len() - 1) as nat).contains(w.last()),
    decreases w.len(),
{
    if w.len() > 1 {
        let p = w.drop_last();
        assert forall|i: int, j: int| 0 <= i && j == i + 1 && j < p.len() implies has_edge(adj, #[trigger] p[i], #[trigger] p[j]) by {
            assert(p[i] == w[i] && p[j] == w[j]);
        }
        assert forall|i: int| 1 <= i < p.len() implies #[trigger] p[i] != avoid by {
            assert(p[i] == w[i]);
        }
        lemma_walk_within(adj, p, avoid);
        let k = (w.len() - 1) as nat;
        let prev = within(adj, w[0], avoid, (k - 1) as nat);
        let u = w[w.len() - 2];
        assert(p.last() == u);
        assert(prev.contains(u));
        assert(has_edge(adj, w[w.len() - 2], w[w.len() - 1]));
        assert(w.last() != avoid);
    }
}

/// Every id within `k` steps is the end of a walk from the start.
pub proof fn lemma_within_walk(adj: Seq<Seq<usize>>, s: int, avoid: int, k: nat, v: int)
    requires
        within(adj, s, avoid, k).contains(v),
    ensures
        exists|w: Seq<int>| #[trigger] is_walk(adj, w, avoid) && w[0] == s && w.last() == v && w.len() <= k + 1,
    decreases k,
{
    if k == 0 {
        let w = seq![s];
        assert(is_walk(adj, w, avoid));
    } else {
        let prev = within(adj, s, avoid, (k - 1) as nat);
        if prev.contains(v) {
            lemma_within_walk(adj, s, avoid, (k - 1) as nat, v);
        } else {
            let u = choose|u: int| #[trigger] prev.contains(u) && has_edge(adj, u, v);
            lemma_within_walk(adj, s, avoid, (k - 1) as nat, u);
            let p = choose|w: Seq<int>| #[trigger] is_walk(adj, w, avoid) && w[0] == s && w.last() == u && w.len() <= k;
            let w = p.push(v);
            assert forall|i: int, j: int| 0 <= i && j == i + 1 && j < w.len() implies has_edge(adj, #[trigger] w[i], #[trigger] w[j]) by {
                if j < p.len() {
                    assert(w[i] == p[i] && w[j] == p[j]);
                    assert(has_edge(adj, p[i], p[j]));
                } else {
                    assert(w[i] == u && w[j] == v);
                }
            }
            assert forall|i: int| 1 <= i < w.len() implies #[trigger] w[i] != avoid by {
                if i < p.len() {
                    assert(w[i] == p[i]);
                }
            }
            assert(is_walk(adj, w, avoid));
            assert(w[0] == s && w.last() == v && w.len() <= k + 1);
        }
    }
}

/// An id is reachable exactly when some walk from the start that never
/// enters `avoid` ends there.
pub proof fn lemma_reachable_iff_walk(adj: Seq<Seq<usize>>, s: int, avoid: int, v: int)
    ensures
        reachable(adj, s, avoid, v) <==> exists|w: Seq<int>| #[trigger] is_walk(adj, w, avoid) && w[0] == s && w.last() == v,
{
    if reachable(adj, s, avoid, v) {
        let k = choose|k: nat| #[trigger] within(adj, s, avoid, k).contains(v);
        lemma_within_walk(adj, s, avoid, k, v);
        let w = choose|w: Seq<int>| #[trigger] is_walk(adj, w, avoid) && w[0] == s && w.last() == v && w.len() <= k + 1;
        assert(is_walk(adj, w, avoid) && w[0] == s && w.last() == v);
    }
    if exists|w: Seq<int>| #[trigger] is_walk(adj, w, avoid) && w[0] == s && w.last() == v {
        let w = choose|w: Seq<int>| #[trigger] is_walk(adj, w, avoid) && w[0] == s && w.last() == v;
        lemma_walk_within(adj, w, avoid);
        assert(within(adj, s, avoid, (w.len() - 1) as nat).contains(v));
    }
}


/// The ids at hop distance `k` are exactly those that some walk of `k`
/// links reaches from the start and no shorter walk does.
pub proof fn lemma_layer_is_shortest_walk(adj: Seq<Seq<usize>>, s: int, avoid: int, k: nat, v: int)
    ensures
        layer(adj, s, avoid, k).contains(v) <==> ((exists|w: Seq<int>|
            #[trigger] is_walk(adj, w, avoid) && w[0] == s && w.last() == v && w.len() == k + 1)
            && !(exists|w: Seq<int>|
            #[trigger] is_walk(adj, w, avoid) && w[0] == s && w.last() == v && w.len() < k + 1)),
{
    if layer(adj, s, avoid, k).contains(v) {
        assert(within(adj, s, avoid, k).contains(v));
        lemma_within_walk(adj, s, avoid, k, v);
        let w = choose|w: Seq<int>| #[trigger] is_walk(adj, w, avoid) && w[0] == s && w.last() == v && w.len() <= k + 1;
        if w.len() < k + 1 {
            lemma_walk_within(adj, w, avoid);
            lemma_within_monotone(adj, s, avoid, (w.len() - 1) as nat, (k - 1) as nat);
        }
        assert(w.len() == k + 1);
        if exists|w2: Seq<int>| #[trigger] is_walk(adj, w2, avoid) && w2[0] == s && w2.last() == v && w2.len() < k + 1 {
            let w2 = choose|w2: Seq<int>| #[trigger] is_walk(adj, w2, avoid) && w2[0] == s && w2.last() == v && w2.len() < k + 1;
            lemma_walk_within(adj, w2, avoid);
            lemma_within_monotone(adj, s, avoid, (w2.len() - 1) as nat, (k - 1) as nat);
        }
    }
    if (exists|w: Seq<int>|
        #[trigger] is_walk(adj, w, avoid) && w[0] == s && w.last() == v && w.len() == k + 1)
        && !(exists|w: Seq<int>|
        #[trigger] is_walk(adj, w, avoid) && w[0] == s && w.last() == v && w.len() < k + 1) {
        let w = choose|w: Seq<int>| #[trigger] is_walk(adj, w, avoid) && w[0] == s && w.last() == v && w.len() == k + 1;
        lemma_walk_within(adj, w, avoid);
        if k == 0 {
            assert(w.len() == 1);
            assert(v == s);
        } else if within(adj, s, avoid, (k - 1) as nat).contains(v) {
            lemma_within_walk(adj, s, avoid, (k - 1) as nat, v);
        }
    }
}

} // verus!
