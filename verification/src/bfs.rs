//! Breadth-first exploration of a topology, one hop level at a time.

use vstd::prelude::*;
use crate::graph::{
    Topology, succ, has_edge, edges_below, seq_distinct, count_true, lemma_count_true_set,
    lemma_count_true_bound, within, layer, reachable, lemma_within_monotone, lemma_reachable_within,
};

verus! {

/// How a node was first reached in a level: `node` was found as producer
/// number `edge` of the node at position `from` of the previous level.
#[derive(Clone, Copy)]
pub struct Arrival {
    pub node: usize,
    pub from: usize,
    pub edge: usize,
}

/// The node that is never entered; `-1` when none is avoided.
pub open spec fn avoid_id(avoid: Option<usize>) -> int {
    match avoid {
        Some(a) => a as int,
        None => -1,
    }
}

/// The nodes of a level, in order.
pub open spec fn arrival_nodes(next: Seq<Arrival>) -> Seq<usize> {
    next.map_values(|a: Arrival| a.node)
}

/// Each arrival names its predecessor in `frontier` and the first producer
/// entry of that predecessor that names it, and no earlier node of `frontier`
/// lists it as producer.
pub open spec fn arrivals_valid(adj: Seq<Seq<usize>>, frontier: Seq<usize>, next: Seq<Arrival>) -> bool {
    forall|j: int|
        0 <= j < next.len() ==> {
            let a = #[trigger] next[j];
            &&& a.from < frontier.len()
            &&& a.edge < succ(adj, frontier[a.from as int] as int).len()
            &&& succ(adj, frontier[a.from as int] as int)[a.edge as int] == a.node
            &&& forall|e: int| 0 <= e < a.edge ==> succ(adj, frontier[a.from as int] as int)[e] != a.node
            &&& forall|q: int| 0 <= q < a.from ==> !has_edge(adj, #[trigger] frontier[q] as int, a.node as int)
        }
}

/// Arrivals come in the order of their predecessor's position, then of the
/// producer entry.
pub open spec fn arrivals_ordered(next: Seq<Arrival>) -> bool {
    forall|i: int, j: int|
        0 <= i < j < next.len() ==> (#[trigger] next[i]).from < (#[trigger] next[j]).from || (
        next[i].from == next[j].from && next[i].edge < next[j].edge)
}

/// The state of an expansion after the producer entries before entry `k` of
/// frontier position `p` have been looked at.
pub open spec fn expansion_inv(
    adj: Seq<Seq<usize>>,
    frontier: Seq<usize>,
    v0: Seq<bool>,
    visited: Seq<bool>,
    avoid: int,
    next: Seq<Arrival>,
    p: int,
    k: int,
) -> bool {
    &&& visited.len() == v0.len()
    &&& forall|x: int|
        0 <= x < v0.len() ==> #[trigger] visited[x] == (v0[x] || ids(arrival_nodes(next)).contains(x))
    &&& forall|j: int|
        0 <= j < next.len() ==> (#[trigger] next[j]).node < v0.len() && !v0[next[j].node as int]
            && next[j].node != avoid
    &&& seq_distinct(arrival_nodes(next))
    &&& arrivals_valid(adj, frontier, next)
    &&& arrivals_ordered(next)
    &&& forall|j: int|
        0 <= j < next.len() ==> (#[trigger] next[j]).from < p || (next[j].from == p && next[j].edge
            < k)
    &&& forall|q: int, e: int|
        0 <= q < frontier.len() && 0 <= e < succ(adj, frontier[q] as int).len() && (q < p || (q
            == p && e < k)) ==> visited[#[trigger] succ(adj, frontier[q] as int)[e] as int]
            || succ(adj, frontier[q] as int)[e] == avoid
    &&& count_true(visited) == count_true(v0) + next.len()
}

/// Whether `x` occurs in a producer list.
pub fn lists_producer(producers: &Vec<usize>, x: usize) -> (found: bool)
    ensures
        found == producers@.contains(x),
{
    let mut i: usize = 0;
    while i < producers.len()
        invariant
            0 <= i <= producers.len(),
            forall|j: int| 0 <= j < i ==> producers@[j] != x,
        decreases producers.len() - i,
    {
        if producers[i] == x {
            return true;
        }
        i += 1;
    }
    false
}

/// Explores one hop further: every producer of a `frontier` node that is not
/// yet visited (and is not `avoid`) is marked visited and appended, in the
/// order of the frontier and then of each node's producer list.
pub fn expand_level(
    topology: &Topology,
    frontier: &Vec<usize>,
    visited: &mut Vec<bool>,
    avoid: Option<usize>,
) -> (next: Vec<Arrival>)
    requires
        edges_below(topology.adj(), old(visited).len() as int),
    ensures
        expansion_inv(
            topology.adj(),
            frontier@,
            old(visited)@,
            final(visited)@,
            avoid_id(avoid),
            next@,
            frontier@.len() as int,
            0,
        ),
{
    let ghost adj = topology.adj();
    let ghost v0 = visited@;
    let ghost av = avoid_id(avoid);
    let mut next: Vec<Arrival> = Vec::new();
    let mut p: usize = 0;
    assert(arrival_nodes(next@) =~= Seq::<usize>::empty());
    while p < frontier.len()
        invariant
            adj == topology.adj(),
            v0 == old(visited)@,
            av == avoid_id(avoid),
            edges_below(adj, v0.len() as int),
            0 <= p <= frontier.len(),
            expansion_inv(adj, frontier@, v0, visited@, av, next@, p as int, 0),
        decreases frontier.len() - p,
    {
        let u = frontier[p];
        if u < topology.nodes.len() {
            let prods = &topology.nodes[u].producers;
            assert(succ(adj, u as int) == prods@);
            let mut k: usize = 0;
            while k < prods.len()
                invariant
                    adj == topology.adj(),
                    v0 == old(visited)@,
                    av == avoid_id(avoid),
                    edges_below(adj, v0.len() as int),
                    0 <= p < frontier.len(),
                    u == frontier@[p as int],
                    u < topology.nodes@.len(),
                    succ(adj, u as int) == prods@,
                    0 <= k <= prods.len(),
                    expansion_inv(adj, frontier@, v0, visited@, av, next@, p as int, k as int),
                decreases prods.len() - k,
            {
                let v = prods[k];
                assert(succ(adj, frontier@[p as int] as int)[k as int] == v);
                assert(v < visited.len());
                let avoided = match avoid {
                    Some(a) => v == a,
                    None => false,
                };
                if !visited[v] && !avoided {
                    let ghost old_next = next@;
                    let ghost old_vis = visited@;
                    assert forall|q: int| 0 <= q < p implies !has_edge(adj, #[trigger] frontier@[q] as int, v as int) by {
                        if has_edge(adj, frontier@[q] as int, v as int) {
                            let e = choose|e: int|
                                0 <= e < succ(adj, frontier@[q] as int).len() && succ(
                                    adj,
                                    frontier@[q] as int,
                                )[e] as int == v as int;
                            assert(old_vis[succ(adj, frontier@[q] as int)[e] as int] || succ(
                                adj,
                                frontier@[q] as int,
                            )[e] == av);
                        }
                    }
                    proof {
                        lemma_count_true_set(old_vis, v as int);
                    }
                    visited[v] = true;
                    next.push(Arrival { node: v, from: p, edge: k });
                    assert(arrival_nodes(next@) =~= arrival_nodes(old_next).push(v));
                    assert(!arrival_nodes(old_next).contains(v)) by {
                        if arrival_nodes(old_next).contains(v) {
                            let i = choose|i: int| 0 <= i < arrival_nodes(old_next).len() && arrival_nodes(old_next)[i] == v;
                            assert(ids(arrival_nodes(old_next)).contains(v as int));
                        }
                    }
                    assert forall|x: int| 0 <= x < v0.len() implies #[trigger] visited@[x] == (v0[x]
                        || ids(arrival_nodes(next@)).contains(x)) by {
                        if x == v as int {
                            assert(arrival_nodes(next@)[old_next.len() as int] == v);
                        } else {
                            assert(visited@[x] == old_vis[x]);
                            if ids(arrival_nodes(next@)).contains(x) {
                                let i = choose|i: int| 0 <= i < arrival_nodes(next@).len() && arrival_nodes(next@)[i] as int == x;
                                assert(arrival_nodes(old_next)[i] as int == x);
                            }
                            if ids(arrival_nodes(old_next)).contains(x) {
                                let i = choose|i: int| 0 <= i < arrival_nodes(old_next).len() && arrival_nodes(old_next)[i] as int == x;
                                assert(arrival_nodes(next@)[i] as int == x);
                            }
                        }
                    }
                    assert(expansion_inv(adj, frontier@, v0, visited@, av, next@, p as int, k + 1));
                } else {
                    assert(visited@[v as int] || v as int == av);
                    assert(expansion_inv(adj, frontier@, v0, visited@, av, next@, p as int, k + 1));
                }
                k += 1;
            }
        }
        p += 1;
    }
    next
}


/// The ids held in `s`, as a set of integers.
pub open spec fn ids(s: Seq<usize>) -> Set<int> {
    Set::new(|x: int| exists|i: int| 0 <= i < s.len() && s[i] as int == x)
}

/// Every id reached from `s` within `k` steps lies in `[0, bound)`.
pub open spec fn within_below(adj: Seq<Seq<usize>>, s: int, avoid: int, k: nat, bound: int) -> bool {
    forall|x: int| #[trigger] within(adj, s, avoid, k).contains(x) ==> 0 <= x < bound
}

/// `visited` marks exactly the ids reached from `s` within `k` steps.
pub open spec fn marks_within(
    adj: Seq<Seq<usize>>,
    s: int,
    avoid: int,
    k: nat,
    visited: Seq<bool>,
) -> bool {
    forall|x: int| 0 <= x < visited.len() ==> (#[trigger] visited[x] <==> within(adj, s, avoid, k).contains(x))
}

/// One expansion of the level at distance `k` yields the level at distance `k + 1`.
proof fn lemma_next_level(
    adj: Seq<Seq<usize>>,
    s: int,
    avoid: int,
    k: nat,
    frontier: Seq<usize>,
    v0: Seq<bool>,
    v1: Seq<bool>,
    next: Seq<Arrival>,
)
    requires
        ids(frontier) == layer(adj, s, avoid, k),
        marks_within(adj, s, avoid, k, v0),
        within_below(adj, s, avoid, k, v0.len() as int),
        edges_below(adj, v0.len() as int),
        expansion_inv(adj, frontier, v0, v1, avoid, next, frontier.len() as int, 0),
    ensures
        ids(arrival_nodes(next)) == layer(adj, s, avoid, k + 1),
        marks_within(adj, s, avoid, k + 1, v1),
        within_below(adj, s, avoid, k + 1, v0.len() as int),
{
    let w = within(adj, s, avoid, k);
    let w1 = within(adj, s, avoid, k + 1);
    let bound = v0.len() as int;
    let nodes = arrival_nodes(next);
    assert(w1 == w.union(
        Set::new(|v: int| v != avoid && exists|u: int| #[trigger] w.contains(u) && has_edge(adj, u, v)),
    ));
    assert forall|x: int| #[trigger] w1.contains(x) && !w.contains(x) implies ids(nodes).contains(x) && 0 <= x < bound by {
        let u = choose|u: int| #[trigger] w.contains(u) && has_edge(adj, u, x);
        if k > 0 {
            let wp = within(adj, s, avoid, (k - 1) as nat);
            if wp.contains(u) {
                assert(w.contains(x));
            }
        }
        assert(layer(adj, s, avoid, k).contains(u));
        assert(ids(frontier).contains(u));
        let q = choose|q: int| 0 <= q < frontier.len() && frontier[q] as int == u;
        assert(frontier[q] as int == u);
        let e = choose|e: int| 0 <= e < succ(adj, u).len() && succ(adj, u)[e] as int == x;
        assert(0 <= u < adj.len());
        assert(adj[u][e] < bound);
        assert(v1[succ(adj, frontier[q] as int)[e] as int] || succ(adj, frontier[q] as int)[e] == avoid);
        assert(v1[x]);
        assert(!v0[x]);
    }
    assert forall|x: int| #[trigger] ids(nodes).contains(x) implies w1.contains(x) && !w.contains(x) by {
        let j = choose|j: int| 0 <= j < nodes.len() && nodes[j] as int == x;
        let a = next[j];
        assert(a.node as int == x);
        assert(!v0[x]);
        let u = frontier[a.from as int] as int;
        assert(ids(frontier).contains(u));
        assert(layer(adj, s, avoid, k).contains(u));
        assert(w.contains(u));
        assert(has_edge(adj, u, x));
    }
    assert(ids(nodes) =~= layer(adj, s, avoid, k + 1));
    assert forall|x: int| 0 <= x < v1.len() implies (#[trigger] v1[x] <==> w1.contains(x)) by {
        if ids(nodes).contains(x) {
            assert(w1.contains(x));
        }
        if w1.contains(x) && !w.contains(x) {
            assert(ids(nodes).contains(x));
        }
    }
    assert forall|x: int| #[trigger] w1.contains(x) implies 0 <= x < bound by {
        if !w.contains(x) {
            assert(ids(nodes).contains(x));
        }
    }
}


/// The levels of an exploration, as sequences.
pub open spec fn views(levels: Seq<Vec<Arrival>>) -> Seq<Seq<Arrival>> {
    levels.map_values(|l: Vec<Arrival>| l@)
}

/// `levels[k]` holds, without repetition, exactly the ids at distance `k`
/// from `s`; level 0 is `s` alone; each later level records how its nodes were
/// first reached from the level before, in discovery order.
pub open spec fn levels_inv(adj: Seq<Seq<usize>>, s: usize, avoid: int, levels: Seq<Seq<Arrival>>) -> bool {
    &&& levels.len() >= 1
    &&& levels[0] == seq![Arrival { node: s, from: 0, edge: 0 }]
    &&& forall|k: int|
        0 <= k < levels.len() ==> ids(arrival_nodes(#[trigger] levels[k])) == layer(
            adj,
            s as int,
            avoid,
            k as nat,
        )
    &&& forall|k: int|
        0 <= k < levels.len() ==> seq_distinct(arrival_nodes(#[trigger] levels[k])) && levels[k].len()
            > 0
    &&& forall|k: int|
        1 <= k < levels.len() ==> arrivals_valid(adj, arrival_nodes(levels[k - 1]), #[trigger] levels[k])
            && arrivals_ordered(levels[k])
}

/// The number of arrivals in the first `k` levels.
pub open spec fn total_len(levels: Seq<Seq<Arrival>>, k: int) -> nat
    decreases k,
{
    if k <= 0 {
        0
    } else {
        total_len(levels, k - 1) + levels[k - 1].len()
    }
}

pub proof fn lemma_total_len_monotone(levels: Seq<Seq<Arrival>>, j: int, k: int)
    requires
        j <= k <= levels.len(),
    ensures
        total_len(levels, j) <= total_len(levels, k),
    decreases k - j,
{
    if j < k {
        lemma_total_len_monotone(levels, j, k - 1);
    }
}

/// `total_len` of a prefix depends only on that prefix.
pub proof fn lemma_total_len_prefix(levels: Seq<Seq<Arrival>>, k: int)
    requires
        0 <= k <= levels.len(),
    ensures
        total_len(levels.take(k), k) == total_len(levels, k),
    decreases k,
{
    if k > 0 {
        lemma_total_len_prefix(levels, k - 1);
        lemma_total_len_take(levels, k, k - 1);
    }
}

proof fn lemma_total_len_take(levels: Seq<Seq<Arrival>>, m: int, k: int)
    requires
        0 <= k <= m <= levels.len(),
    ensures
        total_len(levels.take(m), k) == total_len(levels, k),
    decreases k,
{
    if k > 0 {
        lemma_total_len_take(levels, m, k - 1);
    }
}

/// The nodes of a level.
pub fn level_nodes(level: &Vec<Arrival>) -> (nodes: Vec<usize>)
    ensures
        nodes@ == arrival_nodes(level@),
{
    let mut nodes: Vec<usize> = Vec::new();
    let mut i: usize = 0;
    while i < level.len()
        invariant
            0 <= i <= level.len(),
            nodes@ == arrival_nodes(level@.take(i as int)),
        decreases level.len() - i,
    {
        nodes.push(level[i].node);
        i += 1;
        assert(arrival_nodes(level@.take(i as int)) =~= arrival_nodes(level@.take(i - 1)).push(level@[i - 1].node));
    }
    assert(level@.take(i as int) =~= level@);
    nodes
}

/// Breadth-first exploration from `start` that never enters `avoid`:
/// returns the hop levels and the marks of every id reached.
pub fn explore(topology: &Topology, start: usize, avoid: Option<usize>, bound: usize) -> (result: (
    Vec<Vec<Arrival>>,
    Vec<bool>,
))
    requires
        start < bound,
        edges_below(topology.adj(), bound as int),
    ensures
        levels_inv(topology.adj(), start, avoid_id(avoid), views(result.0@)),
        ({
            let l = (result.0.len() - 1) as nat;
            &&& within(topology.adj(), start as int, avoid_id(avoid), l + 1) == within(topology.adj(), start as int, avoid_id(avoid), l)
            &&& result.1.len() == bound
            &&& marks_within(topology.adj(), start as int, avoid_id(avoid), l, result.1@)
            &&& within_below(topology.adj(), start as int, avoid_id(avoid), l, bound as int)
            &&& forall|v: int| reachable(topology.adj(), start as int, avoid_id(avoid), v)
                <==> #[trigger] within(topology.adj(), start as int, avoid_id(avoid), l).contains(v)
            &&& total_len(views(result.0@), result.0@.len() as int) == count_true(result.1@)
            &&& count_true(result.1@) <= bound
        }),
{
    let ghost adj = topology.adj();
    let ghost av = avoid_id(avoid);
    let ghost s = start as int;
    let mut visited: Vec<bool> = Vec::new();
    let mut i: usize = 0;
    while i < bound
        invariant
            0 <= i <= bound,
            visited@.len() == i,
            forall|j: int| 0 <= j < i ==> !visited@[j],
            count_true(visited@) == 0,
        decreases bound - i,
    {
        let ghost before = visited@;
        visited.push(false);
        assert(visited@.drop_last() =~= before);
        i += 1;
    }
    proof {
        lemma_count_true_set(visited@, s);
    }
    visited[start] = true;
    assert(marks_within(adj, s, av, 0, visited@));
    let mut frontier: Vec<usize> = Vec::new();
    frontier.push(start);
    let mut first: Vec<Arrival> = Vec::new();
    first.push(Arrival { node: start, from: 0, edge: 0 });
    let mut levels: Vec<Vec<Arrival>> = Vec::new();
    levels.push(first);
    assert(views(levels@) =~= seq![seq![Arrival { node: start, from: 0, edge: 0 }]]);
    assert(ids(frontier@) =~= layer(adj, s, av, 0)) by {
        assert forall|x: int| #[trigger] ids(frontier@).contains(x) <==> x == s by {
            if x == s {
                assert(frontier@[0] as int == x);
            }
        }
    }
    assert(arrival_nodes(seq![Arrival { node: start, from: 0, edge: 0 }]) =~= seq![start]);
    assert(total_len(views(levels@), 1) == total_len(views(levels@), 0) + 1);
    loop
        invariant
            adj == topology.adj(),
            av == avoid_id(avoid),
            s == start as int,
            edges_below(adj, bound as int),
            start < bound,
            levels.len() >= 1,
            levels_inv(adj, start, av, views(levels@)),
            frontier@ == arrival_nodes(views(levels@)[levels.len() - 1]),
            visited@.len() == bound,
            marks_within(adj, s, av, (levels.len() - 1) as nat, visited@),
            within_below(adj, s, av, (levels.len() - 1) as nat, bound as int),
            total_len(views(levels@), levels@.len() as int) == count_true(visited@),
        ensures
            total_len(views(levels@), levels@.len() as int) == count_true(visited@),
            levels.len() >= 1,
            levels_inv(adj, start, av, views(levels@)),
            visited@.len() == bound,
            marks_within(adj, s, av, (levels.len() - 1) as nat, visited@),
            within_below(adj, s, av, (levels.len() - 1) as nat, bound as int),
            within(adj, s, av, (levels.len() - 1) as nat + 1) == within(adj, s, av, (levels.len() - 1) as nat),
        decreases bound - count_true(visited@),
    {
        let ghost k = (levels.len() - 1) as nat;
        let ghost v0 = visited@;
        proof {
            lemma_count_true_bound(v0);
        }
        let next = expand_level(topology, &frontier, &mut visited, avoid);
        proof {
            assert(ids(frontier@) == layer(adj, s, av, k));
            lemma_next_level(adj, s, av, k, frontier@, v0, visited@, next@);
            lemma_count_true_bound(visited@);
        }
        if next.len() == 0 {
            proof {
                lemma_within_monotone(adj, s, av, k, k + 1);
                assert forall|x: int| within(adj, s, av, k + 1).contains(x) implies #[trigger] within(adj, s, av, k).contains(x) by {
                    if !within(adj, s, av, k).contains(x) {
                        assert(layer(adj, s, av, k + 1).contains(x));
                        assert(ids(arrival_nodes(next@)).contains(x));
                    }
                }
                assert(within(adj, s, av, k + 1) =~= within(adj, s, av, k));
            }
            break;
        }
        frontier = level_nodes(&next);
        let ghost old_levels = views(levels@);
        levels.push(next);
        assert(views(levels@) =~= old_levels.push(next@));
        assert(views(levels@).drop_last() =~= old_levels);
        assert(total_len(old_levels, old_levels.len() as int) == total_len(views(levels@), old_levels.len() as int)) by {
            lemma_total_len_prefix(views(levels@), old_levels.len() as int);
        }
    }
    proof {
        let l = (levels.len() - 1) as nat;
        lemma_count_true_bound(visited@);
        assert forall|v: int| reachable(adj, s, av, v) <==> #[trigger] within(adj, s, av, l).contains(v) by {
            if reachable(adj, s, av, v) {
                lemma_reachable_within(adj, s, av, l, v);
            }
            if within(adj, s, av, l).contains(v) {
                assert(reachable(adj, s, av, v));
            }
        }
    }
    (levels, visited)
}

} // verus!
