//! Hop-by-hop spread from one node: which nodes each further hop reaches and
//! through which producer link each was first reached.

use vstd::prelude::*;
use crate::graph::{Topology, edges_below, within, layer, reachable, seq_distinct, succ};
use crate::bfs::{
    Arrival, explore, views, arrival_nodes, ids, arrivals_valid, arrivals_ordered, level_nodes,
    total_len, lemma_total_len_monotone,
};

verus! {

/// The nodes first reached at one hop distance from the start.
pub struct HopStats {
    pub hop_number: usize,
    /// The nodes reached at this hop, in discovery order.
    pub nodes_reached: Vec<usize>,
    /// For each node reached: the position, in the previous hop's
    /// `nodes_reached`, of the node it was first reached from, and the
    /// position of the link in that node's producer list. At hop 0 the single
    /// entry names the start node with both positions 0.
    pub arrivals: Vec<Arrival>,
    /// The number of nodes reached at this hop or before.
    pub nodes_processed: usize,
}

/// The hop levels of a result.
pub open spec fn hop_levels(hops: Seq<HopStats>) -> Seq<Seq<Arrival>> {
    hops.map_values(|h: HopStats| h.arrivals@)
}

/// A bound above every id the exploration can meet.
fn id_bound(topology: &Topology, start: usize) -> (bound: usize)
    requires
        start < usize::MAX,
        edges_below(topology.adj(), usize::MAX as int),
    ensures
        start < bound,
        topology.nodes@.len() <= bound,
        edges_below(topology.adj(), bound as int),
{
    let ghost adj = topology.adj();
    let n = topology.nodes.len();
    let mut bound: usize = if start < n {
        n
    } else {
        start + 1
    };
    let mut x: usize = 0;
    while x < n
        invariant
            adj == topology.adj(),
            n == adj.len(),
            edges_below(adj, usize::MAX as int),
            start < bound,
            n <= bound,
            0 <= x <= n,
            forall|y: int, e: int| 0 <= y < x && 0 <= e < adj[y].len() ==> #[trigger] adj[y][e] < bound,
        decreases n - x,
    {
        let prods = &topology.nodes[x].producers;
        let mut e: usize = 0;
        while e < prods.len()
            invariant
                adj == topology.adj(),
                n == adj.len(),
                edges_below(adj, usize::MAX as int),
                start < bound,
                n <= bound,
                0 <= x < n,
                prods@ == adj[x as int],
                0 <= e <= prods.len(),
                forall|y: int, f: int| 0 <= y < x && 0 <= f < adj[y].len() ==> #[trigger] adj[y][f] < bound,
                forall|f: int| 0 <= f < e ==> #[trigger] adj[x as int][f] < bound,
            decreases prods.len() - e,
        {
            assert(adj[x as int][e as int] < usize::MAX);
            if prods[e] >= bound {
                bound = prods[e] + 1;
            }
            e += 1;
        }
        x += 1;
    }
    bound
}

/// A copy of a level.
fn copy_level(level: &Vec<Arrival>) -> (copy: Vec<Arrival>)
    ensures
        copy@ == level@,
{
    let mut copy: Vec<Arrival> = Vec::new();
    let mut i: usize = 0;
    while i < level.len()
        invariant
            0 <= i <= level.len(),
            copy@ == level@.take(i as int),
        decreases level.len() - i,
    {
        copy.push(level[i]);
        i += 1;
        assert(copy@ =~= level@.take(i as int));
    }
    assert(level@.take(i as int) =~= level@);
    copy
}

/// The hops from `start` along producer links: hop `k` holds exactly the
/// nodes at shortest distance `k`, each reached once, in the order in which a
/// breadth-first walk over the previous hop (and each node's producers in
/// order) first meets them. An id without a node of its own is reached but
/// leads nowhere.
pub fn analyze_hop_stats(topology: &Topology, start: usize) -> (hops: Vec<HopStats>)
    requires
        start < usize::MAX,
        edges_below(topology.adj(), usize::MAX as int),
    ensures
        hops@.len() >= 1,
        hops@[0].nodes_reached@ == seq![start],
        hops@[0].arrivals@ == seq![Arrival { node: start, from: 0, edge: 0 }],
        within(topology.adj(), start as int, -1, hops@.len() as nat) == within(
            topology.adj(),
            start as int,
            -1,
            (hops@.len() - 1) as nat,
        ),
        forall|k: int|
            0 <= k < hops@.len() ==> {
                let h = #[trigger] hops@[k];
                &&& h.hop_number == k
                &&& h.nodes_reached@ == arrival_nodes(h.arrivals@)
                &&& h.nodes_reached@.len() > 0
                &&& seq_distinct(h.nodes_reached@)
                &&& ids(h.nodes_reached@) == layer(topology.adj(), start as int, -1, k as nat)
                &&& h.nodes_processed == total_len(hop_levels(hops@), k + 1)
            },
        forall|k: int|
            1 <= k < hops@.len() ==> arrivals_valid(
                topology.adj(),
                hops@[k - 1].nodes_reached@,
                #[trigger] hops@[k].arrivals@,
            ) && arrivals_ordered(hops@[k].arrivals@),
        hops@[0].nodes_processed == 1,
        forall|k: int|
            1 <= k < hops@.len() ==> (#[trigger] hops@[k]).nodes_processed == hops@[k - 1].nodes_processed
                + hops@[k].nodes_reached@.len(),
        forall|k: int, i: int|
            1 <= k < hops@.len() && 0 <= i < hops@[k].arrivals@.len() ==> {
                let a = #[trigger] hops@[k].arrivals@[i];
                let parent = hops@[k - 1].nodes_reached@[a.from as int];
                &&& a.from < hops@[k - 1].nodes_reached@.len()
                &&& parent < topology.nodes@.len()
                &&& a.edge < topology.nodes@[parent as int].producers@.len()
                &&& topology.nodes@[parent as int].producers@[a.edge as int] == a.node
            },
        forall|v: int|
            #[trigger] reachable(topology.adj(), start as int, -1, v) <==> exists|k: int|
                0 <= k < hops@.len() && #[trigger] ids(hops@[k].nodes_reached@).contains(v),
{
    let ghost adj = topology.adj();
    let bound = id_bound(topology, start);
    let (levels, _visited) = explore(topology, start, None, bound);
    let ghost lv = views(levels@);
    let ghost l = (levels.len() - 1) as nat;
    let mut hops: Vec<HopStats> = Vec::new();
    let mut processed: usize = 0;
    let mut k: usize = 0;
    while k < levels.len()
        invariant
            adj == topology.adj(),
            lv == views(levels@),
            lv.len() >= 1,
            total_len(lv, lv.len() as int) <= bound,
            0 <= k <= levels.len(),
            hops@.len() == k,
            hop_levels(hops@) == lv.take(k as int),
            processed == total_len(lv, k as int),
            forall|j: int|
                0 <= j < k ==> {
                    let h = #[trigger] hops@[j];
                    &&& h.hop_number == j
                    &&& h.nodes_reached@ == arrival_nodes(lv[j])
                    &&& h.arrivals@ == lv[j]
                    &&& h.nodes_processed == total_len(lv, j + 1)
                },
        decreases levels.len() - k,
    {
        proof {
            lemma_total_len_monotone(lv, k + 1, lv.len() as int);
        }
        processed = processed + levels[k].len();
        let nodes = level_nodes(&levels[k]);
        let arrivals = copy_level(&levels[k]);
        let ghost old_hops = hops@;
        hops.push(HopStats { hop_number: k, nodes_reached: nodes, arrivals, nodes_processed: processed });
        assert(hop_levels(hops@) =~= hop_levels(old_hops).push(lv[k as int]));
        assert(lv.take(k + 1) =~= lv.take(k as int).push(lv[k as int]));
        k += 1;
    }
    proof {
        assert(hop_levels(hops@) =~= lv);
        assert forall|j: int| 0 <= j < hops@.len() implies #[trigger] total_len(hop_levels(hops@), j + 1) == total_len(lv, j + 1) by {}
        assert(total_len(lv, 1) == total_len(lv, 0) + lv[0].len());
        assert forall|k: int| 1 <= k < hops@.len() implies (#[trigger] hops@[k]).nodes_processed == hops@[k - 1].nodes_processed
            + hops@[k].nodes_reached@.len() by {
            assert(total_len(lv, k + 1) == total_len(lv, k) + lv[k].len());
        }
        assert forall|k: int, i: int|
            1 <= k < hops@.len() && 0 <= i < hops@[k].arrivals@.len() implies {
                let a = #[trigger] hops@[k].arrivals@[i];
                let parent = hops@[k - 1].nodes_reached@[a.from as int];
                &&& a.from < hops@[k - 1].nodes_reached@.len()
                &&& parent < topology.nodes@.len()
                &&& a.edge < topology.nodes@[parent as int].producers@.len()
                &&& topology.nodes@[parent as int].producers@[a.edge as int] == a.node
            } by {
            let a = hops@[k].arrivals@[i];
            assert(arrivals_valid(adj, hops@[k - 1].nodes_reached@, hops@[k].arrivals@));
            assert(lv[k] == hops@[k].arrivals@);
            let parent = hops@[k - 1].nodes_reached@[a.from as int];
            assert(a.edge < succ(adj, parent as int).len());
        }
        assert forall|v: int| #[trigger] reachable(adj, start as int, -1, v) implies exists|k: int|
            0 <= k < hops@.len() && #[trigger] ids(hops@[k].nodes_reached@).contains(v) by {
            assert(within(adj, start as int, -1, l).contains(v));
            lemma_in_some_layer(adj, start as int, -1, l, v);
            let k = choose|k: nat| k <= l && #[trigger] layer(adj, start as int, -1, k).contains(v);
            assert(ids(hops@[k as int].nodes_reached@).contains(v));
        }
        assert forall|v: int| (exists|k: int|
            0 <= k < hops@.len() && #[trigger] ids(hops@[k].nodes_reached@).contains(v)) implies #[trigger] reachable(adj, start as int, -1, v) by {
            let k = choose|k: int| 0 <= k < hops@.len() && #[trigger] ids(hops@[k].nodes_reached@).contains(v);
            assert(layer(adj, start as int, -1, k as nat).contains(v));
            assert(within(adj, start as int, -1, k as nat).contains(v));
        }
    }
    hops
}

/// Every id within `l` steps lies in the layer of some distance up to `l`.
pub proof fn lemma_in_some_layer(adj: Seq<Seq<usize>>, s: int, avoid: int, l: nat, v: int)
    requires
        within(adj, s, avoid, l).contains(v),
    ensures
        exists|k: nat| k <= l && #[trigger] layer(adj, s, avoid, k).contains(v),
    decreases l,
{
    if l == 0 {
        assert(layer(adj, s, avoid, 0).contains(v));
    } else if within(adj, s, avoid, (l - 1) as nat).contains(v) {
        lemma_in_some_layer(adj, s, avoid, (l - 1) as nat, v);
    } else {
        assert(layer(adj, s, avoid, l).contains(v));
    }
}

/// Distinct hop distances have no node in common.
pub proof fn lemma_layers_disjoint(adj: Seq<Seq<usize>>, s: int, avoid: int, j: nat, k: nat, v: int)
    requires
        j < k,
        layer(adj, s, avoid, j).contains(v),
    ensures
        !layer(adj, s, avoid, k).contains(v),
{
    crate::graph::lemma_within_monotone(adj, s, avoid, j, (k - 1) as nat);
}

} // verus!
