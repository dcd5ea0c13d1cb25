//! Whole-network figures: diameter, stake isolation, local clustering and
//! link counts.

use vstd::prelude::*;
use crate::graph::{
    Topology, edges_below, within, layer, reachable, lemma_within_monotone, succ, has_edge,
    seq_distinct, is_walk, lemma_reachable_iff_walk, lemma_within_walk, lemma_layer_is_shortest_walk,
};
use crate::bfs::{explore, views, arrival_nodes, ids, lists_producer};

verus! {

/// `r` is the largest shortest-path distance from any node to any id it can
/// reach (0 when no node reaches another).
pub open spec fn is_max_distance(adj: Seq<Seq<usize>>, r: nat) -> bool {
    &&& forall|s: int, v: int|
        0 <= s < adj.len() && reachable(adj, s, -1, v) ==> #[trigger] within(adj, s, -1, r).contains(
            v,
        )
    &&& (r == 0 || exists|s: int, v: int| 0 <= s < adj.len() && #[trigger] layer(adj, s, -1, r).contains(v))
}

/// No node lies farther from a start node than the diameter: a nonempty hop
/// `l` from any node of the topology has `l` at most the diameter.
pub proof fn lemma_hop_within_diameter(adj: Seq<Seq<usize>>, r: nat, s: int, l: nat, v: int)
    requires
        is_max_distance(adj, r),
        0 <= s < adj.len(),
        layer(adj, s, -1, l).contains(v),
    ensures
        l <= r,
{
    assert(within(adj, s, -1, l).contains(v));
    assert(reachable(adj, s, -1, v));
    assert(within(adj, s, -1, r).contains(v));
    if l > r {
        lemma_within_monotone(adj, s, -1, r, (l - 1) as nat);
    }
}

/// Within the diameter: whatever a walk from a node reaches, some walk of at
/// most `r` links reaches too.
pub proof fn lemma_diameter_bounds_walks(adj: Seq<Seq<usize>>, r: nat, w: Seq<int>)
    requires
        is_max_distance(adj, r),
        is_walk(adj, w, -1),
        0 <= w[0] < adj.len(),
    ensures
        exists|w2: Seq<int>| #[trigger] is_walk(adj, w2, -1) && w2[0] == w[0] && w2.last() == w.last() && w2.len() <= r + 1,
{
    lemma_reachable_iff_walk(adj, w[0], -1, w.last());
    assert(within(adj, w[0], -1, r).contains(w.last()));
    lemma_within_walk(adj, w[0], -1, r, w.last());
}

/// The diameter is attained: unless it is 0, some node reaches some id by a
/// walk of `r` links and by no shorter walk.
pub proof fn lemma_diameter_attained(adj: Seq<Seq<usize>>, r: nat)
    requires
        is_max_distance(adj, r),
        r > 0,
    ensures
        exists|s: int, v: int| 0 <= s < adj.len() && #[trigger] shortest_walk(adj, s, v, r),
{
    let (s, v) = choose|s: int, v: int| 0 <= s < adj.len() && #[trigger] layer(adj, s, -1, r).contains(v);
    lemma_layer_is_shortest_walk(adj, s, -1, r, v);
    assert(shortest_walk(adj, s, v, r));
}

/// Some walk of `k` links goes from `s` to `v`, and no shorter walk does.
pub open spec fn shortest_walk(adj: Seq<Seq<usize>>, s: int, v: int, k: nat) -> bool {
    &&& exists|w: Seq<int>| #[trigger] is_walk(adj, w, -1) && w[0] == s && w.last() == v && w.len() == k + 1
    &&& !(exists|w: Seq<int>| #[trigger] is_walk(adj, w, -1) && w[0] == s && w.last() == v && w.len() < k + 1)
}

/// The greatest shortest-path distance from `s` to an id it reaches.
fn eccentricity(topology: &Topology, s: usize) -> (ecc: usize)
    requires
        s < topology.nodes@.len(),
        edges_below(topology.adj(), topology.nodes@.len() as int),
    ensures
        forall|v: int| reachable(topology.adj(), s as int, -1, v) ==> #[trigger] within(topology.adj(), s as int, -1, ecc as nat).contains(v),
        ecc == 0 || exists|v: int| #[trigger] layer(topology.adj(), s as int, -1, ecc as nat).contains(v),
{
    let ghost adj = topology.adj();
    let (levels, _visited) = explore(topology, s, None, topology.nodes.len());
    let ecc = levels.len() - 1;
    proof {
        let last = views(levels@)[ecc as int];
        assert(last.len() > 0);
        let v = last[0].node as int;
        assert(arrival_nodes(last)[0] as int == v);
        assert(ids(arrival_nodes(last)).contains(v));
        assert(layer(adj, s as int, -1, ecc as nat).contains(v));
    }
    ecc
}

/// The network diameter: the greatest number of hops on a shortest path
/// between a node and any node reachable from it.
pub fn calculate_network_diameter(topology: &Topology) -> (diameter: usize)
    requires
        edges_below(topology.adj(), topology.nodes@.len() as int),
    ensures
        is_max_distance(topology.adj(), diameter as nat),
{
    let ghost adj = topology.adj();
    let n = topology.nodes.len();
    let mut max_distance: usize = 0;
    let mut s: usize = 0;
    while s < n
        invariant
            adj == topology.adj(),
            n == adj.len(),
            edges_below(adj, n as int),
            0 <= s <= n,
            forall|s2: int, v: int|
                0 <= s2 < s && reachable(adj, s2, -1, v) ==> #[trigger] within(adj, s2, -1, max_distance as nat).contains(v),
            max_distance == 0 || exists|s2: int, v: int|
                0 <= s2 < s && #[trigger] layer(adj, s2, -1, max_distance as nat).contains(v),
        decreases n - s,
    {
        let ecc = eccentricity(topology, s);
        let ghost old_max = max_distance;
        if ecc > max_distance {
            max_distance = ecc;
        }
        assert forall|s2: int, v: int|
            0 <= s2 < s + 1 && reachable(adj, s2, -1, v) implies #[trigger] within(adj, s2, -1, max_distance as nat).contains(v) by {
            if s2 < s {
                lemma_within_monotone(adj, s2, -1, old_max as nat, max_distance as nat);
            } else {
                assert(within(adj, s2, -1, ecc as nat).contains(v));
                lemma_within_monotone(adj, s2, -1, ecc as nat, max_distance as nat);
            }
        }
        s += 1;
    }
    max_distance
}


/// The stake of the first `k` nodes.
pub open spec fn stake_upto(stakes: Seq<u64>, k: int) -> nat
    decreases k,
{
    if k <= 0 {
        0
    } else {
        stake_upto(stakes, k - 1) + stakes[k - 1] as nat
    }
}

/// Zeroing one node's stake lowers the stake of every prefix holding it by
/// exactly that stake.
proof fn lemma_stake_upto_update(stakes: Seq<u64>, v: int, k: int)
    requires
        0 <= v < stakes.len(),
        k <= stakes.len(),
    ensures
        stake_upto(stakes.update(v, 0), k) + (if 0 <= v < k {
            stakes[v] as nat
        } else {
            0nat
        }) == stake_upto(stakes, k),
    decreases k,
{
    if k > 0 {
        lemma_stake_upto_update(stakes, v, k - 1);
    }
}

/// Zeroing one node's stake lowers the total stake by exactly that stake.
pub proof fn lemma_total_stake_update(stakes: Seq<u64>, v: int)
    requires
        0 <= v < stakes.len(),
    ensures
        total_stake(stakes.update(v, 0)) + stakes[v] == total_stake(stakes),
{
    lemma_stake_upto_update(stakes, v, stakes.len() as int);
}

/// A topology whose nodes hold no stake has total stake 0.
pub proof fn lemma_total_stake_zero(stakes: Seq<u64>, k: int)
    requires
        0 <= k <= stakes.len(),
        forall|x: int| 0 <= x < stakes.len() ==> #[trigger] stakes[x] == 0,
    ensures
        stake_upto(stakes, k) == 0,
    decreases k,
{
    if k > 0 {
        lemma_total_stake_zero(stakes, k - 1);
    }
}

/// The stake of the whole topology.
pub open spec fn total_stake(stakes: Seq<u64>) -> nat {
    stake_upto(stakes, stakes.len() as int)
}

/// Where the search starts when node `f` has failed: the first other node.
pub open spec fn failover_start(f: int) -> int {
    if f == 0 {
        1
    } else {
        0
    }
}

/// The stake among the first `k` nodes, other than `f`, that the first node
/// other than `f` cannot reach once `f` has failed.
pub open spec fn isolated_stake_upto(adj: Seq<Seq<usize>>, stakes: Seq<u64>, f: int, k: int) -> nat
    decreases k,
{
    if k <= 0 {
        0
    } else {
        isolated_stake_upto(adj, stakes, f, k - 1) + if k - 1 != f && !reachable(
            adj,
            failover_start(f),
            f,
            k - 1,
        ) {
            stakes[k - 1] as nat
        } else {
            0nat
        }
    }
}

/// The stake cut off from the rest of the network when node `f` fails.
pub open spec fn isolated_stake(adj: Seq<Seq<usize>>, stakes: Seq<u64>, f: int) -> nat {
    isolated_stake_upto(adj, stakes, f, stakes.len() as int)
}

/// The nodes among the first `k` whose failure isolates some stake, in node
/// order, each with the stake it isolates.
pub open spec fn isolations_upto(adj: Seq<Seq<usize>>, stakes: Seq<u64>, k: int) -> Seq<(int, nat)>
    decreases k,
{
    if k <= 0 {
        seq![]
    } else {
        let prev = isolations_upto(adj, stakes, k - 1);
        let iso = isolated_stake(adj, stakes, k - 1);
        if iso > 0 {
            prev.push((k - 1, iso))
        } else {
            prev
        }
    }
}

pub proof fn lemma_stake_upto_monotone(stakes: Seq<u64>, j: int, k: int)
    requires
        j <= k <= stakes.len(),
    ensures
        stake_upto(stakes, j) <= stake_upto(stakes, k),
    decreases k - j,
{
    if j < k {
        lemma_stake_upto_monotone(stakes, j, k - 1);
    }
}

/// The stake isolated by a failure never exceeds the stake of the other nodes.
pub proof fn lemma_isolated_bounded(adj: Seq<Seq<usize>>, stakes: Seq<u64>, f: int, k: int)
    requires
        0 <= k <= stakes.len(),
        0 <= f < stakes.len(),
    ensures
        isolated_stake_upto(adj, stakes, f, k) + (if f < k {
            stakes[f] as nat
        } else {
            0nat
        }) <= stake_upto(stakes, k),
    decreases k,
{
    if k > 0 {
        lemma_isolated_bounded(adj, stakes, f, k - 1);
    }
}

/// Zeroing the stake of node `v` lowers the isolated stake of the first `k`
/// nodes by `v`'s stake exactly when `v` is among them, is not `f`, and is cut
/// off.
proof fn lemma_isolated_stake_update(adj: Seq<Seq<usize>>, stakes: Seq<u64>, f: int, v: int, k: int)
    requires
        0 <= v < stakes.len(),
        k <= stakes.len(),
    ensures
        isolated_stake_upto(adj, stakes.update(v, 0), f, k) + (if 0 <= v < k && v != f && !reachable(
            adj,
            failover_start(f),
            f,
            v,
        ) {
            stakes[v] as nat
        } else {
            0nat
        }) == isolated_stake_upto(adj, stakes, f, k),
    decreases k,
{
    if k > 0 {
        lemma_isolated_stake_update(adj, stakes, f, v, k - 1);
    }
}

/// A node that a walk from the first other node reaches without passing the
/// failed node `f` holds none of the stake isolated by `f`'s failure: zeroing
/// its stake leaves the isolated stake unchanged.
pub proof fn lemma_isolated_stake_spares_reached(
    adj: Seq<Seq<usize>>,
    stakes: Seq<u64>,
    f: int,
    v: int,
    w: Seq<int>,
)
    requires
        0 <= v < stakes.len(),
        is_walk(adj, w, f),
        w[0] == failover_start(f),
        w.last() == v,
    ensures
        isolated_stake(adj, stakes.update(v, 0), f) == isolated_stake(adj, stakes, f),
{
    lemma_reachable_iff_walk(adj, failover_start(f), f, v);
    lemma_isolated_stake_update(adj, stakes, f, v, stakes.len() as int);
}

/// A node other than the failed node `f` that no walk from the first other
/// node reaches without passing `f` holds its whole stake in the isolated
/// stake: zeroing it lowers the isolated stake by exactly that stake.
pub proof fn lemma_isolated_stake_counts_cut_off(adj: Seq<Seq<usize>>, stakes: Seq<u64>, f: int, v: int)
    requires
        0 <= v < stakes.len(),
        v != f,
        forall|w: Seq<int>| #[trigger] is_walk(adj, w, f) && w[0] == failover_start(f) ==> w.last() != v,
    ensures
        isolated_stake(adj, stakes.update(v, 0), f) + stakes[v] == isolated_stake(adj, stakes, f),
{
    lemma_reachable_iff_walk(adj, failover_start(f), f, v);
    lemma_isolated_stake_update(adj, stakes, f, v, stakes.len() as int);
}

/// How much stake a node's failure cuts off.
#[derive(Clone, Copy)]
pub struct StakeIsolation {
    pub node: usize,
    pub isolated_stake: u64,
}

/// The isolations of a result, as pairs of node and stake.
pub open spec fn isolation_pairs(r: Seq<StakeIsolation>) -> Seq<(int, nat)> {
    r.map_values(|i: StakeIsolation| (i.node as int, i.isolated_stake as nat))
}

/// The total stake of the topology.
pub fn sum_stake(topology: &Topology) -> (total: u64)
    requires
        total_stake(topology.stakes()) <= u64::MAX,
    ensures
        total == total_stake(topology.stakes()),
{
    let ghost stakes = topology.stakes();
    let mut total: u64 = 0;
    let mut i: usize = 0;
    while i < topology.nodes.len()
        invariant
            stakes == topology.stakes(),
            stake_upto(stakes, stakes.len() as int) <= u64::MAX,
            0 <= i <= stakes.len(),
            total == stake_upto(stakes, i as int),
        decreases stakes.len() - i,
    {
        proof {
            lemma_stake_upto_monotone(stakes, i + 1, stakes.len() as int);
        }
        total = total + topology.nodes[i].stake;
        i += 1;
    }
    total
}

/// For each node in turn, the stake that becomes unreachable from the first
/// other node when that node fails; only nodes whose failure isolates some
/// stake are listed, in node order.
pub fn stake_isolation_by_node(topology: &Topology) -> (result: Vec<StakeIsolation>)
    requires
        edges_below(topology.adj(), topology.nodes@.len() as int),
        total_stake(topology.stakes()) <= u64::MAX,
    ensures
        isolation_pairs(result@) == isolations_upto(
            topology.adj(),
            topology.stakes(),
            topology.nodes@.len() as int,
        ),
        forall|i: int|
            0 <= i < result@.len() ==> 0 < (#[trigger] result@[i]).isolated_stake
                && result@[i].node < topology.nodes@.len()
                && result@[i].isolated_stake + topology.stakes()[result@[i].node as int]
                <= total_stake(topology.stakes()),
        forall|f: int|
            0 <= f < topology.nodes@.len() ==> ((exists|i: int|
                0 <= i < result@.len() && #[trigger] result@[i].node as int == f) <==> isolated_stake(
                topology.adj(),
                topology.stakes(),
                f,
            ) > 0),
{
    let ghost adj = topology.adj();
    let ghost stakes = topology.stakes();
    let n = topology.nodes.len();
    let mut result: Vec<StakeIsolation> = Vec::new();
    let mut f: usize = 0;
    while f < n
        invariant
            adj == topology.adj(),
            stakes == topology.stakes(),
            n == stakes.len(),
            n == adj.len(),
            edges_below(adj, n as int),
            total_stake(stakes) <= u64::MAX,
            0 <= f <= n,
            isolation_pairs(result@) == isolations_upto(adj, stakes, f as int),
            forall|i: int|
                0 <= i < result@.len() ==> 0 < (#[trigger] result@[i]).isolated_stake
                    && result@[i].node < n
                    && result@[i].isolated_stake + stakes[result@[i].node as int] <= total_stake(stakes),
        decreases n - f,
    {
        let ghost start = failover_start(f as int);
        let mut visited: Vec<bool> = Vec::new();
        if n >= 2 {
            let first = if f == 0 {
                1
            } else {
                0
            };
            let (_levels, marks) = explore(topology, first, Some(f), n);
            visited = marks;
        }
        let mut isolated: u64 = 0;
        let mut x: usize = 0;
        while x < n
            invariant
                adj == topology.adj(),
                stakes == topology.stakes(),
                n == stakes.len(),
                total_stake(stakes) <= u64::MAX,
                0 <= f < n,
                0 <= x <= n,
                start == failover_start(f as int),
                n >= 2 ==> visited@.len() == n,
                n >= 2 ==> forall|y: int| 0 <= y < n ==> (#[trigger] visited@[y] <==> reachable(adj, start, f as int, y)),
                isolated == isolated_stake_upto(adj, stakes, f as int, x as int),
            decreases n - x,
        {
            let cut = if n >= 2 {
                !visited[x]
            } else {
                true
            };
            proof {
                lemma_isolated_bounded(adj, stakes, f as int, x + 1);
                lemma_stake_upto_monotone(stakes, x + 1, n as int);
            }
            if cut && x != f {
                isolated = isolated + topology.nodes[x].stake;
            }
            x += 1;
        }
        proof {
            lemma_isolated_bounded(adj, stakes, f as int, n as int);
        }
        let ghost old_result = result@;
        if isolated > 0 {
            result.push(StakeIsolation { node: f, isolated_stake: isolated });
            assert(isolation_pairs(result@) =~= isolation_pairs(old_result).push((f as int, isolated as nat)));
        }
        f += 1;
    }
    proof {
        lemma_isolations_members(adj, stakes, n as int);
        let spec_seq = isolations_upto(adj, stakes, n as int);
        assert forall|g: int|
            0 <= g < n implies ((exists|i: int|
                0 <= i < result@.len() && #[trigger] result@[i].node as int == g) <==> isolated_stake(adj, stakes, g) > 0) by {
            if exists|i: int| 0 <= i < result@.len() && #[trigger] result@[i].node as int == g {
                let i = choose|i: int| 0 <= i < result@.len() && #[trigger] result@[i].node as int == g;
                assert(isolation_pairs(result@)[i].0 == g);
                assert(spec_seq[i].0 == g);
            }
            if isolated_stake(adj, stakes, g) > 0 {
                let i = choose|i: int| 0 <= i < spec_seq.len() && #[trigger] spec_seq[i].0 == g;
                assert(isolation_pairs(result@)[i].0 == g);
                assert(result@[i].node as int == g);
            }
        }
    }
    result
}


/// The nodes among the first `k` that list `x` as a producer without being
/// producers of `x` themselves, in node order.
pub open spec fn consumers_upto(adj: Seq<Seq<usize>>, x: int, k: int) -> Seq<usize>
    decreases k,
{
    if k <= 0 {
        seq![]
    } else {
        let prev = consumers_upto(adj, x, k - 1);
        if adj[k - 1].contains(x as usize) && !adj[x].contains((k - 1) as usize) {
            prev.push((k - 1) as usize)
        } else {
            prev
        }
    }
}

/// The neighbours of `x`: its producers, then the other nodes that list it
/// as a producer.
pub open spec fn neighbors(adj: Seq<Seq<usize>>, x: int) -> Seq<usize> {
    adj[x] + consumers_upto(adj, x, adj.len() as int)
}

/// 1 when `a` lists `b` as a producer, else 0.
pub open spec fn link(adj: Seq<Seq<usize>>, a: usize, b: usize) -> nat {
    if succ(adj, a as int).contains(b) {
        1
    } else {
        0
    }
}

/// The links, in either direction, between `v` and each of `s[0..i]`.
pub open spec fn links_with(adj: Seq<Seq<usize>>, s: Seq<usize>, v: usize, i: int) -> nat
    decreases i,
{
    if i <= 0 {
        0
    } else {
        links_with(adj, s, v, i - 1) + link(adj, s[i - 1], v) + link(adj, v, s[i - 1])
    }
}

/// The links among the members of `s`: each unordered pair of positions
/// counts one for each direction in which a producer link exists.
pub open spec fn pair_links(adj: Seq<Seq<usize>>, s: Seq<usize>) -> nat
    decreases s.len(),
{
    if s.len() == 0 {
        0
    } else {
        pair_links(adj, s.drop_last()) + links_with(adj, s, s.last(), s.len() - 1)
    }
}

/// The number of unordered pairs of `len` neighbours.
pub open spec fn possible_pairs(len: nat) -> nat {
    (len * (len - 1) / 2) as nat
}

/// The local clustering counts of the first `k` nodes that have at least two
/// neighbours, in node order: node, links among its neighbours, possible pairs.
pub open spec fn clustering_upto(adj: Seq<Seq<usize>>, k: int) -> Seq<(int, nat, nat)>
    decreases k,
{
    if k <= 0 {
        seq![]
    } else {
        let prev = clustering_upto(adj, k - 1);
        let nb = neighbors(adj, k - 1);
        if nb.len() >= 2 {
            prev.push((k - 1, pair_links(adj, nb), possible_pairs(nb.len())))
        } else {
            prev
        }
    }
}

/// Every node's neighbour counts fit the integer types they are computed in.
pub open spec fn clustering_fits(adj: Seq<Seq<usize>>) -> bool {
    forall|x: int|
        0 <= x < adj.len() ==> {
            let nb = #[trigger] neighbors(adj, x);
            &&& nb.len() * (nb.len() - 1) <= usize::MAX
            &&& pair_links(adj, nb) <= i32::MAX
        }
}

pub proof fn lemma_links_with_agree(adj: Seq<Seq<usize>>, s: Seq<usize>, t: Seq<usize>, v: usize, i: int)
    requires
        0 <= i <= s.len(),
        i <= t.len(),
        forall|j: int| 0 <= j < i ==> s[j] == t[j],
    ensures
        links_with(adj, s, v, i) == links_with(adj, t, v, i),
    decreases i,
{
    if i > 0 {
        lemma_links_with_agree(adj, s, t, v, i - 1);
    }
}

pub proof fn lemma_links_with_bound(adj: Seq<Seq<usize>>, s: Seq<usize>, v: usize, i: int)
    requires
        0 <= i,
    ensures
        links_with(adj, s, v, i) <= 2 * i,
    decreases i,
{
    if i > 0 {
        lemma_links_with_bound(adj, s, v, i - 1);
    }
}

/// The links among `n` neighbours are at most two per pair.
pub proof fn lemma_pair_links_bound(adj: Seq<Seq<usize>>, s: Seq<usize>)
    ensures
        pair_links(adj, s) <= s.len() * (s.len() - 1),
    decreases s.len(),
{
    if s.len() > 0 {
        let n = s.len() as int;
        lemma_pair_links_bound(adj, s.drop_last());
        lemma_links_with_bound(adj, s, s.last(), n - 1);
        assert((n - 1) * (n - 2) + 2 * (n - 1) == n * (n - 1)) by (nonlinear_arith);
    }
}

/// The nodes that list `x` without being its producers come in increasing
/// order, and all of them below `k` are there.
proof fn lemma_consumers(adj: Seq<Seq<usize>>, x: int, k: int)
    requires
        0 <= x < adj.len(),
        0 <= k <= adj.len(),
        adj.len() <= usize::MAX,
    ensures
        forall|i: int|
            0 <= i < consumers_upto(adj, x, k).len() ==> {
                let c = #[trigger] consumers_upto(adj, x, k)[i];
                &&& c < k
                &&& adj[c as int].contains(x as usize)
                &&& !adj[x].contains(c)
            },
        forall|i: int, j: int|
            0 <= i < j < consumers_upto(adj, x, k).len() ==> #[trigger] consumers_upto(adj, x, k)[i]
                < #[trigger] consumers_upto(adj, x, k)[j],
        forall|y: int|
            0 <= y < k && #[trigger] adj[y].contains(x as usize) && !adj[x].contains(y as usize)
                ==> consumers_upto(adj, x, k).contains(y as usize),
    decreases k,
{
    if k > 0 {
        lemma_consumers(adj, x, k - 1);
        let prev = consumers_upto(adj, x, k - 1);
        let cur = consumers_upto(adj, x, k);
        assert forall|y: int|
            0 <= y < k && #[trigger] adj[y].contains(x as usize) && !adj[x].contains(y as usize)
                implies cur.contains(y as usize) by {
            if y < k - 1 {
                assert(prev.contains(y as usize));
                let i = choose|i: int| 0 <= i < prev.len() && prev[i] == y as usize;
                assert(cur[i] == y as usize);
            } else {
                assert(cur[cur.len() - 1] == y as usize);
            }
        }
    }
}

/// The neighbour list of `x` holds every node that `x` lists or that lists
/// `x`, and nothing else, each exactly once.
pub proof fn lemma_neighbors_exact(adj: Seq<Seq<usize>>, x: int)
    requires
        0 <= x < adj.len(),
        adj.len() <= usize::MAX,
        seq_distinct(adj[x]),
        edges_below(adj, adj.len() as int),
    ensures
        seq_distinct(neighbors(adj, x)),
        forall|v: int|
            (exists|i: int| 0 <= i < neighbors(adj, x).len() && #[trigger] neighbors(adj, x)[i] as int == v)
                <==> (0 <= v < adj.len() && (has_edge(adj, x, v) || has_edge(adj, v, x))),
{
    let n = adj.len() as int;
    let p = adj[x];
    let c = consumers_upto(adj, x, n);
    let nb = neighbors(adj, x);
    lemma_consumers(adj, x, n);
    assert(nb == p + c);
    assert forall|i: int, j: int| 0 <= i < nb.len() && 0 <= j < nb.len() && i != j implies nb[i] != nb[j] by {
        if i < p.len() && j < p.len() {
            assert(nb[i] == p[i] && nb[j] == p[j]);
        } else if i >= p.len() && j >= p.len() {
            assert(nb[i] == c[i - p.len()] && nb[j] == c[j - p.len()]);
            if i < j {
                assert(c[i - p.len()] < c[j - p.len()]);
            } else {
                assert(c[j - p.len()] < c[i - p.len()]);
            }
        } else if i < p.len() {
            assert(nb[j] == c[j - p.len()]);
            assert(!p.contains(c[j - p.len()]));
            assert(p[i] == nb[i]);
        } else {
            assert(nb[i] == c[i - p.len()]);
            assert(!p.contains(c[i - p.len()]));
            assert(p[j] == nb[j]);
        }
    }
    lemma_neighbors_members(adj, x);
}

/// The neighbours of node `x`, as the clustering coefficient sees them.
pub fn neighbors_of(topology: &Topology, x: usize) -> (nb: Vec<usize>)
    requires
        x < topology.nodes@.len(),
        edges_below(topology.adj(), topology.nodes@.len() as int),
    ensures
        nb@ == neighbors(topology.adj(), x as int),
        forall|i: int| 0 <= i < nb@.len() ==> #[trigger] nb@[i] < topology.nodes@.len(),
        seq_distinct(topology.adj()[x as int]) ==> seq_distinct(nb@),
        forall|v: int|
            (exists|i: int| 0 <= i < nb@.len() && #[trigger] nb@[i] as int == v) <==> (0 <= v
                < topology.nodes@.len() && (has_edge(topology.adj(), x as int, v) || has_edge(
                topology.adj(),
                v,
                x as int,
            ))),
{
    let ghost adj = topology.adj();
    let n = topology.nodes.len();
    let prods = &topology.nodes[x].producers;
    let mut nb: Vec<usize> = Vec::new();
    let mut i: usize = 0;
    while i < prods.len()
        invariant
            adj == topology.adj(),
            n == adj.len(),
            x < n,
            prods@ == adj[x as int],
            edges_below(adj, n as int),
            0 <= i <= prods.len(),
            nb@ == prods@.take(i as int),
        decreases prods.len() - i,
    {
        nb.push(prods[i]);
        i += 1;
        assert(nb@ =~= prods@.take(i as int));
    }
    assert(nb@ =~= adj[x as int] + consumers_upto(adj, x as int, 0));
    let mut y: usize = 0;
    while y < n
        invariant
            adj == topology.adj(),
            n == adj.len(),
            x < n,
            prods@ == adj[x as int],
            edges_below(adj, n as int),
            0 <= y <= n,
            nb@ == adj[x as int] + consumers_upto(adj, x as int, y as int),
            forall|j: int| 0 <= j < nb@.len() ==> #[trigger] nb@[j] < n,
        decreases n - y,
    {
        let lists_x = lists_producer(&topology.nodes[y].producers, x);
        let is_producer = lists_producer(prods, y);
        if lists_x && !is_producer {
            nb.push(y);
        }
        y += 1;
        assert(nb@ =~= adj[x as int] + consumers_upto(adj, x as int, y as int));
    }
    proof {
        if seq_distinct(adj[x as int]) {
            lemma_neighbors_exact(adj, x as int);
        }
        lemma_neighbors_members(adj, x as int);
    }
    nb
}

/// Every member of the neighbour list of `x` is a node that `x` lists or that
/// lists `x`, and every such node is a member.
pub proof fn lemma_neighbors_members(adj: Seq<Seq<usize>>, x: int)
    requires
        0 <= x < adj.len(),
        adj.len() <= usize::MAX,
        edges_below(adj, adj.len() as int),
    ensures
        forall|v: int|
            (exists|i: int| 0 <= i < neighbors(adj, x).len() && #[trigger] neighbors(adj, x)[i] as int == v)
                <==> (0 <= v < adj.len() && (has_edge(adj, x, v) || has_edge(adj, v, x))),
{
    let n = adj.len() as int;
    let p = adj[x];
    let c = consumers_upto(adj, x, n);
    let nb = neighbors(adj, x);
    lemma_consumers(adj, x, n);
    assert(nb == p + c);
    assert forall|v: int|
        (exists|i: int| 0 <= i < nb.len() && #[trigger] nb[i] as int == v)
            <==> (0 <= v < n && (has_edge(adj, x, v) || has_edge(adj, v, x))) by {
        if exists|i: int| 0 <= i < nb.len() && #[trigger] nb[i] as int == v {
            let i = choose|i: int| 0 <= i < nb.len() && #[trigger] nb[i] as int == v;
            if i < p.len() {
                assert(nb[i] == p[i]);
                assert(p[i] < n);
                assert(succ(adj, x)[i] as int == v);
            } else {
                let cj = c[i - p.len()];
                assert(nb[i] == cj);
                assert(adj[cj as int].contains(x as usize));
                let e = choose|e: int| 0 <= e < adj[cj as int].len() && adj[cj as int][e] == x as usize;
                assert(succ(adj, v)[e] as int == x);
            }
        }
        if 0 <= v < n && (has_edge(adj, x, v) || has_edge(adj, v, x)) {
            if has_edge(adj, x, v) {
                let e = choose|e: int| 0 <= e < succ(adj, x).len() && succ(adj, x)[e] as int == v;
                assert(nb[e] == p[e]);
            } else {
                let e = choose|e: int| 0 <= e < succ(adj, v).len() && succ(adj, v)[e] as int == x;
                assert(adj[v][e] == x as usize);
                assert(adj[v].contains(x as usize));
                if p.contains(v as usize) {
                    let q = choose|q: int| 0 <= q < p.len() && p[q] == v as usize;
                    assert(succ(adj, x)[q] as int == v);
                }
                assert(c.contains(v as usize));
                let j = choose|j: int| 0 <= j < c.len() && c[j] == v as usize;
                assert(nb[p.len() + j] == c[j]);
            }
        }
    }
}

/// Whether `a` lists `b` as a producer, as a count of 0 or 1.
fn link_count(topology: &Topology, a: usize, b: usize) -> (c: usize)
    requires
        a < topology.nodes@.len(),
    ensures
        c == link(topology.adj(), a, b),
{
    if lists_producer(&topology.nodes[a].producers, b) {
        1
    } else {
        0
    }
}

/// The local clustering counts of one node.
#[derive(Clone, Copy)]
pub struct LocalClustering {
    pub node: usize,
    pub connections: usize,
    pub possible_connections: usize,
}

/// The clustering counts of a result, as triples.
pub open spec fn clustering_triples(r: Seq<LocalClustering>) -> Seq<(int, nat, nat)> {
    r.map_values(|c: LocalClustering| (c.node as int, c.connections as nat, c.possible_connections as nat))
}

/// For every node with at least two neighbours, in node order: the number of
/// producer links among its neighbours (each direction counted) and the number
/// of pairs of neighbours. The clustering coefficient is the mean of their
/// ratios.
pub fn clustering_counts(topology: &Topology) -> (result: Vec<LocalClustering>)
    requires
        edges_below(topology.adj(), topology.nodes@.len() as int),
        clustering_fits(topology.adj()),
    ensures
        clustering_triples(result@) == clustering_upto(topology.adj(), topology.nodes@.len() as int),
        forall|i: int|
            0 <= i < result@.len() ==> (#[trigger] result@[i]).connections <= 2 * result@[i].possible_connections,
        forall|i: int|
            0 <= i < result@.len() ==> (#[trigger] result@[i]).node < topology.nodes@.len()
                && result@[i].connections == linked_positions(
                topology.adj(),
                neighbors(topology.adj(), result@[i].node as int),
            ).len() && result@[i].possible_connections * 2 == neighbors(
                topology.adj(),
                result@[i].node as int,
            ).len() * (neighbors(topology.adj(), result@[i].node as int).len() - 1),
        forall|x: int|
            0 <= x < topology.nodes@.len() ==> ((exists|i: int|
                0 <= i < result@.len() && #[trigger] result@[i].node as int == x) <==> neighbors(
                topology.adj(),
                x,
            ).len() >= 2),
{
    let ghost adj = topology.adj();
    let n = topology.nodes.len();
    let mut result: Vec<LocalClustering> = Vec::new();
    let mut x: usize = 0;
    while x < n
        invariant
            adj == topology.adj(),
            n == adj.len(),
            edges_below(adj, n as int),
            clustering_fits(adj),
            0 <= x <= n,
            clustering_triples(result@) == clustering_upto(adj, x as int),
            forall|i: int|
                0 <= i < result@.len() ==> (#[trigger] result@[i]).connections <= 2 * result@[i].possible_connections,
            forall|i: int|
                0 <= i < result@.len() ==> (#[trigger] result@[i]).node < x
                    && result@[i].connections == linked_positions(adj, neighbors(adj, result@[i].node as int)).len()
                    && result@[i].possible_connections * 2 == neighbors(adj, result@[i].node as int).len() * (
                neighbors(adj, result@[i].node as int).len() - 1),
        decreases n - x,
    {
        let nb = neighbors_of(topology, x);
        let ghost nbs = nb@;
        assert(nbs == neighbors(adj, x as int));
        let len = nb.len();
        if len >= 2 {
            let mut connections: usize = 0;
            let mut j: usize = 0;
            while j < len
                invariant
                    adj == topology.adj(),
                    n == adj.len(),
                    nb@ == nbs,
                    len == nbs.len(),
                    forall|i: int| 0 <= i < nbs.len() ==> #[trigger] nbs[i] < n,
                    pair_links(adj, nbs) <= i32::MAX,
                    0 <= j <= len,
                    connections == pair_links(adj, nbs.take(j as int)),
                decreases len - j,
            {
                let mut i: usize = 0;
                proof {
                    lemma_pair_links_bound(adj, nbs.take(j as int));
                }
                while i < j
                    invariant
                        adj == topology.adj(),
                        n == adj.len(),
                        nb@ == nbs,
                        len == nbs.len(),
                        forall|i2: int| 0 <= i2 < nbs.len() ==> #[trigger] nbs[i2] < n,
                        pair_links(adj, nbs) <= i32::MAX,
                        0 <= j < len,
                        0 <= i <= j,
                        connections == pair_links(adj, nbs.take(j as int)) + links_with(adj, nbs, nbs[j as int], i as int),
                    decreases j - i,
                {
                    proof {
                        assert(nbs.take(j + 1).drop_last() =~= nbs.take(j as int));
                        assert(nbs.take(j + 1).last() == nbs[j as int]);
                        lemma_links_with_agree(adj, nbs.take(j + 1), nbs, nbs[j as int], i + 1);
                        lemma_links_with_bound(adj, nbs.take(j + 1), nbs[j as int], j as int);
                        lemma_links_with_agree(adj, nbs.take(j + 1), nbs, nbs[j as int], j as int);
                        lemma_pair_links_prefix(adj, nbs, j + 1);
                        if i + 1 < j {
                            lemma_links_with_monotone(adj, nbs, nbs[j as int], i + 1, j as int);
                        }
                    }
                    let a = link_count(topology, nb[i], nb[j]);
                    let b = link_count(topology, nb[j], nb[i]);
                    connections = connections + a + b;
                    i += 1;
                }
                proof {
                    assert(nbs.take(j + 1).drop_last() =~= nbs.take(j as int));
                    assert(nbs.take(j + 1).last() == nbs[j as int]);
                    lemma_links_with_agree(adj, nbs.take(j + 1), nbs, nbs[j as int], j as int);
                }
                j += 1;
            }
            assert(nbs.take(len as int) =~= nbs);
            proof {
                lemma_pair_links_bound(adj, nbs);
                assert(len * (len - 1) <= usize::MAX);
                lemma_pairs_even(len as nat);
                assert(len * (len - 1) / 2 * 2 == len * (len - 1));
            }
            proof {
                lemma_pair_links_count(adj, nbs);
            }
            let possible = len * (len - 1) / 2;
            let ghost old_result = result@;
            result.push(LocalClustering { node: x, connections, possible_connections: possible });
            assert(clustering_triples(result@) =~= clustering_triples(old_result).push(
                (x as int, connections as nat, possible as nat),
            ));
        }
        x += 1;
    }
    proof {
        lemma_clustering_members(adj, n as int);
        let spec_seq = clustering_upto(adj, n as int);
        assert forall|y: int|
            0 <= y < n implies ((exists|i: int|
                0 <= i < result@.len() && #[trigger] result@[i].node as int == y) <==> neighbors(adj, y).len() >= 2) by {
            if exists|i: int| 0 <= i < result@.len() && #[trigger] result@[i].node as int == y {
                let i = choose|i: int| 0 <= i < result@.len() && #[trigger] result@[i].node as int == y;
                assert(clustering_triples(result@)[i].0 == y);
                assert(spec_seq[i].0 == y);
            }
            if neighbors(adj, y).len() >= 2 {
                let i = choose|i: int| 0 <= i < spec_seq.len() && #[trigger] spec_seq[i].0 == y;
                assert(clustering_triples(result@)[i].0 == y);
                assert(result@[i].node as int == y);
            }
        }
    }
    result
}

/// The ordered pairs of distinct positions `(i, j)` of `s` where `s[i]` lists
/// `s[j]` as a producer.
pub open spec fn linked_positions(adj: Seq<Seq<usize>>, s: Seq<usize>) -> Set<(int, int)> {
    Set::new(
        |p: (int, int)|
            0 <= p.0 < s.len() && 0 <= p.1 < s.len() && p.0 != p.1 && succ(adj, s[p.0] as int).contains(
                s[p.1],
            ),
    )
}

/// The linked pairs between the last position of `s` and positions below `i`.
spec fn linked_with_last(adj: Seq<Seq<usize>>, s: Seq<usize>, i: int) -> Set<(int, int)> {
    let m = s.len() - 1;
    Set::new(
        |p: (int, int)|
            (p.1 == m && 0 <= p.0 < i && succ(adj, s[p.0] as int).contains(s[m])) || (p.0 == m && 0
                <= p.1 < i && succ(adj, s[m] as int).contains(s[p.1])),
    )
}

proof fn lemma_linked_with_last(adj: Seq<Seq<usize>>, s: Seq<usize>, i: int)
    requires
        s.len() >= 1,
        0 <= i <= s.len() - 1,
    ensures
        linked_with_last(adj, s, i).finite(),
        linked_with_last(adj, s, i).len() == links_with(adj, s, s.last(), i),
    decreases i,
{
    let m = s.len() - 1;
    if i == 0 {
        assert(linked_with_last(adj, s, i) =~= Set::empty());
    } else {
        lemma_linked_with_last(adj, s, i - 1);
        let prev = linked_with_last(adj, s, i - 1);
        let a = if succ(adj, s[i - 1] as int).contains(s[m]) {
            prev.insert((i - 1, m))
        } else {
            prev
        };
        let b = if succ(adj, s[m] as int).contains(s[i - 1]) {
            a.insert((m, i - 1))
        } else {
            a
        };
        assert(!prev.contains((i - 1, m)));
        assert(!a.contains((m, i - 1)));
        assert(linked_with_last(adj, s, i) =~= b);
    }
}

/// The links counted among `s` are the ordered pairs of distinct positions
/// where the first lists the second: each direction of each pair once.
pub proof fn lemma_pair_links_count(adj: Seq<Seq<usize>>, s: Seq<usize>)
    ensures
        linked_positions(adj, s).finite(),
        pair_links(adj, s) == linked_positions(adj, s).len(),
    decreases s.len(),
{
    if s.len() == 0 {
        assert(linked_positions(adj, s) =~= Set::empty());
    } else {
        let m = s.len() - 1;
        let t = s.drop_last();
        lemma_pair_links_count(adj, t);
        lemma_linked_with_last(adj, s, m);
        let old_pairs = linked_positions(adj, t);
        let new_pairs = linked_with_last(adj, s, m);
        assert forall|p: (int, int)| #[trigger] linked_positions(adj, s).contains(p) <==> old_pairs.union(new_pairs).contains(p) by {
            if 0 <= p.0 < m && 0 <= p.1 < m {
                assert(t[p.0] == s[p.0] && t[p.1] == s[p.1]);
            }
        }
        assert(linked_positions(adj, s) =~= old_pairs.union(new_pairs));
        assert(old_pairs.disjoint(new_pairs));
        vstd::set_lib::lemma_set_disjoint_lens(old_pairs, new_pairs);
        assert(s.last() == s[m]);
    }
}

/// The clustering list names, in increasing order, exactly the nodes below
/// `k` with at least two neighbours, and gives for each the pairs of its
/// neighbour list.
pub proof fn lemma_clustering_members(adj: Seq<Seq<usize>>, k: int)
    requires
        0 <= k <= adj.len(),
    ensures
        forall|i: int, j: int|
            0 <= i < j < clustering_upto(adj, k).len() ==> (#[trigger] clustering_upto(adj, k)[i]).0
                < (#[trigger] clustering_upto(adj, k)[j]).0,
        forall|x: int|
            0 <= x < k ==> ((exists|i: int|
                0 <= i < clustering_upto(adj, k).len() && #[trigger] clustering_upto(adj, k)[i].0 == x)
                <==> neighbors(adj, x).len() >= 2),
        forall|i: int|
            0 <= i < clustering_upto(adj, k).len() ==> {
                let c = #[trigger] clustering_upto(adj, k)[i];
                &&& 0 <= c.0 < k
                &&& c.1 == pair_links(adj, neighbors(adj, c.0))
                &&& c.2 == possible_pairs(neighbors(adj, c.0).len())
            },
    decreases k,
{
    if k > 0 {
        lemma_clustering_members(adj, k - 1);
        let prev = clustering_upto(adj, k - 1);
        let cur = clustering_upto(adj, k);
        assert forall|x: int|
            0 <= x < k implies ((exists|i: int|
                0 <= i < cur.len() && #[trigger] cur[i].0 == x) <==> neighbors(adj, x).len() >= 2) by {
            if x < k - 1 {
                if exists|i: int| 0 <= i < cur.len() && #[trigger] cur[i].0 == x {
                    let i = choose|i: int| 0 <= i < cur.len() && #[trigger] cur[i].0 == x;
                    assert(i < prev.len());
                    assert(prev[i].0 == x);
                }
                if exists|i: int| 0 <= i < prev.len() && #[trigger] prev[i].0 == x {
                    let i = choose|i: int| 0 <= i < prev.len() && #[trigger] prev[i].0 == x;
                    assert(cur[i].0 == x);
                }
            } else {
                if neighbors(adj, x).len() >= 2 {
                    assert(cur[cur.len() - 1].0 == x);
                }
                if exists|i: int| 0 <= i < cur.len() && #[trigger] cur[i].0 == x {
                    let i = choose|i: int| 0 <= i < cur.len() && #[trigger] cur[i].0 == x;
                    if i < prev.len() {
                        assert(prev[i].0 < k - 1);
                    }
                }
            }
        }
    }
}

/// The critical list names, in increasing order, exactly the nodes below `k`
/// whose failure isolates some stake, each with that stake.
pub proof fn lemma_isolations_members(adj: Seq<Seq<usize>>, stakes: Seq<u64>, k: int)
    requires
        0 <= k,
    ensures
        forall|i: int, j: int|
            0 <= i < j < isolations_upto(adj, stakes, k).len() ==> (#[trigger] isolations_upto(
                adj,
                stakes,
                k,
            )[i]).0 < (#[trigger] isolations_upto(adj, stakes, k)[j]).0,
        forall|f: int|
            0 <= f < k ==> ((exists|i: int|
                0 <= i < isolations_upto(adj, stakes, k).len() && #[trigger] isolations_upto(
                    adj,
                    stakes,
                    k,
                )[i].0 == f) <==> isolated_stake(adj, stakes, f) > 0),
        forall|i: int|
            0 <= i < isolations_upto(adj, stakes, k).len() ==> {
                let c = #[trigger] isolations_upto(adj, stakes, k)[i];
                &&& 0 <= c.0 < k
                &&& c.1 == isolated_stake(adj, stakes, c.0)
            },
    decreases k,
{
    if k > 0 {
        lemma_isolations_members(adj, stakes, k - 1);
        let prev = isolations_upto(adj, stakes, k - 1);
        let cur = isolations_upto(adj, stakes, k);
        assert forall|f: int|
            0 <= f < k implies ((exists|i: int|
                0 <= i < cur.len() && #[trigger] cur[i].0 == f) <==> isolated_stake(adj, stakes, f) > 0) by {
            if f < k - 1 {
                if exists|i: int| 0 <= i < cur.len() && #[trigger] cur[i].0 == f {
                    let i = choose|i: int| 0 <= i < cur.len() && #[trigger] cur[i].0 == f;
                    assert(i < prev.len());
                    assert(prev[i].0 == f);
                }
                if exists|i: int| 0 <= i < prev.len() && #[trigger] prev[i].0 == f {
                    let i = choose|i: int| 0 <= i < prev.len() && #[trigger] prev[i].0 == f;
                    assert(cur[i].0 == f);
                }
            } else {
                if isolated_stake(adj, stakes, f) > 0 {
                    assert(cur[cur.len() - 1].0 == f);
                }
                if exists|i: int| 0 <= i < cur.len() && #[trigger] cur[i].0 == f {
                    let i = choose|i: int| 0 <= i < cur.len() && #[trigger] cur[i].0 == f;
                    if i < prev.len() {
                        assert(prev[i].0 < k - 1);
                    }
                }
            }
        }
    }
}

/// The search after a failure starts from a node other than the failed one,
/// and from the first such node.
pub proof fn lemma_failover_start(f: int)
    requires
        0 <= f,
    ensures
        failover_start(f) != f,
        0 <= failover_start(f),
        f != 0 ==> failover_start(f) == 0,
        f == 0 ==> failover_start(f) == 1,
{
}

/// `n * (n - 1)` is even.
pub proof fn lemma_pairs_even(n: nat)
    ensures
        (n * (n - 1)) % 2 == 0,
    decreases n,
{
    if n > 1 {
        let m = (n - 1) as nat;
        lemma_pairs_even(m);
        let a = m * (m - 1);
        assert(a % 2 == 0);
        assert(n * (n - 1) == a + 2 * m) by (nonlinear_arith)
            requires
                m == n - 1,
                a == m * (m - 1),
        ;
        assert((a + 2 * m) % 2 == 0) by (nonlinear_arith)
            requires
                a % 2 == 0,
        ;
    } else {
        assert(n * (n - 1) == 0) by (nonlinear_arith)
            requires
                0 <= n <= 1,
        ;
    }
}

pub proof fn lemma_links_with_monotone(adj: Seq<Seq<usize>>, s: Seq<usize>, v: usize, i: int, j: int)
    requires
        0 <= i <= j,
    ensures
        links_with(adj, s, v, i) <= links_with(adj, s, v, j),
    decreases j - i,
{
    if i < j {
        lemma_links_with_monotone(adj, s, v, i, j - 1);
    }
}

/// Links among a prefix never exceed those among a longer prefix.
pub proof fn lemma_pair_links_prefix(adj: Seq<Seq<usize>>, s: Seq<usize>, j: int)
    requires
        0 <= j <= s.len(),
    ensures
        pair_links(adj, s.take(j)) <= pair_links(adj, s),
    decreases s.len() - j,
{
    if j < s.len() {
        lemma_pair_links_prefix(adj, s.drop_last(), j);
        assert(s.drop_last().take(j) =~= s.take(j));
    } else {
        assert(s.take(j) =~= s);
    }
}


/// The number of producer links of the first `k` nodes.
pub open spec fn connections_upto(adj: Seq<Seq<usize>>, k: int) -> nat
    decreases k,
{
    if k <= 0 {
        0
    } else {
        connections_upto(adj, k - 1) + adj[k - 1].len()
    }
}

/// The number of nodes among the first `k` that hold stake.
pub open spec fn staked_upto(stakes: Seq<u64>, k: int) -> nat
    decreases k,
{
    if k <= 0 {
        0
    } else {
        staked_upto(stakes, k - 1) + if stakes[k - 1] > 0 {
            1nat
        } else {
            0nat
        }
    }
}

/// Among the first `e` producers `y` of `x`: those with `y >= x` that list `x`
/// in turn.
pub open spec fn mutual_in(adj: Seq<Seq<usize>>, x: int, e: int) -> nat
    decreases e,
{
    if e <= 0 {
        0
    } else {
        mutual_in(adj, x, e - 1) + if adj[x][e - 1] >= x && succ(adj, adj[x][e - 1] as int).contains(
            x as usize,
        ) {
            1nat
        } else {
            0nat
        }
    }
}

/// The number of unordered pairs `{x, y}` of nodes (`x == y` included) that
/// list each other as producers, counted over the first `k` nodes as the
/// smaller member of the pair.
pub open spec fn mutual_upto(adj: Seq<Seq<usize>>, k: int) -> nat
    decreases k,
{
    if k <= 0 {
        0
    } else {
        mutual_upto(adj, k - 1) + mutual_in(adj, k - 1, adj[k - 1].len() as int)
    }
}

pub proof fn lemma_connections_monotone(adj: Seq<Seq<usize>>, j: int, k: int)
    requires
        j <= k <= adj.len(),
    ensures
        connections_upto(adj, j) <= connections_upto(adj, k),
    decreases k - j,
{
    if j < k {
        lemma_connections_monotone(adj, j, k - 1);
    }
}

pub proof fn lemma_mutual_in_bound(adj: Seq<Seq<usize>>, x: int, e: int)
    requires
        0 <= e,
    ensures
        mutual_in(adj, x, e) <= e,
    decreases e,
{
    if e > 0 {
        lemma_mutual_in_bound(adj, x, e - 1);
    }
}

/// A mutual pair is made of links, so there are no more pairs than links.
pub proof fn lemma_mutual_bound(adj: Seq<Seq<usize>>, k: int)
    requires
        0 <= k <= adj.len(),
    ensures
        mutual_upto(adj, k) <= connections_upto(adj, k),
    decreases k,
{
    if k > 0 {
        lemma_mutual_bound(adj, k - 1);
        lemma_mutual_in_bound(adj, k - 1, adj[k - 1].len() as int);
    }
}

pub proof fn lemma_staked_bound(stakes: Seq<u64>, k: int)
    requires
        0 <= k,
    ensures
        staked_upto(stakes, k) <= k,
    decreases k,
{
    if k > 0 {
        lemma_staked_bound(stakes, k - 1);
    }
}

/// The number of producer links in the topology.
pub fn total_connections(topology: &Topology) -> (total: usize)
    requires
        connections_upto(topology.adj(), topology.nodes@.len() as int) <= usize::MAX,
    ensures
        total == connections_upto(topology.adj(), topology.nodes@.len() as int),
{
    let ghost adj = topology.adj();
    let n = topology.nodes.len();
    let mut total: usize = 0;
    let mut x: usize = 0;
    while x < n
        invariant
            adj == topology.adj(),
            n == adj.len(),
            connections_upto(adj, n as int) <= usize::MAX,
            0 <= x <= n,
            total == connections_upto(adj, x as int),
        decreases n - x,
    {
        proof {
            lemma_connections_monotone(adj, x + 1, n as int);
        }
        total = total + topology.nodes[x].producers.len();
        x += 1;
    }
    total
}

/// The number of nodes that hold stake.
pub fn block_producer_count(topology: &Topology) -> (count: usize)
    ensures
        count == staked_upto(topology.stakes(), topology.nodes@.len() as int),
{
    let ghost stakes = topology.stakes();
    let n = topology.nodes.len();
    let mut count: usize = 0;
    let mut x: usize = 0;
    while x < n
        invariant
            stakes == topology.stakes(),
            n == stakes.len(),
            0 <= x <= n,
            count == staked_upto(stakes, x as int),
        decreases n - x,
    {
        proof {
            lemma_staked_bound(stakes, x as int);
        }
        if topology.nodes[x].stake > 0 {
            count = count + 1;
        }
        x += 1;
    }
    count
}

/// The number of unordered pairs of nodes that list each other as producers
/// (a node that lists itself counts as one pair).
pub fn bidirectional_count(topology: &Topology) -> (count: usize)
    requires
        edges_below(topology.adj(), topology.nodes@.len() as int),
        connections_upto(topology.adj(), topology.nodes@.len() as int) <= usize::MAX,
    ensures
        count == mutual_upto(topology.adj(), topology.nodes@.len() as int),
{
    let ghost adj = topology.adj();
    let n = topology.nodes.len();
    let mut count: usize = 0;
    let mut x: usize = 0;
    while x < n
        invariant
            adj == topology.adj(),
            n == adj.len(),
            edges_below(adj, n as int),
            connections_upto(adj, n as int) <= usize::MAX,
            0 <= x <= n,
            count == mutual_upto(adj, x as int),
        decreases n - x,
    {
        let prods = &topology.nodes[x].producers;
        let mut e: usize = 0;
        proof {
            lemma_mutual_bound(adj, x as int);
            lemma_connections_monotone(adj, x + 1, n as int);
        }
        while e < prods.len()
            invariant
                adj == topology.adj(),
                n == adj.len(),
                edges_below(adj, n as int),
                0 <= x < n,
                prods@ == adj[x as int],
                0 <= e <= prods.len(),
                count == mutual_upto(adj, x as int) + mutual_in(adj, x as int, e as int),
                mutual_upto(adj, x as int) + adj[x as int].len() <= usize::MAX,
            decreases prods.len() - e,
        {
            proof {
                lemma_mutual_in_bound(adj, x as int, e + 1);
            }
            let y = prods[e];
            if y >= x && lists_producer(&topology.nodes[y].producers, x) {
                count = count + 1;
            }
            e += 1;
        }
        x += 1;
    }
    count
}

/// The nodes below `k` that hold stake.
pub open spec fn staked_nodes(stakes: Seq<u64>, k: int) -> Set<int> {
    Set::new(|x: int| 0 <= x < k && stakes[x] > 0)
}

/// The block-producer count is the number of nodes that hold stake.
pub proof fn lemma_staked_count(stakes: Seq<u64>, k: int)
    requires
        0 <= k <= stakes.len(),
    ensures
        staked_nodes(stakes, k).finite(),
        staked_upto(stakes, k) == staked_nodes(stakes, k).len(),
    decreases k,
{
    if k == 0 {
        assert(staked_nodes(stakes, k) =~= Set::empty());
    } else {
        lemma_staked_count(stakes, k - 1);
        if stakes[k - 1] > 0 {
            assert(staked_nodes(stakes, k) =~= staked_nodes(stakes, k - 1).insert(k - 1));
        } else {
            assert(staked_nodes(stakes, k) =~= staked_nodes(stakes, k - 1));
        }
    }
}

/// The producer links `(x, y)`: node `x` lists `y`.
pub open spec fn producer_links(adj: Seq<Seq<usize>>) -> Set<(int, int)> {
    Set::new(|p: (int, int)| 0 <= p.0 < adj.len() && has_edge(adj, p.0, p.1))
}

/// The links of `x` through its first `e` producer entries.
spec fn links_of(adj: Seq<Seq<usize>>, x: int, e: int) -> Set<(int, int)> {
    Set::new(|p: (int, int)| p.0 == x && exists|i: int| 0 <= i < e && #[trigger] adj[x][i] as int == p.1)
}

/// The producer links of the nodes below `k`.
spec fn links_below(adj: Seq<Seq<usize>>, k: int) -> Set<(int, int)> {
    Set::new(|p: (int, int)| p.0 < k && producer_links(adj).contains(p))
}

proof fn lemma_links_of(adj: Seq<Seq<usize>>, x: int, e: int)
    requires
        0 <= x < adj.len(),
        0 <= e <= adj[x].len(),
        seq_distinct(adj[x]),
    ensures
        links_of(adj, x, e).finite(),
        links_of(adj, x, e).len() == e,
    decreases e,
{
    if e == 0 {
        assert(links_of(adj, x, e) =~= Set::empty());
    } else {
        lemma_links_of(adj, x, e - 1);
        let y = adj[x][e - 1] as int;
        let prev = links_of(adj, x, e - 1);
        assert(!prev.contains((x, y))) by {
            if prev.contains((x, y)) {
                let i = choose|i: int| 0 <= i < e - 1 && #[trigger] adj[x][i] as int == y;
                assert(adj[x][i] == adj[x][e - 1]);
            }
        }
        assert forall|p: (int, int)| #[trigger] links_of(adj, x, e).contains(p) <==> prev.insert((x, y)).contains(p) by {
            if links_of(adj, x, e).contains(p) && p != (x, y) {
                let i = choose|i: int| 0 <= i < e && #[trigger] adj[x][i] as int == p.1;
                assert(i < e - 1);
            }
            if prev.contains(p) {
                let i = choose|i: int| 0 <= i < e - 1 && #[trigger] adj[x][i] as int == p.1;
                assert(0 <= i < e);
            }
            if p == (x, y) {
                assert(adj[x][e - 1] as int == p.1);
            }
        }
        assert(links_of(adj, x, e) =~= prev.insert((x, y)));
    }
}

proof fn lemma_links_below(adj: Seq<Seq<usize>>, k: int)
    requires
        0 <= k <= adj.len(),
        forall|x: int| 0 <= x < adj.len() ==> seq_distinct(#[trigger] adj[x]),
    ensures
        links_below(adj, k).finite(),
        links_below(adj, k).len() == connections_upto(adj, k),
    decreases k,
{
    if k == 0 {
        assert(links_below(adj, k) =~= Set::empty());
    } else {
        let x = k - 1;
        lemma_links_below(adj, x);
        lemma_links_of(adj, x, adj[x].len() as int);
        let prev = links_below(adj, x);
        let from = links_of(adj, x, adj[x].len() as int);
        assert forall|p: (int, int)| #[trigger] links_below(adj, k).contains(p) <==> prev.union(from).contains(p) by {
            if links_below(adj, k).contains(p) && p.0 == x {
                let i = choose|i: int| 0 <= i < succ(adj, x).len() && succ(adj, x)[i] as int == p.1;
                assert(adj[x][i] as int == p.1);
            }
            if from.contains(p) {
                let i = choose|i: int| 0 <= i < adj[x].len() && #[trigger] adj[x][i] as int == p.1;
                assert(succ(adj, x)[i] as int == p.1);
            }
        }
        assert(links_below(adj, k) =~= prev.union(from));
        assert(prev.disjoint(from));
        vstd::set_lib::lemma_set_disjoint_lens(prev, from);
    }
}

/// The connection count is the number of producer links `(x, y)` in the
/// topology.
pub proof fn lemma_connections_are_links(adj: Seq<Seq<usize>>)
    requires
        forall|x: int| 0 <= x < adj.len() ==> seq_distinct(#[trigger] adj[x]),
    ensures
        producer_links(adj).finite(),
        connections_upto(adj, adj.len() as int) == producer_links(adj).len(),
{
    lemma_links_below(adj, adj.len() as int);
    assert(links_below(adj, adj.len() as int) =~= producer_links(adj));
}

/// The unordered pairs of nodes that list each other, each written once as
/// `(a, b)` with `a <= b` (a node that lists itself gives the pair `(a, a)`).
pub open spec fn mutual_pairs(adj: Seq<Seq<usize>>) -> Set<(int, int)> {
    Set::new(
        |p: (int, int)|
            0 <= p.0 <= p.1 < adj.len() && has_edge(adj, p.0, p.1) && has_edge(adj, p.1, p.0),
    )
}

/// The mutual pairs met among the first `e` producers of `x`.
spec fn pairs_from(adj: Seq<Seq<usize>>, x: int, e: int) -> Set<(int, int)> {
    Set::new(
        |p: (int, int)|
            p.0 == x && p.1 >= x && has_edge(adj, p.1, x) && exists|i: int|
                0 <= i < e && #[trigger] adj[x][i] as int == p.1,
    )
}

/// The mutual pairs whose smaller member is below `k`.
spec fn pairs_below(adj: Seq<Seq<usize>>, k: int) -> Set<(int, int)> {
    Set::new(|p: (int, int)| p.0 < k && mutual_pairs(adj).contains(p))
}

proof fn lemma_pairs_from(adj: Seq<Seq<usize>>, x: int, e: int)
    requires
        0 <= x < adj.len(),
        adj.len() <= usize::MAX,
        0 <= e <= adj[x].len(),
        seq_distinct(adj[x]),
    ensures
        pairs_from(adj, x, e).finite(),
        pairs_from(adj, x, e).len() == mutual_in(adj, x, e),
    decreases e,
{
    if e == 0 {
        assert(pairs_from(adj, x, e) =~= Set::empty());
    } else {
        lemma_pairs_from(adj, x, e - 1);
        let y = adj[x][e - 1];
        let prev = pairs_from(adj, x, e - 1);
        let cur = pairs_from(adj, x, e);
        let counted = y >= x && succ(adj, y as int).contains(x as usize);
        assert(counted <==> (y >= x && has_edge(adj, y as int, x))) by {
            if succ(adj, y as int).contains(x as usize) {
                let i = choose|i: int| 0 <= i < succ(adj, y as int).len() && succ(adj, y as int)[i] == x as usize;
                assert(succ(adj, y as int)[i] as int == x);
            }
            if has_edge(adj, y as int, x) {
                let i = choose|i: int| 0 <= i < succ(adj, y as int).len() && succ(adj, y as int)[i] as int == x;
                assert(succ(adj, y as int)[i] == x as usize);
            }
        }
        if counted {
            assert(!prev.contains((x, y as int))) by {
                if prev.contains((x, y as int)) {
                    let i = choose|i: int| 0 <= i < e - 1 && #[trigger] adj[x][i] as int == y as int;
                    assert(adj[x][i] == adj[x][e - 1]);
                }
            }
            assert forall|p: (int, int)| cur.contains(p) <==> prev.insert((x, y as int)).contains(p) by {
                if cur.contains(p) && p != (x, y as int) {
                    let i = choose|i: int| 0 <= i < e && #[trigger] adj[x][i] as int == p.1;
                    assert(i < e - 1);
                }
                if prev.contains(p) {
                    let i = choose|i: int| 0 <= i < e - 1 && #[trigger] adj[x][i] as int == p.1;
                    assert(0 <= i < e);
                }
                if p == (x, y as int) {
                    assert(adj[x][e - 1] as int == p.1);
                }
            }
            assert(cur =~= prev.insert((x, y as int)));
        } else {
            assert forall|p: (int, int)| cur.contains(p) <==> prev.contains(p) by {
                if cur.contains(p) {
                    let i = choose|i: int| 0 <= i < e && #[trigger] adj[x][i] as int == p.1;
                    if i == e - 1 {
                        assert(p.1 == y as int);
                    }
                }
                if prev.contains(p) {
                    let i = choose|i: int| 0 <= i < e - 1 && #[trigger] adj[x][i] as int == p.1;
                    assert(0 <= i < e);
                }
            }
            assert(cur =~= prev);
        }
    }
}

proof fn lemma_pairs_below(adj: Seq<Seq<usize>>, k: int)
    requires
        0 <= k <= adj.len(),
        adj.len() <= usize::MAX,
        edges_below(adj, adj.len() as int),
        forall|x: int| 0 <= x < adj.len() ==> seq_distinct(#[trigger] adj[x]),
    ensures
        pairs_below(adj, k).finite(),
        pairs_below(adj, k).len() == mutual_upto(adj, k),
    decreases k,
{
    if k == 0 {
        assert(pairs_below(adj, k) =~= Set::empty());
    } else {
        let x = k - 1;
        lemma_pairs_below(adj, x);
        lemma_pairs_from(adj, x, adj[x].len() as int);
        let prev = pairs_below(adj, x);
        let from = pairs_from(adj, x, adj[x].len() as int);
        assert forall|p: (int, int)| #[trigger] pairs_below(adj, k).contains(p) <==> prev.union(from).contains(p) by {
            if pairs_below(adj, k).contains(p) && p.0 == x {
                let i = choose|i: int| 0 <= i < succ(adj, x).len() && succ(adj, x)[i] as int == p.1;
                assert(adj[x][i] as int == p.1);
                assert(from.contains(p));
            }
            if from.contains(p) {
                let i = choose|i: int| 0 <= i < adj[x].len() && #[trigger] adj[x][i] as int == p.1;
                assert(adj[x][i] < adj.len());
                assert(succ(adj, x)[i] as int == p.1);
                assert(has_edge(adj, p.0, p.1));
                assert(mutual_pairs(adj).contains(p));
            }
        }
        assert(pairs_below(adj, k) =~= prev.union(from));
        assert(prev.disjoint(from));
        vstd::set_lib::lemma_set_disjoint_lens(prev, from);
    }
}

/// The mutual-pair count is the number of unordered pairs of nodes that
/// list each other: a pair is counted once, whichever member is met first.
pub proof fn lemma_mutual_count_is_pairs(adj: Seq<Seq<usize>>)
    requires
        adj.len() <= usize::MAX,
        edges_below(adj, adj.len() as int),
        forall|x: int| 0 <= x < adj.len() ==> seq_distinct(#[trigger] adj[x]),
    ensures
        mutual_pairs(adj).finite(),
        mutual_upto(adj, adj.len() as int) == mutual_pairs(adj).len(),
{
    lemma_pairs_below(adj, adj.len() as int);
    assert(pairs_below(adj, adj.len() as int) =~= mutual_pairs(adj));
}

/// The integer figures of a topology analysis.
pub struct NetworkStats {
    pub total_nodes: usize,
    pub block_producers: usize,
    pub relay_nodes: usize,
    pub total_connections: usize,
    pub network_diameter: usize,
    pub bidirectional_connections: usize,
    pub total_stake: u64,
    /// Per node with at least two neighbours, the counts behind its local
    /// clustering coefficient.
    pub clustering: Vec<LocalClustering>,
    /// The nodes whose failure cuts stake off, in node order.
    pub critical_nodes: Vec<StakeIsolation>,
}

/// The figures that [`analyze_network_stats`] computes must fit their types.
pub open spec fn stats_fit(topology: &Topology) -> bool {
    &&& total_stake(topology.stakes()) <= u64::MAX
    &&& connections_upto(topology.adj(), topology.nodes@.len() as int) <= usize::MAX
    &&& clustering_fits(topology.adj())
}

/// Counts, diameter, clustering and stake isolation of a well-formed topology.
pub fn analyze_network_stats(topology: &Topology) -> (stats: NetworkStats)
    requires
        topology.well_formed(),
        stats_fit(topology),
    ensures
        stats.total_nodes == topology.nodes@.len(),
        stats.block_producers == staked_upto(topology.stakes(), topology.nodes@.len() as int),
        stats.relay_nodes == stats.total_nodes - stats.block_producers,
        stats.total_connections == connections_upto(topology.adj(), topology.nodes@.len() as int),
        is_max_distance(topology.adj(), stats.network_diameter as nat),
        stats.bidirectional_connections == mutual_upto(topology.adj(), topology.nodes@.len() as int),
        stats.bidirectional_connections == mutual_pairs(topology.adj()).len(),
        stats.total_connections == producer_links(topology.adj()).len(),
        stats.block_producers == staked_nodes(topology.stakes(), topology.nodes@.len() as int).len(),
        stats.bidirectional_connections <= stats.total_connections,
        stats.total_stake == total_stake(topology.stakes()),
        clustering_triples(stats.clustering@) == clustering_upto(topology.adj(), topology.nodes@.len() as int),
        forall|i: int|
            0 <= i < stats.clustering@.len() ==> (#[trigger] stats.clustering@[i]).connections <= 2
                * stats.clustering@[i].possible_connections,
        isolation_pairs(stats.critical_nodes@) == isolations_upto(
            topology.adj(),
            topology.stakes(),
            topology.nodes@.len() as int,
        ),
        forall|i: int|
            0 <= i < stats.critical_nodes@.len() ==> (#[trigger] stats.critical_nodes@[i]).isolated_stake
                + topology.stakes()[stats.critical_nodes@[i].node as int] <= stats.total_stake,
{
    let total_nodes = topology.nodes.len();
    let total_connections = total_connections(topology);
    let clustering = clustering_counts(topology);
    let network_diameter = calculate_network_diameter(topology);
    let block_producers = block_producer_count(topology);
    proof {
        lemma_staked_bound(topology.stakes(), total_nodes as int);
        lemma_mutual_bound(topology.adj(), total_nodes as int);
        lemma_mutual_count_is_pairs(topology.adj());
        lemma_connections_are_links(topology.adj());
        lemma_staked_count(topology.stakes(), total_nodes as int);
    }
    let relay_nodes = total_nodes - block_producers;
    let total_stake = sum_stake(topology);
    let critical_nodes = stake_isolation_by_node(topology);
    let bidirectional_connections = bidirectional_count(topology);
    NetworkStats {
        total_nodes,
        block_producers,
        relay_nodes,
        total_connections,
        network_diameter,
        bidirectional_connections,
        total_stake,
        clustering,
        critical_nodes,
    }
}

} // verus!
