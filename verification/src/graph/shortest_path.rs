//! Single-source shortest paths over non-negative integer weights.

use crate::graph::{count_some, Graph, WeightedEdge};
use vstd::prelude::*;

verus! {

/// Following predecessors from `c` reaches `start` within `k` steps.
pub open spec fn leads_to_start(pre: Seq<usize>, start: int, c: int, k: nat) -> bool
    decreases k,
{
    if c == start {
        true
    } else if k == 0 || !(0 <= c < pre.len()) {
        false
    } else {
        leads_to_start(pre, start, pre[c] as int, (k - 1) as nat)
    }
}

/// Once a chain reaches the start, giving it more fuel changes nothing.
proof fn lemma_leads_fuel(pre: Seq<usize>, start: int, c: int, k1: nat, k2: nat)
    requires
        leads_to_start(pre, start, c, k1),
        k1 <= k2,
    ensures
        leads_to_start(pre, start, c, k2),
    decreases k1,
{
    if c != start {
        lemma_leads_fuel(pre, start, pre[c] as int, (k1 - 1) as nat, (k2 - 1) as nat);
    }
}

/// `p` is a chain of recorded edges from `from` to `to`: every edge sits in
/// the adjacency row of the slot it starts at, each edge starts where the
/// previous one ended, and the empty chain relates a node to itself.
#[verifier::opaque]
pub open spec fn edges_path<E: WeightedEdge<usize>>(
    adj: Seq<Seq<E>>,
    from: int,
    to: int,
    p: Seq<E>,
) -> bool {
    &&& forall|t: int|
        0 <= t < p.len() ==> 0 <= (#[trigger] p[t]).start_spec() < adj.len() && adj[p[t].start_spec()].contains(p[t])
    &&& forall|t: int| 0 <= t < p.len() - 1 ==> (#[trigger] p[t]).to_spec() == p[t + 1].start_spec()
    &&& (if p.len() == 0 {
        from == to
    } else {
        p[0].start_spec() == from && p[p.len() - 1].to_spec() == to
    })
}

/// The total weight of a chain of edges.
#[verifier::opaque]
pub open spec fn path_weight<E: WeightedEdge<usize>>(p: Seq<E>) -> int
    decreases p.len(),
{
    if p.len() == 0 {
        0
    } else {
        path_weight(p.drop_last()) + p.last().weight_spec()
    }
}

/// Weights are machine naturals, so a chain never has negative total weight.
proof fn lemma_path_weight_nonneg<E: WeightedEdge<usize>>(p: Seq<E>)
    ensures
        path_weight(p) >= 0,
    decreases p.len(),
{
    reveal(path_weight);
    if p.len() > 0 {
        lemma_path_weight_nonneg(p.drop_last());
    }
}

/// Dropping the last edge of a nonempty chain leaves a chain to that edge's
/// start, and splits the weight accordingly.
proof fn lemma_path_chop<E: WeightedEdge<usize>>(adj: Seq<Seq<E>>, from: int, to: int, p: Seq<E>)
    requires
        edges_path(adj, from, to, p),
        p.len() >= 1,
    ensures
        edges_path(adj, from, p[p.len() - 1].start_spec(), p.drop_last()),
        path_weight(p) == path_weight(p.drop_last()) + p[p.len() - 1].weight_spec(),
{
    reveal(edges_path);
    reveal(path_weight);
    let q = p.drop_last();
    assert forall|t: int| 0 <= t < q.len() implies 0 <= (#[trigger] q[t]).start_spec() < adj.len()
        && adj[q[t].start_spec()].contains(q[t]) by {
        assert(q[t] == p[t]);
    }
    assert forall|t: int| 0 <= t < q.len() - 1 implies (#[trigger] q[t]).to_spec() == q[t
        + 1].start_spec() by {
        assert(q[t] == p[t] && q[t + 1] == p[t + 1]);
    }
    if q.len() > 0 {
        assert(q[0] == p[0]);
        assert(q[q.len() - 1] == p[p.len() - 2]);
        assert(p[p.len() - 2].to_spec() == p[p.len() - 1].start_spec());
    }
}

/// Appending one recorded edge to a chain ending at its start extends the
/// chain to the edge's target.
proof fn lemma_path_extend<E: WeightedEdge<usize>>(adj: Seq<Seq<E>>, from: int, p: Seq<E>, e: E)
    requires
        edges_path(adj, from, e.start_spec(), p),
        0 <= e.start_spec() < adj.len(),
        adj[e.start_spec()].contains(e),
    ensures
        edges_path(adj, from, e.to_spec(), p.push(e)),
        path_weight(p.push(e)) == path_weight(p) + e.weight_spec(),
{
    reveal(edges_path);
    reveal(path_weight);
    let p2 = p.push(e);
    assert(p2.drop_last() =~= p);
    assert forall|t: int| 0 <= t < p2.len() implies 0 <= (#[trigger] p2[t]).start_spec()
        < adj.len() && adj[p2[t].start_spec()].contains(p2[t]) by {
        if t < p.len() {
            assert(p2[t] == p[t]);
        } else {
            assert(p2[t] == e);
        }
    }
    assert forall|t: int| 0 <= t < p2.len() - 1 implies (#[trigger] p2[t]).to_spec() == p2[t
        + 1].start_spec() by {
        if t < p.len() - 1 {
            assert(p2[t] == p[t] && p2[t + 1] == p[t + 1]);
        } else {
            assert(p2[t] == p[p.len() - 1] && p2[t + 1] == e);
        }
    }
    if p.len() > 0 {
        assert(p2[0] == p[0]);
    }
}

/// The heart of the settling argument: any recorded chain into `v` either
/// already costs at least `inf`, or some node bounded by the chain's cost is
/// either `v` itself or still unsettled. The hypotheses say that the start is
/// priced at `zero` and that every edge out of a settled slot has been
/// relaxed, up to arithmetic that would not fit in the cost type.
proof fn lemma_path_bound<E: WeightedEdge<usize>>(
    adj: Seq<Seq<E>>,
    costs: Seq<usize>,
    visited: Seq<bool>,
    start: int,
    zero: usize,
    inf: usize,
    v: int,
    p: Seq<E>,
)
    requires
        costs.len() == visited.len(),
        0 <= start < costs.len(),
        costs[start] == zero,
        forall|i: int, k: int|
            0 <= i < adj.len() && 0 <= k < adj[i].len() ==> 0 <= (
            #[trigger] adj[i][k]).to_spec() < costs.len() && adj[i][k].start_spec() == i,
        forall|i: int, k: int|
            0 <= i < adj.len() && i < costs.len() && visited[i] && 0 <= k < adj[i].len()
                ==> costs[(#[trigger] adj[i][k]).to_spec()] <= costs[i] + adj[i][k].weight_spec()
                || costs[i] + adj[i][k].weight_spec() > usize::MAX,
        edges_path(adj, start, v, p),
        0 <= v < costs.len(),
    ensures
        zero + path_weight(p) >= inf || exists|u: int|
            0 <= u < costs.len() && (#[trigger] costs[u]) <= zero + path_weight(p) && (u == v
                || !visited[u]),
    decreases p.len(),
{
    reveal(edges_path);
    reveal(path_weight);
    if p.len() == 0 {
        assert(v == start);
        assert(0 <= start < costs.len() && costs[start as int] <= zero + path_weight(p) && (start
            == v || !visited[start]));
    } else {
        let e = p[p.len() - 1];
        let x = e.start_spec();
        let q = p.drop_last();
        assert(0 <= x < adj.len() && adj[x].contains(e));
        assert(e.to_spec() == v);
        // The chain's second-to-last stop is inside the priced range: it is
        // the start, or the target of the edge before.
        if p.len() == 1 {
            assert(x == start);
        } else {
            let e2 = p[p.len() - 2];
            assert(0 <= e2.start_spec() < adj.len() && adj[e2.start_spec()].contains(e2));
            let k2 = choose|k2: int|
                0 <= k2 < adj[e2.start_spec()].len() && adj[e2.start_spec()][k2] == e2;
            assert(adj[e2.start_spec()][k2].to_spec() < costs.len());
            assert(e2.to_spec() == x);
        }
        lemma_path_chop(adj, start, v, p);
        lemma_path_bound(adj, costs, visited, start, zero, inf, x, q);
        lemma_path_weight_nonneg(q);
        let bq = zero + path_weight(q);
        let bp = zero + path_weight(p);
        assert(bp == bq + e.weight_spec());
        if bq >= inf {
        } else {
            let u = choose|u: int|
                0 <= u < costs.len() && costs[u] <= bq && (u == x || !visited[u]);
            if !visited[u] {
                assert(0 <= u < costs.len() && costs[u] <= bp && (u == v || !visited[u]));
            } else {
                // u is x and x is settled: its edge to v is relaxed.
                let kk = choose|kk: int| 0 <= kk < adj[x].len() && adj[x][kk] == e;
                assert(costs[adj[x][kk].to_spec()] <= costs[x] + adj[x][kk].weight_spec()
                    || costs[x] + adj[x][kk].weight_spec() > usize::MAX);
                if costs[v] <= costs[x] + e.weight_spec() {
                    assert(0 <= v < costs.len() && costs[v] <= bp && (v == v || !visited[v]));
                } else {
                    assert(bp >= costs[x] + e.weight_spec());
                }
            }
        }
    }
}

/// How many entries are set.
spec fn count_true(s: Seq<bool>) -> nat
    decreases s.len(),
{
    if s.len() == 0 {
        0
    } else {
        count_true(s.drop_last()) + (if s.last() {
            1nat
        } else {
            0nat
        })
    }
}

/// Setting one unset entry raises the count by one.
proof fn lemma_count_true_update(s: Seq<bool>, i: int)
    requires
        0 <= i < s.len(),
        !s[i],
    ensures
        count_true(s.update(i, true)) == count_true(s) + 1,
    decreases s.len(),
{
    let s2 = s.update(i, true);
    if i == s.len() - 1 {
        assert(s2.drop_last() =~= s.drop_last());
    } else {
        assert(s2.drop_last() =~= s.drop_last().update(i, true));
        lemma_count_true_update(s.drop_last(), i);
    }
}

/// The count never exceeds the length, and a full count means every entry is
/// set.
proof fn lemma_count_true_full(s: Seq<bool>)
    ensures
        count_true(s) <= s.len(),
        count_true(s) == s.len() ==> forall|i: int| 0 <= i < s.len() ==> s[i],
    decreases s.len(),
{
    if s.len() > 0 {
        lemma_count_true_full(s.drop_last());
        if count_true(s) == s.len() {
            assert forall|i: int| 0 <= i < s.len() implies s[i] by {
                if i < s.len() - 1 {
                    assert(s.drop_last()[i] == s[i]);
                }
            }
        }
    }
}

/// Predecessors settled strictly earlier lead back to the start: the chain
/// from any settled node walks down the settling order.
proof fn lemma_chain_leads(
    pre: Seq<usize>,
    visited: Seq<bool>,
    ord: Map<int, nat>,
    start: int,
    v: int,
)
    requires
        pre.len() == visited.len(),
        0 <= v < pre.len(),
        visited[v],
        0 <= start < pre.len(),
        forall|u: int|
            0 <= u < pre.len() && #[trigger] visited[u] && u != start ==> (pre[u] as int)
                < pre.len() && visited[pre[u] as int] && ord[pre[u] as int] < ord[u],
    ensures
        leads_to_start(pre, start, v, ord[v]),
    decreases ord[v],
{
    if v != start {
        lemma_chain_leads(pre, visited, ord, start, pre[v] as int);
        lemma_leads_fuel(pre, start, pre[v] as int, ord[pre[v] as int], (ord[v] - 1) as nat);
    }
}


/// Reassembles the search's exit facts: when the loop stops — everything
/// settled, the frontier exhausted, or the goal settled — the costs are
/// optimal where promised and predecessor chains of priced nodes lead back to
/// the start.
proof fn lemma_search_complete<E: WeightedEdge<usize>>(
    adj: Seq<Seq<E>>,
    costs: Seq<usize>,
    pre: Seq<usize>,
    visited: Seq<bool>,
    ord: Map<int, nat>,
    start: int,
    zero: usize,
    inf: usize,
    round: int,
    n: int,
    finished: bool,
    goal_hit: bool,
    goal: Option<usize>,
    gnode: usize,
)
    requires
        n == costs.len(),
        n == pre.len(),
        n == visited.len(),
        0 <= start < n,
        costs[start] == zero,
        zero <= inf,
        count_true(visited) == round,
        round <= n,
        !(round < n && !finished && !goal_hit),
        forall|m: int| 0 <= m < n ==> (#[trigger] pre[m]) < n,
        forall|i2: int, k2: int|
            0 <= i2 < adj.len() && 0 <= k2 < adj[i2].len() ==> 0 <= (
            #[trigger] adj[i2][k2]).to_spec() < n && adj[i2][k2].start_spec() == i2,
        !goal_hit ==> forall|i2: int, k2: int|
            0 <= i2 < adj.len() && i2 < n && visited[i2] && 0 <= k2 < adj[i2].len() ==> costs[(
            #[trigger] adj[i2][k2]).to_spec()] <= costs[i2] + adj[i2][k2].weight_spec() || costs[i2]
                + adj[i2][k2].weight_spec() > usize::MAX,
        forall|v: int, p: Seq<E>|
            0 <= v < n && visited[v] && #[trigger] edges_path(adj, start, v, p) ==> costs[v]
                <= zero + path_weight(p) || zero + path_weight(p) >= inf,
        finished ==> forall|v: int, p: Seq<E>|
            0 <= v < n && #[trigger] edges_path(adj, start, v, p) ==> costs[v] <= zero
                + path_weight(p) || zero + path_weight(p) >= inf,
        goal_hit ==> goal == Some(gnode) && (gnode as int) < n && visited[gnode as int],
        forall|m: int| 0 <= m < n && #[trigger] visited[m] ==> costs[m] != inf,
        forall|v: int|
            0 <= v < n && (#[trigger] costs[v]) != inf && v != start ==> visited[pre[v] as int],
        forall|v: int|
            0 <= v < n && #[trigger] visited[v] && v != start ==> ord[pre[v] as int] < ord[v],
        forall|v: int| 0 <= v < n && #[trigger] visited[v] ==> ord[v] < round,
    ensures
        goal is None ==> forall|v: int, p: Seq<E>|
            0 <= v < n && #[trigger] edges_path(adj, start, v, p) ==> costs[v] <= zero
                + path_weight(p) || zero + path_weight(p) >= inf,
        forall|g: usize, p: Seq<E>|
            goal == Some(g) && (g as int) < n && #[trigger] edges_path(adj, start, g as int, p)
                ==> costs[g as int] <= zero + path_weight(p) || zero + path_weight(p) >= inf,
        forall|v: int|
            0 <= v < n && (#[trigger] costs[v]) != inf ==> leads_to_start(
                pre,
                start,
                v,
                pre.len() as nat,
            ),
{
    lemma_count_true_full(visited);
    if !finished && !goal_hit {
        assert(round == n);
        assert forall|v: int, p: Seq<E>|
            0 <= v < n && #[trigger] edges_path(adj, start, v, p) implies costs[v] <= zero
            + path_weight(p) || zero + path_weight(p) >= inf by {
            assert(visited[v]);
        }
    }
    if goal_hit {
        assert forall|g: usize, p: Seq<E>|
            goal == Some(g) && (g as int) < n && #[trigger] edges_path(
                adj,
                start,
                g as int,
                p,
            ) implies costs[g as int] <= zero + path_weight(p) || zero + path_weight(p) >= inf by {
            assert(g == gnode);
            assert(visited[g as int]);
        }
    }
    assert forall|v: int| 0 <= v < n && (#[trigger] costs[v]) != inf implies leads_to_start(
        pre,
        start,
        v,
        pre.len() as nat,
    ) by {
        assert forall|u: int|
            0 <= u < pre.len() && #[trigger] visited[u] && u != start implies (pre[u] as int)
            < pre.len() && visited[pre[u] as int] && ord[pre[u] as int] < ord[u] by {
            assert(costs[u] != inf);
        }
        if visited[v] {
            lemma_chain_leads(pre, visited, ord, start, v);
            lemma_leads_fuel(pre, start, v, ord[v], pre.len() as nat);
        } else if v == start {
        } else {
            let pv = pre[v] as int;
            lemma_chain_leads(pre, visited, ord, start, pv);
            lemma_leads_fuel(pre, start, pv, ord[pv], (pre.len() - 1) as nat);
        }
    }
}

/// The result of a single-source shortest-path run: the start node, the cost
/// found for every node, and each node's predecessor on its best path.
pub struct SSSPResult {
    start: usize,
    pub costs: Vec<usize>,
    pre_nodes: Vec<usize>,
}

impl SSSPResult {
    /// The start node of the run.
    pub closed spec fn start_spec(&self) -> int {
        self.start as int
    }

    /// The predecessor of each node on its best path.
    pub closed spec fn pre_view(&self) -> Seq<usize> {
        self.pre_nodes@
    }

    /// The cost found for each node.
    pub closed spec fn costs_view(&self) -> Seq<usize> {
        self.costs@
    }

    /// Rebuilds the path from the start to `goal` by walking predecessors
    /// backwards, in time linear in the path length.
    pub fn build_path(&self, goal: usize) -> (path: Vec<usize>)
        requires
            leads_to_start(
                self.pre_view(),
                self.start_spec(),
                goal as int,
                self.pre_view().len() as nat,
            ),
        ensures
            path@.len() >= 1,
            path@[0] as int == self.start_spec(),
            path@[path@.len() - 1] == goal,
            forall|t: int|
                0 <= t < path@.len() - 1 ==> (#[trigger] path@[t]) == self.pre_view()[path@[t
                    + 1] as int],
    {
        let mut cur = goal;
        let mut back: Vec<usize> = Vec::new();
        back.push(goal);
        let ghost mut fuel: nat = self.pre_view().len() as nat;
        while cur != self.start
            invariant
                leads_to_start(self.pre_view(), self.start_spec(), cur as int, fuel),
                back@.len() >= 1,
                back@[0] == goal,
                back@[back@.len() - 1] == cur,
                forall|t: int|
                    0 <= t < back@.len() - 1 ==> (#[trigger] back@[t + 1]) == self.pre_view()[back@[t] as int],
            decreases fuel,
        {
            proof {
                fuel = (fuel - 1) as nat;
            }
            cur = self.pre_nodes[cur];
            back.push(cur);
        }
        let mut path: Vec<usize> = Vec::new();
        let mut k = back.len();
        while k > 0
            invariant
                k <= back@.len(),
                path@.len() == back@.len() - k,
                forall|t: int|
                    0 <= t < path@.len() ==> (#[trigger] path@[t]) == back@[back@.len() - 1 - t],
            decreases k,
        {
            k -= 1;
            path.push(back[k]);
        }
        proof {
            let bl = back@.len() as int;
            assert forall|t: int|
                0 <= t < path@.len() - 1 implies (#[trigger] path@[t]) == self.pre_view()[path@[t
                + 1] as int] by {
                assert(path@[t] == back@[bl - 1 - t]);
                assert(path@[t + 1] == back@[bl - 1 - (t + 1)]);
                assert(back@[(bl - 2 - t) + 1] == self.pre_view()[back@[bl - 2 - t] as int]);
            }
        }
        path
    }
}

/// Dijkstra's shortest-path algorithm over non-negative weights: repeatedly
/// settles the cheapest unsettled node and relaxes the edges leaving it,
/// stopping early at `goal` when one is given. The costs found are exactly
/// the least total weights of recorded edge chains from `start` (for every
/// node when no goal is given, and for the goal when one is); a node no chain
/// cheaper than `inf` reaches keeps the cost `inf`, and a relaxation whose
/// cost would not fit in the cost type is not taken. The predecessor of every
/// priced node closes its cost by one recorded edge, and predecessor chains
/// lead back to the start.
#[verifier::rlimit(100)]
pub fn dijkstra<N, E: WeightedEdge<usize> + Copy, G: Graph<N, E>>(
    graph: &G,
    start: usize,
    goal: Option<usize>,
    zero: usize,
    inf: usize,
) -> (result: SSSPResult)
    requires
        graph.inv(),
        (start as nat) < count_some(graph.nodes_view()),
        zero <= inf,
        forall|i: int|
            0 <= i < count_some(graph.nodes_view()) ==> i < graph.nodes_view().len() && (
            #[trigger] graph.nodes_view()[i]) is Some,
        forall|i: int, k: int|
            0 <= i < graph.adj_view().len() && 0 <= k < graph.adj_view()[i].len() ==> 0 <= (
            #[trigger] graph.adj_view()[i][k]).to_spec() < count_some(graph.nodes_view())
                && graph.adj_view()[i][k].start_spec() == i,
    ensures
        result.costs_view().len() == count_some(graph.nodes_view()),
        result.pre_view().len() == count_some(graph.nodes_view()),
        result.start_spec() == start as int,
        result.costs_view()[start as int] == zero,
        forall|i: int|
            0 <= i < result.costs_view().len() ==> zero <= (#[trigger] result.costs_view()[i])
                <= inf,
        // every priced node is reached by a chain of exactly that cost
        forall|v: int|
            0 <= v < result.costs_view().len() && (#[trigger] result.costs_view()[v]) != inf
                ==> exists|p: Seq<E>|
                edges_path(graph.adj_view(), start as int, v, p) && zero + path_weight(p)
                    == result.costs_view()[v],
        // without a goal, no chain beats the cost found, anywhere
        goal is None ==> forall|v: int, p: Seq<E>|
            0 <= v < result.costs_view().len() && #[trigger] edges_path(
                graph.adj_view(),
                start as int,
                v,
                p,
            ) ==> result.costs_view()[v] <= zero + path_weight(p) || zero + path_weight(p) >= inf,
        // with a goal, no chain beats the cost found for the goal
        forall|g: usize, p: Seq<E>|
            goal == Some(g) && (g as int) < result.costs_view().len() && #[trigger] edges_path(
                graph.adj_view(),
                start as int,
                g as int,
                p,
            ) ==> result.costs_view()[g as int] <= zero + path_weight(p) || zero + path_weight(p)
                >= inf,
        // predecessor chains of priced nodes lead back to the start
        forall|v: int|
            0 <= v < result.costs_view().len() && (#[trigger] result.costs_view()[v]) != inf
                ==> leads_to_start(
                result.pre_view(),
                start as int,
                v,
                result.pre_view().len() as nat,
            ),
{
    let ghost adj = graph.adj_view();
    let n = graph.node_count();
    let ghost n_ = n as int;
    let mut costs: Vec<usize> = Vec::new();
    let mut pre_nodes: Vec<usize> = Vec::new();
    let mut visited: Vec<bool> = Vec::new();
    let mut i: usize = 0;
    while i < n
        invariant
            i <= n,
            costs@.len() == i,
            pre_nodes@.len() == i,
            visited@.len() == i,
            forall|m: int| 0 <= m < i ==> (#[trigger] costs@[m]) == inf,
            forall|m: int| 0 <= m < i ==> (#[trigger] pre_nodes@[m]) as int == m,
            forall|m: int| 0 <= m < i ==> (#[trigger] visited@[m]) == false,
            count_true(visited@) == 0,
        decreases n - i,
    {
        let ghost old_vis = visited@;
        costs.push(inf);
        pre_nodes.push(i);
        visited.push(false);
        proof {
            assert(visited@.drop_last() =~= old_vis);
        }
        i += 1;
    }
    costs[start] = zero;
    proof {
        reveal(edges_path);
        reveal(path_weight);
        assert(edges_path(adj, start as int, start as int, Seq::<E>::empty()));
        assert(path_weight(Seq::<E>::empty()) == 0);
    }
    let ghost mut ord: Map<int, nat> = Map::empty();
    let ghost mut gnode: usize = 0;
    let mut round: usize = 0;
    let mut finished = false;
    let mut goal_hit = false;
    while round < n && !finished && !goal_hit
        invariant
            round <= n,
            n_ == n,
            n as nat == count_some(graph.nodes_view()),
            graph.inv(),
            adj == graph.adj_view(),
            zero <= inf,
            start < n,
            costs@.len() == n,
            pre_nodes@.len() == n,
            visited@.len() == n,
            costs@[start as int] == zero,
            count_true(visited@) == round,
            forall|m: int| 0 <= m < n ==> zero <= (#[trigger] costs@[m]) <= inf,
            forall|m: int| 0 <= m < n ==> (#[trigger] pre_nodes@[m]) < n,
            forall|i2: int|
                0 <= i2 < n ==> i2 < graph.nodes_view().len() && (
                #[trigger] graph.nodes_view()[i2]) is Some,
            forall|i2: int, k2: int|
                0 <= i2 < adj.len() && 0 <= k2 < adj[i2].len() ==> 0 <= (
                #[trigger] adj[i2][k2]).to_spec() < n && adj[i2][k2].start_spec() == i2,
            // settled slots are priced
            forall|m: int| 0 <= m < n && #[trigger] visited@[m] ==> costs@[m] != inf,
            // every priced node is reached by a chain of exactly that cost
            forall|v: int|
                0 <= v < n && (#[trigger] costs@[v]) != inf ==> exists|p: Seq<E>|
                    edges_path(adj, start as int, v, p) && zero + path_weight(p) == costs@[v],
            // settled costs are optimal
            forall|v: int, p: Seq<E>|
                0 <= v < n && visited@[v] && #[trigger] edges_path(adj, start as int, v, p)
                    ==> costs@[v] <= zero + path_weight(p) || zero + path_weight(p) >= inf,
            // until a goal is hit, every edge out of a settled slot is
            // relaxed, up to overflow
            !goal_hit ==> forall|i2: int, k2: int|
                0 <= i2 < adj.len() && i2 < n && visited@[i2] && 0 <= k2 < adj[i2].len()
                    ==> costs@[(#[trigger] adj[i2][k2]).to_spec()] <= costs@[i2] + adj[i2][k2].weight_spec() || costs@[i2] + adj[i2][k2].weight_spec() > usize::MAX,
            // each priced node's predecessor is settled
            forall|v: int|
                0 <= v < n && (#[trigger] costs@[v]) != inf && v != start ==> visited@[pre_nodes@[v] as int],
            // the settling order is recorded and decreases along predecessors
            forall|v: int| 0 <= v < n && #[trigger] visited@[v] ==> ord[v] < round,
            forall|v: int|
                0 <= v < n && #[trigger] visited@[v] && v != start ==> ord[pre_nodes@[v] as int]
                    < ord[v],
            round == 0 ==> forall|m: int| 0 <= m < n && m != start ==> (#[trigger] costs@[m])
                == inf,
            // once the search is finished, no chain beats any cost
            finished ==> forall|v: int, p: Seq<E>|
                0 <= v < n && #[trigger] edges_path(adj, start as int, v, p) ==> costs@[v] <= zero
                    + path_weight(p) || zero + path_weight(p) >= inf,
            goal_hit ==> goal == Some(gnode) && gnode < n && visited@[gnode as int],
        decreases n - round + (if finished {
            0int
        } else {
            1int
        }) + (if goal_hit {
            0int
        } else {
            1int
        }),
    {
        let mut best: usize = n;
        let mut best_cost: usize = inf;
        let mut j: usize = 0;
        while j < n
            invariant
                j <= n,
                n == costs@.len(),
                n == visited@.len(),
                zero <= inf,
                forall|m: int| 0 <= m < n ==> zero <= (#[trigger] costs@[m]) <= inf,
                best == n || (best < n && visited@[best as int] == false && costs@[best as int]
                    == best_cost),
                best == n ==> best_cost == inf,
                best == n ==> forall|m: int| 0 <= m < j ==> (#[trigger] visited@[m]),
                forall|m: int|
                    0 <= m < j && !(#[trigger] visited@[m]) ==> best_cost <= costs@[m],
            decreases n - j,
        {
            if !visited[j] {
                if best == n || costs[j] < best_cost {
                    best = j;
                    best_cost = costs[j];
                }
            }
            j += 1;
        }
        if best == n || best_cost == inf {
            proof {
                assert forall|v: int, p: Seq<E>|
                    0 <= v < n && #[trigger] edges_path(adj, start as int, v, p) implies costs@[v]
                    <= zero + path_weight(p) || zero + path_weight(p) >= inf by {
                    lemma_path_bound(
                        adj,
                        costs@,
                        visited@,
                        start as int,
                        zero,
                        inf,
                        v,
                        p,
                    );
                    if zero + path_weight(p) < inf {
                        let u = choose|u: int|
                            0 <= u < costs@.len() && costs@[u] <= zero + path_weight(p) && (u == v
                                || !visited@[u]);
                        if u != v && !visited@[u] {
                            // no unsettled node is priced below inf here
                            assert(best_cost <= costs@[u]);
                        }
                    }
                }
            }
            finished = true;
        } else {
            // Settle the cheapest unsettled node: its cost is already
            // optimal, since any chain to it passes an unsettled node priced
            // at least as high.
            proof {
                assert forall|p: Seq<E>| #[trigger] edges_path(adj, start as int, best as int, p)
                    implies costs@[best as int] <= zero + path_weight(p) || zero + path_weight(p)
                    >= inf by {
                    lemma_path_bound(
                        adj,
                        costs@,
                        visited@,
                        start as int,
                        zero,
                        inf,
                        best as int,
                        p,
                    );
                    if zero + path_weight(p) < inf {
                        let u = choose|u: int|
                            0 <= u < costs@.len() && costs@[u] <= zero + path_weight(p) && (u
                                == best as int || !visited@[u]);
                        if u != best as int {
                            assert(best_cost <= costs@[u]);
                        }
                    }
                }
                // the first settled node is the start
                if round == 0 {
                    assert(costs@[best as int] != inf || best == start);
                    assert(best == start);
                }
                lemma_count_true_update(visited@, best as int);
            }
            let ghost old_vis = visited@;
            visited[best] = true;
            proof {
                ord = ord.insert(best as int, round as nat);
                assert forall|v: int|
                    0 <= v < n && #[trigger] visited@[v] && v != start implies ord[pre_nodes@[v] as int] < ord[v] by {
                    if v != best as int {
                        assert(old_vis[v]);
                        assert(pre_nodes@[v] as int != best as int);
                    } else {
                        assert(old_vis[pre_nodes@[v] as int]);
                    }
                }
            }
            let mut stop = false;
            match goal {
                Some(g) => {
                    if best == g {
                        stop = true;
                    }
                },
                None => {},
            }
            if stop {
                goal_hit = true;
                proof {
                    gnode = best;
                }
            } else {
                let edges = graph.edges_from(best);
                proof {
                    assert(graph.nodes_view()[best as int] is Some);
                }
                let mut k: usize = 0;
                while k < edges.len()
                    invariant
                        k <= edges@.len(),
                        n_ == n,
                        n as nat == count_some(graph.nodes_view()),
                        graph.inv(),
                        adj == graph.adj_view(),
                        zero <= inf,
                        start < n,
                        best < n,
                        round < n,
                        costs@.len() == n,
                        pre_nodes@.len() == n,
                        visited@.len() == n,
                        costs@[start as int] == zero,
                        count_true(visited@) == round + 1,
                        visited@[best as int],
                        costs@[best as int] == best_cost,
                        best_cost != inf,
                        best < adj.len() && edges@ == adj[best as int],
                        forall|m: int| 0 <= m < n ==> zero <= (#[trigger] costs@[m]) <= inf,
                        forall|m: int| 0 <= m < n ==> (#[trigger] pre_nodes@[m]) < n,
                        forall|i2: int, k2: int|
                            0 <= i2 < adj.len() && 0 <= k2 < adj[i2].len() ==> 0 <= (
                            #[trigger] adj[i2][k2]).to_spec() < n && adj[i2][k2].start_spec()
                                == i2,
                        forall|m: int| 0 <= m < n && #[trigger] visited@[m] ==> costs@[m] != inf,
                        forall|v: int|
                            0 <= v < n && (#[trigger] costs@[v]) != inf ==> exists|p: Seq<E>|
                                edges_path(adj, start as int, v, p) && zero + path_weight(p)
                                    == costs@[v],
                        forall|v: int, p: Seq<E>|
                            0 <= v < n && visited@[v] && #[trigger] edges_path(
                                adj,
                                start as int,
                                v,
                                p,
                            ) ==> costs@[v] <= zero + path_weight(p) || zero + path_weight(p)
                                >= inf,
                        // settled rows other than `best` are fully relaxed;
                        // `best`'s row is relaxed up to `k`
                        forall|i2: int, k2: int|
                            0 <= i2 < adj.len() && i2 < n && visited@[i2] && 0 <= k2 < adj[i2].len() && (i2 != best as int || k2 < k) ==> costs@[(
                            #[trigger] adj[i2][k2]).to_spec()] <= costs@[i2] + adj[i2][k2].weight_spec() || costs@[i2] + adj[i2][k2].weight_spec()
                                > usize::MAX,
                        forall|v: int|
                            0 <= v < n && (#[trigger] costs@[v]) != inf && v != start
                                ==> visited@[pre_nodes@[v] as int],
                        forall|v: int| 0 <= v < n && #[trigger] visited@[v] ==> ord[v] < round + 1,
                        forall|v: int|
                            0 <= v < n && #[trigger] visited@[v] && v != start ==> ord[pre_nodes@[v] as int] < ord[v],
                    decreases edges@.len() - k,
                {
                    let e = edges[k];
                    proof {
                        assert(edges@[k as int] == adj[best as int][k as int]);
                        assert(adj[best as int].contains(e)) by {
                            assert(adj[best as int][k as int] == e);
                        }
                    }
                    let nx = e.to();
                    let wgt = e.weight();
                    match best_cost.checked_add(wgt) {
                        Some(nc) => {
                            if nc < costs[nx] {
                                proof {
                                    // The relaxation is a real chain cost, so
                                    // it cannot beat a settled node's cost.
                                    let pb = choose|pb: Seq<E>|
                                        edges_path(adj, start as int, best as int, pb) && zero
                                            + path_weight(pb) == costs@[best as int];
                                    lemma_path_extend(adj, start as int, pb, e);
                                    lemma_path_weight_nonneg(pb);
                                    if visited@[nx as int] {
                                        assert(costs@[nx as int] <= zero + path_weight(pb.push(e))
                                            || zero + path_weight(pb.push(e)) >= inf);
                                        assert(false);
                                    }
                                }
                                let ghost pre_write_costs = costs@;
                                costs[nx] = nc;
                                pre_nodes[nx] = best;
                                proof {
                                    let pb = choose|pb: Seq<E>|
                                        edges_path(adj, start as int, best as int, pb) && zero
                                            + path_weight(pb) == pre_write_costs[best as int];
                                    lemma_path_extend(adj, start as int, pb, e);
                                    // the new price is realized by the
                                    // extended chain
                                    assert(zero + path_weight(pb.push(e)) == costs@[nx as int]);
                                    assert(edges_path(adj, start as int, nx as int, pb.push(e)));
                                    assert forall|v: int|
                                        0 <= v < n && (#[trigger] costs@[v]) != inf implies exists|
                                        p: Seq<E>,
                                    |
                                        edges_path(adj, start as int, v, p) && zero + path_weight(
                                            p,
                                        ) == costs@[v] by {
                                        if v != nx as int {
                                            assert(costs@[v] == pre_write_costs[v]);
                                        }
                                    }
                                }
                            }
                        },
                        None => {},
                    }
                    k += 1;
                }
                round += 1;
            }
            if stop {
                round += 1;
            }
        }
    }
    proof {
        lemma_search_complete(
            adj,
            costs@,
            pre_nodes@,
            visited@,
            ord,
            start as int,
            zero,
            inf,
            round as int,
            n as int,
            finished,
            goal_hit,
            goal,
            gnode,
        );
    }
    let result = SSSPResult { start, costs, pre_nodes };
    proof {
        assert(result.costs_view() == costs@);
        assert(result.pre_view() == pre_nodes@);
        assert(result.start_spec() == start as int);
    }
    result
}

} // verus!
