//! Graph implementation using an adjacency list: one optional node and one
//! edge row per slot, with cached node and edge counts.

use crate::graph::{
    concat_upto, count_some, edge_keeps, edge_matches, edge_starts_at, lemma_count_some_le,
    lemma_count_some_update, lemma_sum_lens_bound, lemma_sum_lens_empty, lemma_sum_lens_update,
    sum_lens, Edge, Graph,
};
use vstd::prelude::*;

verus! {

/// An adjacency-list graph with space linear in slots plus edges.
pub struct AdjListGraph<N, E> {
    nodes: Vec<Option<N>>,
    adj_list: Vec<Vec<E>>,
    node_count: usize,
    edge_count: usize,
}

impl<N, E: Edge + Copy> AdjListGraph<N, E> {
    /// A slot exists and holds a node.
    fn node_exists(&self, node_id: usize) -> (r: bool)
        ensures
            r == (node_id < self.nodes_view().len() && self.nodes_view()[node_id as int] is Some),
    {
        node_id < self.nodes.len() && self.nodes[node_id].is_some()
    }

    /// Creates a graph with `size` empty slots.
    pub fn new(size: usize) -> (g: Self)
        ensures
            g.inv(),
            g.nodes_view() == Seq::new(size as nat, |i: int| None::<N>),
            g.adj_view() == Seq::new(size as nat, |i: int| Seq::<E>::empty()),
    {
        let mut nodes: Vec<Option<N>> = Vec::new();
        let mut adj_list: Vec<Vec<E>> = Vec::new();
        let mut i: usize = 0;
        while i < size
            invariant
                i <= size,
                nodes@.len() == i,
                adj_list@.len() == i,
                forall|m: int| 0 <= m < i ==> (#[trigger] nodes@[m]) is None,
                forall|m: int| 0 <= m < i ==> (#[trigger] adj_list@[m])@.len() == 0,
                count_some(nodes@) == 0,
                sum_lens(Seq::new(adj_list@.len(), |m: int| adj_list@[m]@)) == 0,
            decreases size - i,
        {
            let ghost old_nodes = nodes@;
            let ghost old_adj = adj_list@;
            nodes.push(None);
            adj_list.push(Vec::new());
            proof {
                assert(nodes@.drop_last() =~= old_nodes);
                let av = Seq::new(adj_list@.len(), |m: int| adj_list@[m]@);
                assert(av.drop_last() =~= Seq::new(old_adj.len(), |m: int| old_adj[m]@));
            }
            i += 1;
        }
        let g = AdjListGraph { nodes, adj_list, node_count: 0, edge_count: 0 };
        proof {
            assert(g.nodes_view() =~= Seq::new(size as nat, |i: int| None::<N>));
            assert(g.adj_view() =~~= Seq::new(size as nat, |i: int| Seq::<E>::empty()));
        }
        g
    }

    /// Creates a graph whose slots all hold the given nodes, with no edges.
    pub fn from_nodes(nodes: Vec<N>) -> (g: Self)
        ensures
            g.inv(),
            g.nodes_view().len() == nodes@.len(),
            forall|i: int|
                0 <= i < nodes@.len() ==> #[trigger] g.nodes_view()[i] == Some(nodes@[i]),
            g.adj_view() == Seq::new(nodes@.len(), |i: int| Seq::<E>::empty()),
            count_some(g.nodes_view()) == nodes@.len(),
    {
        let n = nodes.len();
        let mut slots: Vec<Option<N>> = Vec::new();
        let mut adj_list: Vec<Vec<E>> = Vec::new();
        let mut i: usize = 0;
        let mut rest = nodes;
        proof {
            assert(rest@.skip(0) =~= rest@);
        }
        let ghost all = rest@;
        while i < n
            invariant
                i <= n,
                n == all.len(),
                rest@ =~= all.skip(i as int),
                slots@.len() == i,
                adj_list@.len() == i,
                forall|m: int| 0 <= m < i ==> #[trigger] slots@[m] == Some(all[m]),
                count_some(slots@) == i,
                forall|m: int| 0 <= m < i ==> (#[trigger] adj_list@[m])@.len() == 0,
                sum_lens(Seq::new(adj_list@.len(), |m: int| adj_list@[m]@)) == 0,
            decreases n - i,
        {
            let ghost old_slots = slots@;
            let ghost old_adj = adj_list@;
            let node = rest.remove(0);
            slots.push(Some(node));
            adj_list.push(Vec::new());
            proof {
                assert(slots@.drop_last() =~= old_slots);
                let av = Seq::new(adj_list@.len(), |m: int| adj_list@[m]@);
                assert(av.drop_last() =~= Seq::new(old_adj.len(), |m: int| old_adj[m]@));
                assert(rest@ =~= all.skip(i + 1));
            }
            i += 1;
        }
        let g = AdjListGraph { nodes: slots, adj_list, node_count: n, edge_count: 0 };
        proof {
            assert(g.adj_view() =~~= Seq::new(all.len(), |i: int| Seq::<E>::empty()));
        }
        g
    }

    /// Creates a graph from nodes and edges; every edge must start at a slot
    /// in range.
    pub fn from_edges(nodes: Vec<N>, edges: Vec<E>) -> (g: Self)
        requires
            forall|k: int|
                0 <= k < edges@.len() ==> 0 <= (#[trigger] edges@[k]).start_spec() < nodes@.len(),
            edges@.len() < usize::MAX,
        ensures
            g.inv(),
            g.nodes_view().len() == nodes@.len(),
            forall|i: int|
                0 <= i < nodes@.len() ==> #[trigger] g.nodes_view()[i] == Some(nodes@[i]),
            count_some(g.nodes_view()) == nodes@.len(),
            sum_lens(g.adj_view()) == edges@.len(),
            g.adj_view().len() == nodes@.len(),
            forall|i: int|
                0 <= i < g.adj_view().len() ==> #[trigger] g.adj_view()[i] == edges@.filter(edge_starts_at::<E>(i)),
    {
        let ghost nodes_seq = nodes@;
        let mut graph = AdjListGraph::from_nodes(nodes);
        let mut k: usize = 0;
        proof {
            reveal(Seq::filter);
            lemma_sum_lens_empty(graph.adj_view());
            assert forall|i: int| 0 <= i < graph.adj_view().len() implies #[trigger] graph.adj_view()[i] == edges@.subrange(0, 0).filter(edge_starts_at::<E>(i)) by {
                assert(edges@.subrange(0, 0) =~= Seq::<E>::empty());
                assert(Seq::<E>::empty().filter(edge_starts_at::<E>(i)) =~= Seq::<E>::empty());
            }
        }
        while k < edges.len()
            invariant
                k <= edges@.len(),
                edges@.len() < usize::MAX,
                graph.inv(),
                graph.nodes_view().len() == nodes_seq.len(),
                forall|i: int|
                    0 <= i < nodes_seq.len() ==> #[trigger] graph.nodes_view()[i] == Some(
                        nodes_seq[i],
                    ),
                count_some(graph.nodes_view()) == nodes_seq.len(),
                graph.adj_view().len() == nodes_seq.len(),
                sum_lens(graph.adj_view()) == k,
                forall|e_k: int|
                    0 <= e_k < edges@.len() ==> 0 <= (#[trigger] edges@[e_k]).start_spec()
                        < nodes_seq.len(),
                forall|i: int|
                    0 <= i < graph.adj_view().len() ==> #[trigger] graph.adj_view()[i]
                        == edges@.subrange(0, k as int).filter(edge_starts_at::<E>(i)),
            decreases edges@.len() - k,
        {
            let ghost before = graph.adj_view();
            let e = edges[k];
            graph.add_edge(e);
            proof {
                reveal(Seq::filter);
                lemma_sum_lens_update(
                    before,
                    e.start_spec(),
                    before[e.start_spec()].push(e),
                );
                assert forall|i: int| 0 <= i < graph.adj_view().len() implies #[trigger] graph.adj_view()[i] == edges@.subrange(0, k + 1).filter(edge_starts_at::<E>(i)) by {
                    let prev = edges@.subrange(0, k as int);
                    let cur = edges@.subrange(0, k + 1);
                    assert(before[i] == prev.filter(edge_starts_at::<E>(i)));
                    assert(cur =~= prev.push(e));
                    assert(cur.drop_last() =~= prev);
                    assert(cur.last() == e);
                    assert(edge_starts_at::<E>(i)(e) == (e.start_spec() == i));
                    if i == e.start_spec() {
                        assert(graph.adj_view()[i] == before[i].push(e));
                        assert(edge_starts_at::<E>(i)(cur.last()));
                        assert(cur.filter(edge_starts_at::<E>(i)) == cur.drop_last().filter(
                            edge_starts_at::<E>(i),
                        ).push(cur.last()));
                        assert(cur.filter(edge_starts_at::<E>(i)) == prev.filter(
                            edge_starts_at::<E>(i),
                        ).push(e));
                    } else {
                        assert(graph.adj_view()[i] == before[i]);
                        assert(!edge_starts_at::<E>(i)(cur.last()));
                        assert(cur.filter(edge_starts_at::<E>(i)) == cur.drop_last().filter(
                            edge_starts_at::<E>(i),
                        ));
                    }
                }
            }
            k += 1;
        }
        proof {
            assert forall|i: int| 0 <= i < graph.adj_view().len() implies #[trigger] graph.adj_view()[i] == edges@.filter(edge_starts_at::<E>(i)) by {
                assert(edges@.subrange(0, edges@.len() as int) =~= edges@);
            }
        }
        graph
    }
}

impl<N, E: Edge + Copy> Graph<N, E> for AdjListGraph<N, E> {
    /// The node stored at each slot, if any.
    closed spec fn nodes_view(&self) -> Seq<Option<N>> {
        self.nodes@
    }

    /// The edges leaving each slot, in insertion order.
    closed spec fn adj_view(&self) -> Seq<Seq<E>> {
        Seq::new(self.adj_list@.len(), |i: int| self.adj_list@[i]@)
    }

    /// Slots and rows line up, and the cached counts match the views.
    closed spec fn inv(&self) -> bool {
        &&& self.adj_list@.len() == self.nodes@.len()
        &&& self.node_count as nat == count_some(self.nodes@)
        &&& self.edge_count as nat == sum_lens(self.adj_view())
    }

    fn node_count(&self) -> (r: usize) {
        self.node_count
    }

    fn edge_count(&self) -> (r: usize) {
        self.edge_count
    }

    fn iter_edges(&self) -> (r: Vec<E>) {
        let mut out: Vec<E> = Vec::new();
        let mut i: usize = 0;
        while i < self.adj_list.len()
            invariant
                i <= self.adj_list@.len(),
                out@ == concat_upto(self.adj_view(), i as int),
            decreases self.adj_list@.len() - i,
        {
            let row = &self.adj_list[i];
            let mut j: usize = 0;
            while j < row.len()
                invariant
                    i < self.adj_list@.len(),
                    j <= row@.len(),
                    row@ == self.adj_view()[i as int],
                    out@ == concat_upto(self.adj_view(), i as int) + row@.subrange(0, j as int),
                decreases row@.len() - j,
            {
                out.push(row[j]);
                proof {
                    assert(row@.subrange(0, j + 1) =~= row@.subrange(0, j as int).push(
                        row@[j as int],
                    ));
                }
                j += 1;
            }
            proof {
                assert(row@.subrange(0, row@.len() as int) =~= row@);
                assert(out@ =~= concat_upto(self.adj_view(), i + 1));
            }
            i += 1;
        }
        out
    }

    fn get_node(&self, node_id: usize) -> (r: Option<&N>) {
        if self.node_exists(node_id) {
            self.nodes[node_id].as_ref()
        } else {
            None
        }
    }

    fn get_edge(&self, start: usize, to: usize) -> (r: Option<E>) {
        let row = &self.adj_list[start];
        let mut k: usize = 0;
        while k < row.len()
            invariant
                start < self.adj_list@.len(),
                k <= row@.len(),
                row@ == self.adj_view()[start as int],
                forall|m: int|
                    0 <= m < k ==> !edge_matches(#[trigger] row@[m], start as int, to as int),
            decreases row@.len() - k,
        {
            let e = row[k];
            if e.start() == start && e.to() == to {
                proof {
                    assert(row@[k as int] == e);
                    assert(edge_matches(e, start as int, to as int));
                }
                return Some(e);
            }
            proof {
                assert(!edge_matches(row@[k as int], start as int, to as int));
            }
            k += 1;
        }
        None
    }

    fn edges_from(&self, node_id: usize) -> (r: Vec<E>) {
        let mut out: Vec<E> = Vec::new();
        if !self.node_exists(node_id) {
            return out;
        }
        let row = &self.adj_list[node_id];
        let mut j: usize = 0;
        while j < row.len()
            invariant
                node_id < self.adj_list@.len(),
                j <= row@.len(),
                row@ == self.adj_view()[node_id as int],
                out@ == row@.subrange(0, j as int),
            decreases row@.len() - j,
        {
            out.push(row[j]);
            proof {
                assert(row@.subrange(0, j + 1) =~= row@.subrange(0, j as int).push(
                    row@[j as int],
                ));
            }
            j += 1;
        }
        proof {
            assert(out@ =~= row@);
        }
        out
    }

    fn add_node(&mut self, node_id: usize, node: N) -> (r: bool) {
        if self.node_exists(node_id) || node_id >= self.nodes.len() {
            false
        } else {
            proof {
                lemma_count_some_update(self.nodes@, node_id as int, Some(node));
                lemma_count_some_le(self.nodes@.update(node_id as int, Some(node)));
            }
            self.node_count = self.node_count + 1;
            self.nodes[node_id] = Some(node);
            proof {
                assert(final(self).adj_view() =~= old(self).adj_view());
            }
            true
        }
    }

    fn add_edge(&mut self, e: E) {
        let s = e.start();
        proof {
            lemma_sum_lens_bound(self.adj_view(), s as int);
            lemma_sum_lens_update(
                self.adj_view(),
                s as int,
                self.adj_view()[s as int].push(e),
            );
        }
        self.adj_list[s].push(e);
        self.edge_count = self.edge_count + 1;
        proof {
            assert(final(self).adj_view() =~= old(self).adj_view().update(
                e.start_spec(),
                old(self).adj_view()[e.start_spec()].push(e),
            ));
        }
    }

    fn remove_node(&mut self, node_id: usize) -> (r: bool) {
        if !self.node_exists(node_id) {
            return false;
        }
        proof {
            lemma_count_some_update(self.nodes@, node_id as int, None::<N>);
        }
        self.nodes[node_id] = None;
        self.node_count = self.node_count - 1;
        let ghost adj0 = self.adj_view();
        let mut removed_total: usize = 0;
        let mut i: usize = 0;
        while i < self.adj_list.len()
            invariant
                i <= self.adj_list@.len(),
                self.adj_list@.len() == adj0.len(),
                self.nodes@ == old(self).nodes@.update(node_id as int, None::<N>),
                self.node_count == old(self).node_count - 1,
                self.edge_count == old(self).edge_count,
                self.edge_count as nat == sum_lens(adj0),
                sum_lens(self.adj_view()) + removed_total == sum_lens(adj0),
                forall|m: int|
                    0 <= m < i ==> #[trigger] self.adj_view()[m] == adj0[m].filter(
                        edge_keeps::<E>(node_id as int),
                    ),
                forall|m: int| i <= m < adj0.len() ==> #[trigger] self.adj_view()[m] == adj0[m],
            decreases self.adj_list@.len() - i,
        {
            let row_len = self.adj_list[i].len();
            let mut out: Vec<E> = Vec::new();
            let mut j: usize = 0;
            proof {
                reveal(Seq::filter);
                assert(out@ == self.adj_list@[i as int]@.subrange(0, 0).filter(
                    edge_keeps::<E>(node_id as int),
                ));
            }
            while j < row_len
                invariant
                    i < self.adj_list@.len(),
                    row_len == self.adj_list@[i as int]@.len(),
                    self.adj_view()[i as int] == adj0[i as int],
                    j <= row_len,
                    out@ == self.adj_list@[i as int]@.subrange(0, j as int).filter(
                        edge_keeps::<E>(node_id as int),
                    ),
                    out@.len() <= j,
                decreases row_len - j,
            {
                let e = self.adj_list[i][j];
                proof {
                    reveal(Seq::filter);
                    let rowv = self.adj_list@[i as int]@;
                    assert(rowv.subrange(0, j + 1) =~= rowv.subrange(0, j as int).push(rowv[j as int]));
                    assert(rowv.subrange(0, j + 1).drop_last() =~= rowv.subrange(0, j as int));
                    assert(rowv.subrange(0, j + 1).last() == rowv[j as int]);
                    assert(edge_keeps::<E>(node_id as int)(e) == (e.start_spec() != node_id as int
                        && e.to_spec() != node_id as int));
                    if edge_keeps::<E>(node_id as int)(e) {
                        assert(rowv.subrange(0, j + 1).filter(edge_keeps::<E>(node_id as int))
                            == rowv.subrange(0, j as int).filter(
                            edge_keeps::<E>(node_id as int),
                        ).push(e));
                    } else {
                        assert(rowv.subrange(0, j + 1).filter(edge_keeps::<E>(node_id as int))
                            == rowv.subrange(0, j as int).filter(edge_keeps::<E>(node_id as int)));
                    }
                }
                if e.start() != node_id && e.to() != node_id {
                    out.push(e);
                }
                j += 1;
            }
            let kept = out.len();
            let ghost before = self.adj_view();
            proof {
                assert(self.adj_list@[i as int]@.subrange(0, row_len as int) =~= self.adj_list@[i as int]@);
                lemma_sum_lens_update(before, i as int, out@);
                lemma_sum_lens_bound(before, i as int);
            }
            self.adj_list[i] = out;
            proof {
                assert(self.adj_view() =~= before.update(i as int, adj0[i as int].filter(
                    edge_keeps::<E>(node_id as int),
                )));
            }
            removed_total = removed_total + (row_len - kept);
            i += 1;
        }
        self.edge_count = self.edge_count - removed_total;
        proof {
            assert(final(self).nodes_view() =~= old(self).nodes_view().update(
                node_id as int,
                None::<N>,
            ));
        }
        true
    }

    fn remove_edge(&mut self, start: usize, to: usize) -> (r: bool) {
        let row_len = self.adj_list[start].len();
        let ghost row = self.adj_view()[start as int];
        let mut pos: usize = row_len;
        let mut k: usize = 0;
        while k < row_len && pos == row_len
            invariant
                start < self.adj_list@.len(),
                row == self.adj_view()[start as int],
                row_len == row.len(),
                k <= row_len,
                pos == row_len || (pos < row_len && edge_matches(
                    row[pos as int],
                    start as int,
                    to as int,
                ) && (forall|m: int|
                    0 <= m < pos ==> !edge_matches(#[trigger] row[m], start as int, to as int))),
                pos == row_len ==> forall|m: int|
                    0 <= m < k ==> !edge_matches(#[trigger] row[m], start as int, to as int),
            decreases row_len - k,
        {
            let e = self.adj_list[start][k];
            proof {
                assert(row[k as int] == e);
            }
            if e.start() == start && e.to() == to {
                pos = k;
            }
            k += 1;
        }
        if pos < row_len {
            proof {
                lemma_sum_lens_bound(self.adj_view(), start as int);
                lemma_sum_lens_update(
                    self.adj_view(),
                    start as int,
                    row.remove(pos as int),
                );
            }
            self.adj_list[start].remove(pos);
            self.edge_count = self.edge_count - 1;
            proof {
                assert(final(self).adj_view() =~= old(self).adj_view().update(
                    start as int,
                    row.remove(pos as int),
                ));
            }
            true
        } else {
            false
        }
    }
}

} // verus!
