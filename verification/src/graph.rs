//! A small directed-graph toolkit: edge traits, a graph interface, an
//! adjacency-list implementation and a shortest-path routine.

pub mod adjacency_list;
pub mod edge_impl;
pub mod shortest_path;

use vstd::prelude::*;

verus! {

/// A directed edge: where it starts and where it points.
pub trait Edge: Sized {
    /// The start vertex, as specifications see it.
    spec fn start_spec(&self) -> int;

    /// The target vertex, as specifications see it.
    spec fn to_spec(&self) -> int;

    /// The start vertex.
    fn start(&self) -> (r: usize)
        ensures
            r as int == self.start_spec(),
    ;

    /// The target vertex.
    fn to(&self) -> (r: usize)
        ensures
            r as int == self.to_spec(),
    ;
}

/// A directed edge carrying a weight.
pub trait WeightedEdge<T>: Edge {
    /// The weight, as specifications see it.
    spec fn weight_spec(&self) -> T;

    /// The weight.
    fn weight(&self) -> (r: T)
        ensures
            r == self.weight_spec(),
    ;
}

/// How many slots hold a node.
pub open spec fn count_some<N>(s: Seq<Option<N>>) -> nat
    decreases s.len(),
{
    if s.len() == 0 {
        0
    } else {
        count_some(s.drop_last()) + (if s.last() is Some {
            1nat
        } else {
            0nat
        })
    }
}

/// The total number of edges over all adjacency rows.
pub open spec fn sum_lens<E>(s: Seq<Seq<E>>) -> nat
    decreases s.len(),
{
    if s.len() == 0 {
        0
    } else {
        sum_lens(s.drop_last()) + s.last().len()
    }
}

/// The concatenation of the first `k` rows.
pub open spec fn concat_upto<E>(s: Seq<Seq<E>>, k: int) -> Seq<E>
    decreases k,
{
    if k <= 0 {
        Seq::empty()
    } else {
        concat_upto(s, k - 1) + s[k - 1]
    }
}

/// Replacing one slot changes the node count by what left and what arrived.
pub proof fn lemma_count_some_update<N>(s: Seq<Option<N>>, i: int, v: Option<N>)
    requires
        0 <= i < s.len(),
    ensures
        count_some(s.update(i, v)) == count_some(s) + (if v is Some {
            1int
        } else {
            0int
        }) - (if s[i] is Some {
            1int
        } else {
            0int
        }),
    decreases s.len(),
{
    let s2 = s.update(i, v);
    if i == s.len() - 1 {
        assert(s2.drop_last() =~= s.drop_last());
    } else {
        assert(s2.drop_last() =~= s.drop_last().update(i, v));
        lemma_count_some_update(s.drop_last(), i, v);
    }
}

/// The node count never exceeds the number of slots.
pub proof fn lemma_count_some_le<N>(s: Seq<Option<N>>)
    ensures
        count_some(s) <= s.len(),
    decreases s.len(),
{
    if s.len() > 0 {
        lemma_count_some_le(s.drop_last());
    }
}

/// Replacing one row changes the edge total by the difference in row lengths.
pub proof fn lemma_sum_lens_update<E>(s: Seq<Seq<E>>, i: int, row: Seq<E>)
    requires
        0 <= i < s.len(),
    ensures
        sum_lens(s.update(i, row)) == sum_lens(s) + row.len() - s[i].len(),
    decreases s.len(),
{
    let s2 = s.update(i, row);
    if i == s.len() - 1 {
        assert(s2.drop_last() =~= s.drop_last());
    } else {
        assert(s2.drop_last() =~= s.drop_last().update(i, row));
        lemma_sum_lens_update(s.drop_last(), i, row);
    }
}

/// Every row's length is bounded by the edge total.
pub proof fn lemma_sum_lens_bound<E>(s: Seq<Seq<E>>, i: int)
    requires
        0 <= i < s.len(),
    ensures
        s[i].len() <= sum_lens(s),
    decreases s.len(),
{
    if i < s.len() - 1 {
        lemma_sum_lens_bound(s.drop_last(), i);
    }
}

/// Rows that are all empty total zero edges.
pub proof fn lemma_sum_lens_empty<E>(s: Seq<Seq<E>>)
    requires
        forall|i: int| 0 <= i < s.len() ==> (#[trigger] s[i]).len() == 0,
    ensures
        sum_lens(s) == 0,
    decreases s.len(),
{
    if s.len() > 0 {
        lemma_sum_lens_empty(s.drop_last());
    }
}

/// Keeps the edges not incident to `node_id`: what survives removing a node.
pub open spec fn edge_keeps<E: Edge>(node_id: int) -> spec_fn(E) -> bool {
    |e: E| e.start_spec() != node_id && e.to_spec() != node_id
}

/// `e` runs from `start` to `to`.
pub open spec fn edge_matches<E: Edge>(e: E, start: int, to: int) -> bool {
    e.start_spec() == start && e.to_spec() == to
}

/// Picks out the edges that start at slot `i`.
pub open spec fn edge_starts_at<E: Edge>(i: int) -> spec_fn(E) -> bool {
    |e: E| e.start_spec() == i
}

/// A directed graph over node slots: nodes may be present or absent, and each
/// slot owns the list of edges leaving it, in insertion order.
pub trait Graph<N, E: Edge + Copy>: Sized {
    /// The node stored at each slot, if any.
    spec fn nodes_view(&self) -> Seq<Option<N>>;

    /// The edges leaving each slot, in insertion order.
    spec fn adj_view(&self) -> Seq<Seq<E>>;

    /// The implementation's internal invariant.
    spec fn inv(&self) -> bool;

    /// The number of nodes present.
    fn node_count(&self) -> (r: usize)
        requires
            self.inv(),
        ensures
            r as nat == count_some(self.nodes_view()),
    ;

    /// The number of edges.
    fn edge_count(&self) -> (r: usize)
        requires
            self.inv(),
        ensures
            r as nat == sum_lens(self.adj_view()),
    ;

    /// All edges, slot by slot, each in insertion order.
    fn iter_edges(&self) -> (r: Vec<E>)
        requires
            self.inv(),
        ensures
            r@ == concat_upto(self.adj_view(), self.adj_view().len() as int),
    ;

    /// The node at `node_id`, if the slot exists and holds one.
    fn get_node(&self, node_id: usize) -> (r: Option<&N>)
        requires
            self.inv(),
        ensures
            match r {
                Some(node) => node_id < self.nodes_view().len() && self.nodes_view()[node_id as int] == Some(*node),
                None => !(node_id < self.nodes_view().len() && self.nodes_view()[node_id as int] is Some),
            },
    ;

    /// An edge from `start` to `to`, if one exists.
    fn get_edge(&self, start: usize, to: usize) -> (r: Option<E>)
        requires
            self.inv(),
            start < self.adj_view().len(),
        ensures
            match r {
                Some(e) => exists|k: int|
                    0 <= k < self.adj_view()[start as int].len() && (#[trigger] self.adj_view()[start as int][k]) == e && edge_matches(e, start as int, to as int) && (forall|m: int|
                        0 <= m < k ==> !edge_matches(
                            #[trigger] self.adj_view()[start as int][m],
                            start as int,
                            to as int,
                        )),
                None => forall|k: int|
                    0 <= k < self.adj_view()[start as int].len() ==> !edge_matches(
                        #[trigger] self.adj_view()[start as int][k],
                        start as int,
                        to as int,
                    ),
            },
    ;

    /// The edges leaving `node_id`, or nothing when the node is absent.
    fn edges_from(&self, node_id: usize) -> (r: Vec<E>)
        requires
            self.inv(),
        ensures
            (if node_id < self.nodes_view().len() && self.nodes_view()[node_id as int] is Some {
                node_id < self.adj_view().len() && r@ == self.adj_view()[node_id as int]
            } else {
                r@ == Seq::<E>::empty()
            }),
    ;

    /// Stores a node at a free slot in range; reports whether it was stored.
    fn add_node(&mut self, node_id: usize, node: N) -> (r: bool)
        requires
            old(self).inv(),
        ensures
            final(self).inv(),
            r == (node_id < old(self).nodes_view().len() && !(old(self).nodes_view()[node_id as int] is Some)),
            r ==> final(self).nodes_view() == old(self).nodes_view().update(
                node_id as int,
                Some(node),
            ) && final(self).adj_view() == old(self).adj_view(),
            !r ==> final(self).nodes_view() == old(self).nodes_view() && final(self).adj_view()
                == old(self).adj_view(),
    ;

    /// Appends an edge to its start slot's list.
    fn add_edge(&mut self, e: E)
        requires
            old(self).inv(),
            0 <= e.start_spec() < old(self).adj_view().len(),
            sum_lens(old(self).adj_view()) < usize::MAX,
        ensures
            final(self).inv(),
            final(self).nodes_view() == old(self).nodes_view(),
            final(self).adj_view() == old(self).adj_view().update(
                e.start_spec(),
                old(self).adj_view()[e.start_spec()].push(e),
            ),
    ;

    /// Removes a node and every edge incident to it; reports whether the node
    /// was present.
    fn remove_node(&mut self, node_id: usize) -> (r: bool)
        requires
            old(self).inv(),
        ensures
            final(self).inv(),
            r == (node_id < old(self).nodes_view().len() && old(self).nodes_view()[node_id as int] is Some),
            !r ==> final(self).nodes_view() == old(self).nodes_view() && final(self).adj_view()
                == old(self).adj_view(),
            r ==> final(self).nodes_view() == old(self).nodes_view().update(
                node_id as int,
                None,
            ),
            r ==> final(self).adj_view().len() == old(self).adj_view().len(),
            r ==> forall|i: int|
                0 <= i < old(self).adj_view().len() ==> #[trigger] final(self).adj_view()[i] == old(
                    self,
                ).adj_view()[i].filter(edge_keeps::<E>(node_id as int)),
    ;

    /// Removes one edge from `start` to `to`; reports whether one existed.
    fn remove_edge(&mut self, start: usize, to: usize) -> (r: bool)
        requires
            old(self).inv(),
            start < old(self).adj_view().len(),
        ensures
            final(self).inv(),
            final(self).nodes_view() == old(self).nodes_view(),
            !r ==> final(self).adj_view() == old(self).adj_view() && (forall|k: int|
                0 <= k < old(self).adj_view()[start as int].len() ==> !edge_matches(
                    #[trigger] old(self).adj_view()[start as int][k],
                    start as int,
                    to as int,
                )),
            r ==> exists|k: int|
                0 <= k < old(self).adj_view()[start as int].len() && edge_matches(
                    #[trigger] old(self).adj_view()[start as int][k],
                    start as int,
                    to as int,
                ) && (forall|m: int|
                    0 <= m < k ==> !edge_matches(
                        #[trigger] old(self).adj_view()[start as int][m],
                        start as int,
                        to as int,
                    )) && final(self).adj_view() == old(self).adj_view().update(
                    start as int,
                    old(self).adj_view()[start as int].remove(k),
                ),
    ;
}

} // verus!
