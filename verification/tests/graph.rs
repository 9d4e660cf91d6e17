use complib_rs::graph::adjacency_list::AdjListGraph;
use complib_rs::graph::shortest_path::dijkstra;
use complib_rs::graph::Graph;

fn setup_graph() -> AdjListGraph<usize, (usize, usize, i32)> {
    let graph = AdjListGraph::from_edges(
        (0..5).collect(),
        vec![
            (0, 1, 1),
            (0, 4, 4),
            (1, 3, 2),
            (1, 4, 3),
            (2, 1, 1),
            (2, 3, 1),
            (3, 4, 1),
        ],
    );
    assert_eq!(graph.node_count(), 5);
    assert_eq!(graph.edge_count(), 7);
    graph
}

#[test]
fn test_iter_edges() {
    let graph = setup_graph();
    let v = graph.iter_edges();
    assert_eq!(
        v,
        vec![
            (0, 1, 1),
            (0, 4, 4),
            (1, 3, 2),
            (1, 4, 3),
            (2, 1, 1),
            (2, 3, 1),
            (3, 4, 1),
        ]
    );
}

#[test]
fn test_get_node() {
    let graph = setup_graph();
    assert_eq!(graph.get_node(0), Some(&0));
    assert_eq!(graph.get_node(10), None);
}

#[test]
fn test_get_edge() {
    let graph = setup_graph();
    assert_eq!(graph.get_edge(0, 1), Some((0, 1, 1)));
    assert_eq!(graph.get_edge(1, 0), None);
    assert_eq!(graph.get_edge(0, 4), Some((0, 4, 4)));
}

#[test]
fn test_edges_from() {
    let graph = setup_graph();
    assert_eq!(graph.edges_from(0), vec![(0, 1, 1), (0, 4, 4)]);
    assert_eq!(graph.edges_from(1), vec![(1, 3, 2), (1, 4, 3)]);
    assert_eq!(graph.edges_from(2), vec![(2, 1, 1), (2, 3, 1)]);
    assert_eq!(graph.edges_from(3), vec![(3, 4, 1)]);
    assert_eq!(graph.edges_from(4), Vec::<(usize, usize, i32)>::new());
}

#[test]
fn test_remove_node() {
    let mut graph = setup_graph();
    assert_eq!(graph.remove_node(1), true);
    assert_eq!(graph.node_count(), 4);
    assert_eq!(graph.edge_count(), 3);
    let v = graph.iter_edges();
    assert_eq!(v, vec![(0, 4, 4), (2, 3, 1), (3, 4, 1)]);
    assert_eq!(graph.remove_node(1), false);
}

#[test]
fn test_remove_edge() {
    let mut graph = setup_graph();
    assert_eq!(graph.remove_edge(0, 1), true);
    assert_eq!(graph.edge_count(), 6);
    assert_eq!(graph.get_edge(0, 1), None);
}

fn setup_weighted_graph() -> AdjListGraph<usize, (usize, usize, usize)> {
    let mut graph = AdjListGraph::new(10);
    assert_eq!(graph.node_count(), 0);
    assert_eq!(graph.edge_count(), 0);
    for i in 0..5 {
        assert_eq!(graph.add_node(i, i), true);
    }
    assert_eq!(graph.node_count(), 5);
    graph.add_edge((0, 1, 1));
    graph.add_edge((0, 2, 10));
    graph.add_edge((1, 3, 2));
    graph.add_edge((2, 1, 1));
    graph.add_edge((2, 3, 3));
    graph.add_edge((2, 4, 1));
    graph.add_edge((3, 0, 7));
    graph.add_edge((3, 4, 2));
    assert_eq!(graph.edge_count(), 8);
    graph
}

#[test]
fn test_dijkstra() {
    let graph = setup_weighted_graph();
    let inf: usize = usize::MAX;
    let result = dijkstra(&graph, 0, None, 0, inf);
    assert_eq!(result.costs, vec![0, 1, 10, 3, 5]);
    assert_eq!(result.build_path(0), vec![0]);
    assert_eq!(result.build_path(1), vec![0, 1]);
    assert_eq!(result.build_path(2), vec![0, 2]);
    assert_eq!(result.build_path(3), vec![0, 1, 3]);
    assert_eq!(result.build_path(4), vec![0, 1, 3, 4]);
    let result = dijkstra(&graph, 2, None, 0, inf);
    assert_eq!(result.costs, vec![10, 1, 0, 3, 1]);
    assert_eq!(result.build_path(1), vec![2, 1]);
    assert_eq!(result.build_path(2), vec![2]);
    assert_eq!(result.build_path(4), vec![2, 4]);
}

#[test]
fn test_dijkstra_with_goal() {
    let graph = setup_weighted_graph();
    let inf: usize = usize::MAX;
    let result = dijkstra(&graph, 0, Some(3), 0, inf);
    assert_eq!(result.costs[3], 3);
    assert_eq!(result.build_path(3), vec![0, 1, 3]);
}
