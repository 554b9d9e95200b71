use gapbs::graph::CSRGraph;
use gapbs::graphmodels::arena::{CustomIndex, Graph};
use gapbs::ops::{op_for_roll, ops, Op};
use gapbs::sssp::{delta_step, K_DIST_INF};
use gapbs::types::{AsNode, EdgeList};

fn weighted() -> Graph<usize> {
    let edges: EdgeList = vec![
        (0, 1, Some(4)),
        (0, 2, Some(1)),
        (2, 1, Some(2)),
        (1, 3, Some(1)),
        (2, 3, Some(5)),
    ];
    <Graph<usize> as CSRGraph<CustomIndex, CustomIndex>>::build_directed(5, &edges)
}

#[test]
fn arena_graph_keeps_vertices_in_slot_order() {
    let g = weighted();
    assert_eq!(g.num_nodes(), 5);
    let ids: Vec<usize> = g.vertices().iter().map(|v| v.as_node()).collect();
    assert_eq!(ids, vec![0, 1, 2, 3, 4]);
    let mut outs: Vec<usize> = g.out_neigh(0).iter().map(|v| v.as_node()).collect();
    outs.sort();
    assert_eq!(outs, vec![1, 2]);
    assert_eq!(g.in_degree(1), 2);
    assert_eq!(g.num_edges(), 5);
    assert_eq!(g.num_edges_directed(), 5);
}

#[test]
fn sssp_on_arena_graph() {
    let g = weighted();
    assert_eq!(delta_step(&g, 0, 1), vec![0, 3, 1, 4, K_DIST_INF]);
}

#[test]
fn edges_with_other_weights_are_other_edges() {
    let edges: EdgeList = vec![(0, 1, Some(1)), (0, 1, Some(2)), (0, 1, Some(1))];
    let g = <Graph<usize> as CSRGraph<CustomIndex, CustomIndex>>::build_directed(2, &edges);
    assert_eq!(g.out_degree(0), 2);
    assert_eq!(g.num_edges(), 2);
}

#[test]
fn vertex_and_edge_operations() {
    let edges: EdgeList = vec![(0, 1, None), (1, 2, Some(3))];
    let mut g = <Graph<usize> as CSRGraph<CustomIndex, CustomIndex>>::build_undirected(3, &edges);
    assert_eq!(g.num_edges_directed(), 4);
    assert_eq!(g.out_degree(1), 2);
    // only the edge without weight is removed
    g.op_delete_edge(1, 2);
    assert_eq!(g.out_degree(1), 2);
    g.op_delete_edge(1, 0);
    assert_eq!(g.out_degree(1), 1);
    g.op_add_edge(1, 0);
    assert_eq!(g.out_degree(1), 2);
    g.op_add_vertex(7);
    assert_eq!(g.num_nodes(), 4);
    assert!(g.find_vertex(7).is_some());
    g.op_delete_vertex(7);
    assert_eq!(g.num_nodes(), 3);
    // the cache keeps the removed vertex's index
    assert!(g.find_vertex(7).is_some());
    g.op_delete_vertex(7);
    assert_eq!(g.num_nodes(), 3);
    g.op_find_vertex(2);
}

#[test]
fn rolls_pick_the_operation_mix() {
    assert!(op_for_roll(1) == Op::AddVertex);
    assert!(op_for_roll(40) == Op::AddVertex);
    assert!(op_for_roll(41) == Op::DeleteVertex);
    assert!(op_for_roll(85) == Op::AddEdge);
    assert!(op_for_roll(99) == Op::DeleteEdge);
    assert!(op_for_roll(0) == Op::FindVertex);
}

#[test]
fn thousand_random_operations() {
    let mut g = <Graph<usize> as CSRGraph<CustomIndex, CustomIndex>>::build_directed(1200, &vec![]);
    ops(&mut g);
    let n = g.num_nodes();
    assert!(200 <= n && n <= 2200);
}
