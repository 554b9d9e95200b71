use gapbs::bfs::{BfsState, VisitStatus};
use gapbs::cc::{afforest, compress, count_occurrences, identity_labels, link, most_frequent, verify_labels};
use gapbs::graph::CSRGraph;
use gapbs::graphmodels::arc;
use gapbs::graphmodels::gc;
use gapbs::graphmodels::rc;
use gapbs::sssp::{delta_step, K_DIST_INF};
use gapbs::tc::{ordered_count, ordered_count_vertex, worth_relabelling};
use gapbs::types::EdgeList;

fn weighted_edges() -> EdgeList {
    vec![
        (0, 1, Some(4)),
        (0, 2, Some(1)),
        (2, 1, Some(2)),
        (1, 3, Some(1)),
        (2, 3, Some(5)),
    ]
}

#[test]
fn sssp_finds_shortest_distances() {
    let g: arc::Graph<usize> =
        <arc::Graph<usize> as CSRGraph<arc::WrappedNode, arc::WrappedNode>>::build_directed(5, &weighted_edges());
    let dist = delta_step(&g, 0, 1);
    assert_eq!(dist, vec![0, 3, 1, 4, K_DIST_INF]);
}

#[test]
fn sssp_result_does_not_depend_on_delta() {
    let g: arc::Graph<usize> =
        <arc::Graph<usize> as CSRGraph<arc::WrappedNode, arc::WrappedNode>>::build_directed(5, &weighted_edges());
    for delta in [1, 2, 3, 100] {
        assert_eq!(delta_step(&g, 0, delta), vec![0, 3, 1, 4, K_DIST_INF]);
    }
    assert_eq!(delta_step(&g, 2, 2), vec![K_DIST_INF, 2, 0, 3, K_DIST_INF]);
}

#[test]
fn sssp_on_traced_model_uses_vertex_weights() {
    // the traced model keeps a weight on the vertex an edge leads to
    let edges: EdgeList = vec![(0, 1, Some(5)), (1, 2, Some(2))];
    let g: gc::Graph<usize> =
        <gc::Graph<usize> as CSRGraph<gc::WrappedNode, gc::WrappedNode>>::build_directed(3, &edges);
    assert_eq!(delta_step(&g, 0, 1), vec![0, 2, 4]);
}

fn path_graph() -> rc::Graph<usize> {
    let edges: EdgeList = vec![(0, 1, None), (1, 2, None), (0, 3, None), (4, 5, None)];
    <rc::Graph<usize> as CSRGraph<rc::WrappedNode, rc::WrappedNode>>::build_directed(6, &edges)
}

#[test]
fn model_bfs_counts_reachable_vertices() {
    let g = path_graph();
    assert_eq!(g.bfs(0, None), 4);
    assert_eq!(g.bfs(4, None), 2);
    assert_eq!(g.bfs(2, None), 1);
    // a goal that no edge leads to leaves the whole count
    assert_eq!(g.bfs(0, Some(5)), 4);
    let stopped = g.bfs(0, Some(2));
    assert!(1 <= stopped && stopped <= 4);
}

#[test]
fn shared_and_traced_models_agree_on_bfs() {
    let edges: EdgeList = vec![(0, 1, Some(1)), (1, 2, Some(1)), (3, 0, Some(1))];
    let a: arc::Graph<usize> =
        <arc::Graph<usize> as CSRGraph<arc::WrappedNode, arc::WrappedNode>>::build_directed(4, &edges);
    let t: gc::Graph<usize> =
        <gc::Graph<usize> as CSRGraph<gc::WrappedNode, gc::WrappedNode>>::build_directed(4, &edges);
    assert_eq!(a.bfs(0, None), 3);
    assert_eq!(t.bfs(3, None), 4);
}

#[test]
fn models_refuse_self_edges_and_count_edges() {
    let edges: EdgeList = vec![(0, 1, None), (1, 1, None), (0, 1, None), (1, 0, None)];
    let r: rc::Graph<usize> =
        <rc::Graph<usize> as CSRGraph<rc::WrappedNode, rc::WrappedNode>>::build_directed(2, &edges);
    assert_eq!(r.num_edges(), 2);
    assert_eq!(r.out_degree(1), 1);
    assert_eq!(r.num_edges_directed(), 2);
    let a: arc::Graph<usize> =
        <arc::Graph<usize> as CSRGraph<arc::WrappedNode, arc::WrappedNode>>::build_directed(2, &edges);
    // the shared model counts every added edge
    assert_eq!(a.num_edges_directed(), 4);
    assert_eq!(a.num_edges(), 0);
    let ids: Vec<usize> = a.out_neigh(0).iter().map(|e| e.node_id).collect();
    assert_eq!(ids, vec![1]);
}

#[test]
fn undirected_build_mirrors_edges() {
    let edges: EdgeList = vec![(0, 2, None), (1, 2, None)];
    let g: rc::Graph<usize> =
        <rc::Graph<usize> as CSRGraph<rc::WrappedNode, rc::WrappedNode>>::build_undirected(3, &edges);
    assert!(!g.directed());
    let ids: Vec<usize> = g.out_neigh(2).iter().map(|e| e.node_id).collect();
    assert_eq!(ids, vec![0, 1]);
}

#[test]
fn direction_optimizing_bfs_reaches_from_source() {
    // few edges leave the source compared with the whole graph, so the
    // search stays top-down
    let mut edges: EdgeList = vec![(0, 1, None)];
    for i in 0..30 {
        edges.push((10 + i, 11 + i, None));
    }
    let g: rc::Graph<usize> =
        <rc::Graph<usize> as CSRGraph<rc::WrappedNode, rc::WrappedNode>>::build_directed(41, &edges);
    let mut state = BfsState::new(&g, 0);
    let mut rounds = 0;
    while !state.done() {
        state.step(&g);
        rounds += 1;
        assert!(rounds < 10);
    }
    assert!(matches!(state.parent[0], VisitStatus::Positive(0)));
    assert!(matches!(state.parent[1], VisitStatus::Positive(0)));
}

fn triangle_graph() -> rc::Graph<usize> {
    // two triangles sharing the edge 1-2, plus a pendant vertex
    let edges: EdgeList = vec![
        (0, 1, None),
        (0, 2, None),
        (1, 2, None),
        (1, 3, None),
        (2, 3, None),
        (3, 4, None),
    ];
    <rc::Graph<usize> as CSRGraph<rc::WrappedNode, rc::WrappedNode>>::build_undirected(5, &edges)
}

#[test]
fn triangles_are_counted_once() {
    let g = triangle_graph();
    assert_eq!(ordered_count(&g), 2);
    assert_eq!(ordered_count_vertex(&g, 0), 0);
    assert!(!worth_relabelling(&g));
}

#[test]
fn afforest_labels_components() {
    let edges: EdgeList = vec![(0, 1, None), (1, 2, None), (3, 4, None)];
    let g: rc::Graph<usize> =
        <rc::Graph<usize> as CSRGraph<rc::WrappedNode, rc::WrappedNode>>::build_undirected(6, &edges);
    let comp = afforest(&g, None);
    assert_eq!(comp.len(), 6);
    assert_eq!(comp[0], comp[1]);
    assert_eq!(comp[1], comp[2]);
    assert_eq!(comp[3], comp[4]);
    assert_ne!(comp[0], comp[3]);
    assert_ne!(comp[5], comp[0]);
    assert_ne!(comp[5], comp[3]);
}

#[test]
fn link_and_compress_join_roots() {
    let g = path_graph();
    let mut comp = identity_labels(6);
    link(0, 1, &mut comp);
    link(2, 1, &mut comp);
    compress(&g, &mut comp);
    assert_eq!(comp[0], comp[1]);
    assert_eq!(comp[2], comp[1]);
    assert_eq!(comp[3], 3);
}

#[test]
fn most_frequent_sample_wins() {
    let samples = vec![3, 1, 3, 2, 3, 1];
    assert_eq!(most_frequent(&samples), 3);
    assert_eq!(count_occurrences(&samples, 1), 2);
    assert_eq!(count_occurrences(&samples, 9), 0);
}

#[test]
fn labelling_check_accepts_components_only() {
    let edges: EdgeList = vec![(0, 1, None), (1, 2, None), (3, 4, None)];
    let g: rc::Graph<usize> =
        <rc::Graph<usize> as CSRGraph<rc::WrappedNode, rc::WrappedNode>>::build_undirected(6, &edges);
    let comp = afforest(&g, None);
    assert!(verify_labels(&g, &comp));
    assert!(verify_labels(&g, &vec![7, 7, 7, 1, 1, 9]));
    // one label for two components
    assert!(!verify_labels(&g, &vec![7, 7, 7, 7, 7, 9]));
    // a component split in two labels
    assert!(!verify_labels(&g, &vec![7, 7, 8, 1, 1, 9]));
}

#[test]
fn labelling_check_follows_in_edges_of_directed_graphs() {
    let edges: EdgeList = vec![(1, 0, None), (2, 1, None)];
    let g: rc::Graph<usize> =
        <rc::Graph<usize> as CSRGraph<rc::WrappedNode, rc::WrappedNode>>::build_directed(3, &edges);
    assert!(verify_labels(&g, &vec![5, 5, 5]));
    assert!(!verify_labels(&g, &vec![5, 6, 5]));
}
