use gapbs::benchmark::SourcePicker;
use gapbs::bfs::{bu_step, do_bfs, init_parent, td_step, BfsState, VisitStatus};
use gapbs::builder::BuilderBase;
use gapbs::cc::{afforest, afforest_link_vertex, compress, identity_labels, link};
use gapbs::graph::CSRGraph;
use gapbs::graphmodels::arc;
use gapbs::graphmodels::arena;
use gapbs::graphmodels::rc;
use gapbs::slidingqueue::SlidingQueue;
use gapbs::sssp::delta_step;
use gapbs::sssp_parts::{apply_proposals, delta_step_rounds, next_bin, relax_vertex};
use gapbs::timer::ScopedTimer;
use gapbs::tc::ordered_count;
use gapbs::types::{AsNode, EdgeList, WeightedEdge};

fn rc_directed(n: usize, edges: &EdgeList) -> rc::Graph<usize> {
    <rc::Graph<usize> as CSRGraph<rc::WrappedNode, rc::WrappedNode>>::build_directed(n, edges)
}

fn out_ids<V: AsNode, E: AsNode, G: CSRGraph<V, E>>(g: &G, v: usize) -> Vec<usize> {
    let mut r: Vec<usize> = g.out_neigh(v).iter().map(|e| e.as_node()).collect();
    r.sort();
    r
}

fn as_numbers(p: &[VisitStatus]) -> Vec<(bool, usize)> {
    p.iter()
        .map(|s| match s {
            VisitStatus::Negative(d) => (false, *d),
            VisitStatus::Positive(u) => (true, *u),
        })
        .collect()
}

#[test]
fn init_parent_records_out_degrees() {
    let g = rc_directed(3, &vec![(0, 1, None), (0, 2, None)]);
    let p = init_parent(&g);
    assert_eq!(p.len(), 30);
    assert_eq!(as_numbers(&p[0..3]), vec![(false, 2), (false, 1), (false, 1)]);
    assert!(p[3..].iter().all(|s| matches!(s, VisitStatus::Negative(1))));
}

#[test]
fn top_down_step_overwrites_parent_entries() {
    // vertex 2 is unvisited with degree 5 and must keep that entry
    let g = rc_directed(3, &vec![(0, 1, None)]);
    let mut parent = vec![VisitStatus::Positive(0), VisitStatus::Negative(3), VisitStatus::Negative(5)];
    let mut queue: SlidingQueue<usize> = SlidingQueue::new();
    queue.push_back(0);
    queue.slide_window();
    let scout = td_step(&g, &mut parent, &mut queue);
    assert_eq!(scout, 3);
    assert_eq!(parent.len(), 3);
    assert_eq!(as_numbers(&parent), vec![(true, 0), (true, 0), (false, 5)]);
}

#[test]
fn bottom_up_step_gives_the_woken_vertex_its_parent() {
    let g = rc_directed(3, &vec![(0, 1, None), (1, 2, None)]);
    let mut parent = vec![VisitStatus::Positive(0), VisitStatus::Negative(1), VisitStatus::Negative(1)];
    let mut front = bit_vec::BitVec::from_elem(3, false);
    front.set(0, true);
    let mut next = bit_vec::BitVec::from_elem(3, false);
    let awake = bu_step(&g, &mut parent, &mut front, &mut next);
    assert_eq!(awake, 1);
    assert_eq!(as_numbers(&parent), vec![(true, 0), (true, 0), (false, 1)]);
    assert_eq!(next.get(1), Some(true));
    assert_eq!(next.get(2), Some(false));
}

#[test]
fn search_visits_exactly_the_reachable_vertices() {
    // enough edges elsewhere that the search stays top-down
    let mut edges: EdgeList = vec![(0, 1, None), (1, 2, None), (0, 3, None), (4, 5, None)];
    for i in 0..30 {
        edges.push((10 + i, 11 + i, None));
    }
    let g = rc_directed(41, &edges);
    let mut state = BfsState::new(&g, 0);
    let mut rounds = 0;
    while !state.done() {
        state.step(&g);
        rounds += 1;
        assert!(rounds < 20);
    }
    let visited: Vec<bool> = state.parent[0..6].iter().map(|s| matches!(s, VisitStatus::Positive(_))).collect();
    assert_eq!(visited, vec![true, true, true, true, false, false]);
    assert!(matches!(state.parent[2], VisitStatus::Positive(1)));
}

#[test]
fn built_graph_has_the_listed_edges() {
    let edges: EdgeList = vec![(0, 2, None), (1, 3, None), (2, 3, None), (3, 3, None)];
    let g: arc::Graph<usize> =
        <arc::Graph<usize> as CSRGraph<arc::WrappedNode, arc::WrappedNode>>::build_undirected(4, &edges);
    assert_eq!(out_ids(&g, 0), vec![2]);
    assert_eq!(out_ids(&g, 1), vec![3]);
    assert_eq!(out_ids(&g, 2), vec![0, 3]);
    assert_eq!(out_ids(&g, 3), vec![1, 2]);
    let d = rc_directed(4, &edges);
    assert_eq!(out_ids(&d, 2), vec![3]);
    let mut inn: Vec<usize> = d.in_neigh(3).iter().map(|e| e.as_node()).collect();
    inn.sort();
    assert_eq!(inn, vec![1, 2]);
    let a: arena::Graph<usize> =
        <arena::Graph<usize> as CSRGraph<arena::CustomIndex, arena::CustomIndex>>::build_directed(4, &edges);
    assert_eq!(out_ids(&a, 0), vec![2]);
    assert_eq!(out_ids(&a, 1), vec![3]);
}

#[test]
fn afforest_labels_a_built_graph_by_least_id() {
    let edges: EdgeList = vec![(0, 2, None), (1, 3, None), (2, 3, None)];
    let g: arc::Graph<usize> =
        <arc::Graph<usize> as CSRGraph<arc::WrappedNode, arc::WrappedNode>>::build_undirected(4, &edges);
    assert_eq!(afforest(&g, Some(0)), vec![0, 0, 0, 0]);
}

#[test]
fn afforest_follows_in_edges_of_directed_graphs() {
    // vertex 5 is joined only by the third out-edge of 0, and 0 lies in
    // the largest component
    let edges: EdgeList =
        vec![(0, 1, None), (0, 2, None), (0, 5, None), (1, 2, None), (2, 3, None), (3, 4, None)];
    let g = rc_directed(6, &edges);
    assert_eq!(afforest(&g, None), vec![0, 0, 0, 0, 0, 0]);
}

#[test]
fn afforest_final_link_of_one_vertex() {
    let edges: EdgeList = vec![(0, 1, None), (0, 2, None), (0, 3, None), (4, 0, None)];
    let g = rc_directed(5, &edges);
    let mut comp = identity_labels(5);
    // 0 is labelled 0 = c: nothing happens
    afforest_link_vertex(&g, &mut comp, 0, 0, 1);
    assert_eq!(comp, vec![0, 1, 2, 3, 4]);
    // otherwise 0 joins its out-neighbours past the first and all its in-neighbours
    afforest_link_vertex(&g, &mut comp, 0, 9, 1);
    compress(&g, &mut comp);
    assert_eq!(comp, vec![0, 1, 0, 0, 0]);
}

#[test]
fn link_changes_one_root_only() {
    let mut comp = vec![0, 0, 2, 2, 4];
    link(1, 3, &mut comp);
    assert_eq!(comp, vec![0, 0, 0, 2, 4]);
    link(1, 3, &mut comp);
    assert_eq!(comp, vec![0, 0, 0, 2, 4]);
}

#[test]
fn compress_leaves_entries_past_the_vertices() {
    let g = rc_directed(3, &vec![]);
    let mut comp = vec![0, 0, 1, 3, 3];
    compress(&g, &mut comp);
    assert_eq!(comp, vec![0, 0, 0, 3, 3]);
}

#[test]
fn relaxation_pieces_match_delta_stepping() {
    let edges: EdgeList = vec![(0, 1, Some(4)), (0, 2, Some(1)), (2, 1, Some(2))];
    let g: arc::Graph<usize> =
        <arc::Graph<usize> as CSRGraph<arc::WrappedNode, arc::WrappedNode>>::build_directed(3, &edges);
    let inf = gapbs::sssp::K_DIST_INF;
    let mut dist = vec![0, inf, inf];
    let mut p = relax_vertex(&g, &dist, 0, 2, 0);
    p.sort();
    assert_eq!(p, vec![(1, 4), (2, 1)]);
    // a vertex below the current bin proposes nothing
    assert_eq!(relax_vertex(&g, &dist, 0, 2, 1), vec![]);
    let mut bins: Vec<Vec<usize>> = Vec::new();
    apply_proposals(&mut dist, &mut bins, &vec![(1, 4), (2, 1), (1, 6)], 2);
    assert_eq!(dist, vec![0, 4, 1]);
    assert_eq!(bins, vec![vec![2], vec![], vec![1]]);
    assert_eq!(next_bin(&bins, 0), Some(0));
    assert_eq!(next_bin(&bins, 1), Some(2));
    assert_eq!(next_bin(&bins, 3), None);
    assert_eq!(delta_step(&g, 0, 2), vec![0, 3, 1]);
}

#[test]
fn picker_checks_the_drawn_vertex() {
    let g = rc_directed(3, &vec![(0, 1, None), (1, 2, None), (2, 0, None)]);
    let mut sp = SourcePicker::new(&g);
    for _ in 0..20 {
        assert!(sp.try_pick().is_some());
    }
    let h = rc_directed(2, &vec![(0, 1, None)]);
    let sp = SourcePicker::new(&h);
    assert_eq!(sp.check_drawn(0), Some(0));
    assert_eq!(sp.check_drawn(1), None);
}

#[test]
fn edge_list_builder_keeps_the_edges() {
    let mut b = BuilderBase::new();
    let mut edges: EdgeList = vec![(0, 1, None), (1, 2, None), (2, 2, None)];
    let g: rc::Graph<usize> = b.make_graph_from_edge_list(&mut edges);
    assert_eq!(g.num_nodes(), 3);
    // the builder's default symmetrize flag builds the graph directed
    assert!(g.directed());
    assert_eq!(out_ids(&g, 0), vec![1]);
    assert_eq!(out_ids(&g, 1), vec![2]);
    assert_eq!(out_ids(&g, 2), Vec::<usize>::new());
}

#[test]
fn timer_checkpoints_come_back_in_order() {
    let mut t = ScopedTimer::new("run");
    t.checkpoint("a");
    t.checkpoint("b");
    let (l, _) = t.elapsed_since_checkpoint();
    assert_eq!(l, "b");
    let (l, _) = t.elapsed_since_checkpoint();
    assert_eq!(l, "a");
    assert_eq!(t.name(), "run");
}

#[test]
fn rounds_agree_with_delta_stepping() {
    let edges: EdgeList = vec![
        (0, 1, Some(4)),
        (0, 2, Some(1)),
        (2, 1, Some(2)),
        (1, 3, Some(1)),
        (2, 3, Some(5)),
    ];
    let g: arc::Graph<usize> =
        <arc::Graph<usize> as CSRGraph<arc::WrappedNode, arc::WrappedNode>>::build_directed(5, &edges);
    for delta in [1, 2, 3, 100] {
        assert_eq!(delta_step_rounds(&g, 0, delta), delta_step(&g, 0, delta));
    }
    assert_eq!(delta_step_rounds(&g, 0, 1), vec![0, 3, 1, 4, gapbs::sssp::K_DIST_INF]);
}

#[test]
fn whole_search_returns_the_parent_array() {
    let mut edges: EdgeList = vec![(0, 1, None), (1, 2, None), (0, 3, None), (4, 5, None), (2, 0, None)];
    for i in 0..30 {
        edges.push((10 + i, 11 + i, None));
    }
    let g = rc_directed(41, &edges);
    let parent = do_bfs(&g, 0);
    assert!(parent.len() >= 410);
    assert!(matches!(parent[0], VisitStatus::Positive(0)));
    assert!(matches!(parent[1], VisitStatus::Positive(0)));
    assert!(matches!(parent[2], VisitStatus::Positive(1)));
    assert!(matches!(parent[3], VisitStatus::Positive(0)));
    for v in 4..41 {
        assert!(matches!(parent[v], VisitStatus::Negative(_)), "vertex {} was not reachable", v);
    }
}

#[test]
fn whole_search_from_another_source() {
    let edges: EdgeList = vec![(0, 1, None), (1, 2, None), (2, 3, None), (3, 1, None)];
    let g = rc_directed(5, &edges);
    let parent = do_bfs(&g, 2);
    let visited: Vec<bool> = parent[0..5].iter().map(|s| matches!(s, VisitStatus::Positive(_))).collect();
    assert_eq!(visited, vec![false, true, true, true, false]);
    assert!(matches!(parent[2], VisitStatus::Positive(2)));
    assert!(matches!(parent[3], VisitStatus::Positive(2)));
    assert!(matches!(parent[1], VisitStatus::Positive(3)));
}

#[test]
fn added_edge_carries_its_weight() {
    let mut g = arc::Graph::<usize>::new(false);
    g.add_vertex(0, None);
    g.add_vertex(1, None);
    g.add_edge(0, 1, &Some(7), false);
    let out0 = g.out_neigh(0);
    assert_eq!(out0.len(), 1);
    assert_eq!(out0[0].as_node(), 1);
    assert_eq!(out0[0].get_weight(), 7);
    let out1 = g.out_neigh(1);
    assert_eq!(out1.len(), 1);
    assert_eq!(out1[0].as_node(), 0);
    assert_eq!(g.num_edges(), 1);
}

#[test]
fn built_weighted_graph_gives_shortest_distances() {
    let edges: EdgeList = vec![(0, 1, Some(4)), (1, 2, Some(1)), (0, 2, Some(7))];
    let g: arc::Graph<usize> =
        <arc::Graph<usize> as CSRGraph<arc::WrappedNode, arc::WrappedNode>>::build_directed(3, &edges);
    assert_eq!(delta_step(&g, 0, 1), vec![0, 4, 5]);
}

#[test]
fn built_graph_keeps_the_last_weight_of_a_repeated_edge() {
    let edges: EdgeList = vec![(0, 1, Some(9)), (0, 1, Some(2))];
    let g: arc::Graph<usize> =
        <arc::Graph<usize> as CSRGraph<arc::WrappedNode, arc::WrappedNode>>::build_directed(2, &edges);
    let out0 = g.out_neigh(0);
    assert_eq!(out0.len(), 1);
    assert_eq!(out0[0].get_weight(), 2);
}

#[test]
fn complete_graph_on_four_vertices_has_four_triangles() {
    let edges: EdgeList = vec![
        (0, 1, None),
        (0, 2, None),
        (0, 3, None),
        (1, 2, None),
        (1, 3, None),
        (2, 3, None),
    ];
    let g: arc::Graph<usize> =
        <arc::Graph<usize> as CSRGraph<arc::WrappedNode, arc::WrappedNode>>::build_undirected(4, &edges);
    assert_eq!(ordered_count(&g), 4);
}

#[test]
fn undirected_build_keeps_no_in_edges() {
    let edges: EdgeList = vec![(0, 2, None), (1, 3, None)];
    let g: arc::Graph<usize> =
        <arc::Graph<usize> as CSRGraph<arc::WrappedNode, arc::WrappedNode>>::build_undirected(4, &edges);
    for v in 0..4 {
        assert!(g.in_neigh(v).is_empty());
    }
}

#[test]
fn undirected_map_graph_keeps_no_in_edges_for_the_bottom_up_step() {
    // The search turns bottom-up at once here, and the bottom-up step looks
    // for parents among in-neighbours, which an undirected map graph does
    // not keep: only the source ends up visited.
    let g: rc::Graph<usize> =
        <rc::Graph<usize> as CSRGraph<rc::WrappedNode, rc::WrappedNode>>::build_undirected(3, &vec![(0, 1, None), (1, 2, None)]);
    let parent = do_bfs(&g, 0);
    assert!(matches!(parent[0], VisitStatus::Positive(0)));
    assert!(matches!(parent[1], VisitStatus::Negative(_)));
    assert!(matches!(parent[2], VisitStatus::Negative(_)));
}

#[test]
fn every_parent_is_joined_to_its_child_and_leads_to_the_source() {
    let mut edges: EdgeList = vec![(0, 1, None), (0, 2, None), (1, 3, None), (2, 3, None), (3, 4, None), (5, 0, None)];
    for i in 0..30 {
        edges.push((10 + i, 11 + i, None));
    }
    let g = rc_directed(41, &edges);
    let parent = do_bfs(&g, 0);
    for v in 0..41 {
        if let VisitStatus::Positive(u) = parent[v] {
            if v != 0 {
                assert!(out_ids(&g, u).contains(&v), "parent {} of {} has no edge to it", u, v);
            }
            let mut x = v;
            let mut steps = 0;
            while x != 0 {
                match parent[x] {
                    VisitStatus::Positive(p) => x = p,
                    VisitStatus::Negative(_) => panic!("the chain from {} leaves the tree", v),
                }
                steps += 1;
                assert!(steps <= 41);
            }
        }
    }
    let visited: Vec<bool> = parent[0..6].iter().map(|s| matches!(s, VisitStatus::Positive(_))).collect();
    assert_eq!(visited, vec![true, true, true, true, true, false]);
}
