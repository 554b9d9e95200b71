use gapbs::gcbench::{left_depth, right_depth, MakeTree, NumIters, Populate, PrintDiagnostics, TreeSize};
use gapbs::graphmodels::epoch::adjlist::{clr_mark, clr_markd, is_key_exist, is_marked, is_node_active, set_mark};
use gapbs::graphmodels::epoch::lftt::{OpKind, OpStatus, ReturnCode};
use gapbs::graphmodels::epoch::mdlist::{
    clr_adpinv, clr_delinv, clr_invalid, is_adpinv, is_delinv, is_invalid, key_to_coord, set_adpinv, set_delinv,
};
use gapbs::graphmodels::epoch::{CustomNode, EdgeInfo};
use gapbs::slidingqueue::SlidingQueue;
use gapbs::sortedmap::SortedMap;
use gapbs::timer::ScopedTimer;
use gapbs::treenodes::{Forest, Node, TreeNode};
use gapbs::types::{AsNode, WeightedEdge};

#[test]
fn sliding_queue_windows() {
    let mut q: SlidingQueue<usize> = SlidingQueue::new();
    assert!(q.empty());
    q.push_back(1);
    q.push_back(2);
    assert!(q.empty());
    q.slide_window();
    assert_eq!(q.size(), 2);
    assert_eq!(q.window_items(), vec![1, 2]);
    q.push_back(3);
    q.slide_window();
    assert_eq!(q.window_items(), vec![3]);
    q.slide_window();
    assert!(q.empty());
    q.reset();
    assert_eq!(q.size(), 0);
    let c: SlidingQueue<usize> = SlidingQueue::with_capacity(10);
    assert!(c.empty());
}

#[test]
fn sorted_map_keeps_keys_in_order() {
    let mut m: SortedMap<usize> = SortedMap::new();
    assert!(m.insert(5, 50));
    assert!(m.insert(1, 10));
    assert!(!m.insert(5, 55));
    assert_eq!(m.len(), 2);
    assert_eq!(m.keys_vec(), vec![1, 5]);
    assert_eq!(m.get(5), Some(&55));
    assert!(m.contains_key(1));
    assert!(!m.contains_key(3));
}

#[test]
fn mark_bits_round_trip() {
    let p: usize = 0x1000;
    assert_eq!(set_mark(p), 0x1001);
    assert_eq!(is_marked(set_mark(p)), 1);
    assert_eq!(clr_mark(set_mark(p)), p);
    assert_eq!(clr_markd(0x1003), 0x1002);
    assert_eq!(is_marked(p), 0);
}

#[test]
fn list_tag_bits() {
    let p: usize = 0x40;
    assert_eq!(set_adpinv(p), 0x41);
    assert_eq!(is_adpinv(set_adpinv(p)), 1);
    assert_eq!(clr_adpinv(0x43), 0x42);
    assert_eq!(set_delinv(p), 0x42);
    assert_eq!(is_delinv(set_delinv(p)), 2);
    assert_eq!(clr_delinv(0x43), 0x41);
    assert_eq!(is_invalid(0x43), 3);
    assert_eq!(clr_invalid(0x43), 0x40);
    assert_eq!(gapbs::graphmodels::epoch::adjlist::set_delinv(0x1), 0x3);
    assert_eq!(gapbs::graphmodels::epoch::adjlist::is_delinv(0x3), 2);
}

#[test]
fn coordinates_split_key_in_pairs_of_bits() {
    let c = key_to_coord(0b11_10_01_00);
    assert_eq!(c[15], 0);
    assert_eq!(c[14], 1);
    assert_eq!(c[13], 2);
    assert_eq!(c[12], 3);
    assert_eq!(c[0], 0);
    let top = key_to_coord(0xC000_0000);
    assert_eq!(top[0], 3);
    let mut back: usize = 0;
    for x in key_to_coord(123_456_789) {
        back = back * 4 + x;
    }
    assert_eq!(back, 123_456_789);
}

#[test]
fn key_presence_follows_operation_and_status() {
    assert!(is_key_exist(OpKind::Find, false, false, false));
    assert!(is_key_exist(OpKind::Insert, true, false, false));
    assert!(!is_key_exist(OpKind::Insert, false, false, false));
    assert!(is_key_exist(OpKind::Delete, false, false, false));
    assert!(!is_key_exist(OpKind::DeleteEdge, true, false, false));
    assert!(is_key_exist(OpKind::DeleteEdge, true, true, false));
    assert!(is_key_exist(OpKind::Connect, false, false, true));
    assert!(is_node_active(OpStatus::Committed));
    assert!(!is_node_active(OpStatus::Active));
    assert!(!is_node_active(OpStatus::Aborted));
}

#[test]
fn model_values() {
    let n = CustomNode(7);
    assert_eq!(n.as_node(), 7);
    let mut e = EdgeInfo { node_id: 3, weight: None };
    e.set_weight(9);
    assert_eq!(e.get_weight(), 9);
    assert_eq!(e.as_node(), 3);
    let r: ReturnCode<usize> = ReturnCode::Found(4);
    assert!(matches!(r, ReturnCode::Found(4)));
}

#[test]
fn timer_keeps_checkpoint_labels() {
    let mut t = ScopedTimer::new("bench");
    assert_eq!(t.name(), "bench");
    t.checkpoint("first");
    t.checkpoint("second");
    let (label, _millis) = t.elapsed_since_checkpoint();
    assert_eq!(label, "second");
    let (label, _millis) = t.elapsed_since_checkpoint();
    assert_eq!(label, "first");
    let _ = t.elapsed();
}

#[test]
fn tree_sizes() {
    assert_eq!(TreeSize(-1), 0);
    assert_eq!(TreeSize(0), 1);
    assert_eq!(TreeSize(4), 31);
    assert_eq!(TreeSize(16), 131071);
    assert_eq!(NumIters(4), 2 * 131071 / 31);
    assert_eq!(NumIters(16), 2);
    PrintDiagnostics();
}

#[test]
fn made_tree_is_perfect() {
    let mut f = Forest::new();
    let root = MakeTree(4, &mut f);
    assert_eq!(f.len(), 31);
    assert_eq!(root, 30);
    assert_eq!(left_depth(0, root, &f), 4);
    assert_eq!(right_depth(10, root, &f), 14);
    let leaf = MakeTree(0, &mut f);
    assert_eq!(f.len(), 32);
    assert!(f.node(leaf).left().is_none());
}

#[test]
fn populated_tree_is_perfect() {
    let mut f = Forest::new();
    let root = f.add_node();
    Populate(3, root, &mut f);
    assert_eq!(f.len(), 15);
    assert_eq!(left_depth(0, root, &f), 3);
    assert_eq!(right_depth(0, root, &f), 3);
    Populate(0, root, &mut f);
    assert_eq!(f.len(), 15);
}

#[test]
fn tree_node_edges() {
    let mut n = Node::new();
    assert!(n.left().is_none() && n.right().is_none());
    n.set_edges(4, 5);
    assert_eq!(n.left(), Some(4));
    assert_eq!(n.right(), Some(5));
}

#[test]
fn window_after_a_slide_holds_the_items_pushed_since_the_last_one() {
    let mut q: SlidingQueue<usize> = SlidingQueue::new();
    q.push_back(7);
    q.slide_window();
    assert_eq!(q.window_items(), vec![7]);
    for x in [4, 9, 1] {
        q.push_back(x);
    }
    q.slide_window();
    assert_eq!(q.window_items(), vec![4, 9, 1]);
    assert!(!q.empty());
    q.slide_window();
    assert_eq!(q.window_items(), Vec::<usize>::new());
    assert!(q.empty());
}

#[test]
fn coordinates_of_large_keys_spell_their_low_bits() {
    let key: usize = (5usize << 32) | 0x1234_5678;
    let mut back: usize = 0;
    for x in key_to_coord(key) {
        assert!(x < 4);
        back = back * 4 + x;
    }
    assert_eq!(back, 0x1234_5678);
}

#[test]
fn coordinates_order_keys_lexicographically() {
    let keys: Vec<usize> = vec![0, 1, 3, 4, 15, 16, 255, 256, 0x7fff_ffff, 0x8000_0000, 0xffff_ffff];
    for &a in &keys {
        for &b in &keys {
            assert_eq!(a < b, key_to_coord(a) < key_to_coord(b));
        }
    }
}

#[test]
fn forest_nodes_keep_the_edges_given_them() {
    let mut f = Forest::new();
    let a = f.add_node();
    let b = f.add_node();
    let c = f.add_node();
    assert_eq!((a, b, c), (0, 1, 2));
    f.set_edges(a, b, c);
    assert_eq!(f.node(a).left(), Some(1));
    assert_eq!(f.node(a).right(), Some(2));
    assert!(f.node(b).left().is_none());
    assert_eq!(f.len(), 3);
}
