use gapbs::builder::BuilderBase;
use gapbs::generator::{identity, Generator};
use gapbs::types::{EdgeList, DEGREE};

#[test]
fn it_works() {
    let generator = Generator::new(12, 4);
    let edge_list = generator.generate_edge_list(true);
    assert_eq!(edge_list.len(), 45056);
}

#[test]
fn generate_small() {
    let generator = Generator::new(1, 1);
    let edge_list = generator.generate_edge_list(true);
    assert_eq!(edge_list.len(), 11 << 1);
}

#[test]
fn generated_endpoints_are_vertices() {
    let generator = Generator::new(3, 2);
    let edge_list = generator.generate_edge_list(true);
    assert_eq!(edge_list.len(), 8 * (DEGREE + 1));
    for (u, v, w) in &edge_list {
        assert!(*u < 8);
        assert!(*v < 8);
        assert!(w.is_none());
    }
}

#[test]
fn inserted_weights_are_small() {
    let generator = Generator::new(4, 2);
    let mut edge_list = generator.generate_edge_list(true);
    Generator::insert_weights(&mut edge_list);
    assert_eq!(edge_list.len(), 16 * (DEGREE + 1));
    for (_, _, w) in &edge_list {
        let w = w.expect("weighted");
        assert!(1 <= w && w < 256);
    }
}

#[test]
fn permutation_keeps_edge_count_and_range() {
    let generator = Generator::new(3, 2);
    let mut edge_list: EdgeList = vec![(0, 1, Some(3)), (2, 7, None), (7, 7, Some(1))];
    generator.permutate_ids(&mut edge_list);
    assert_eq!(edge_list.len(), 3);
    for (u, v, w) in &edge_list {
        assert!(*u < 8 && *v < 8);
        assert!(w.is_none());
    }
    // the self-edge stays a self-edge under a renaming
    assert_eq!(edge_list[2].0, edge_list[2].1);
}

#[test]
fn identity_counts_up() {
    assert_eq!(identity(4), vec![0, 1, 2, 3]);
    assert_eq!(identity(0), Vec::<usize>::new());
}

#[test]
fn builder_finds_largest_id_and_source() {
    let edge_list: EdgeList = vec![(3, 1, None), (0, 9, Some(2)), (4, 4, None)];
    assert_eq!(BuilderBase::find_max_node_id(&edge_list), 9);
    assert_eq!(BuilderBase::get_source((5, 6, None)), 5);
}


use gapbs::edgefile::{edge_list_from_lines, parse_edge_line};

#[test]
fn edge_lines_parse() {
    assert_eq!(parse_edge_line(b"1 2"), Some((1, 2, None)));
    assert_eq!(parse_edge_line(b"3\t4\t5"), Some((3, 4, Some(5))));
    assert_eq!(parse_edge_line(b"+7 8"), Some((7, 8, None)));
    assert_eq!(parse_edge_line(b"18446744073709551615 0"), Some((usize::MAX, 0, None)));
}

#[test]
fn malformed_edge_lines_give_no_edge() {
    assert_eq!(parse_edge_line(b"1  2"), None);
    assert_eq!(parse_edge_line(b"1 2 "), None);
    assert_eq!(parse_edge_line(b"12"), None);
    assert_eq!(parse_edge_line(b""), None);
    assert_eq!(parse_edge_line(b"a 1"), None);
    assert_eq!(parse_edge_line(b"-1 2"), None);
    assert_eq!(parse_edge_line(b"+ 2"), None);
    assert_eq!(parse_edge_line(b"18446744073709551616 1"), None);
    assert_eq!(parse_edge_line(b"1 2 x"), None);
}

#[test]
fn edge_files_parse_line_by_line() {
    let lines = vec![b"0 1".to_vec(), b"1 2 9".to_vec()];
    assert_eq!(edge_list_from_lines(&lines), Some(vec![(0, 1, None), (1, 2, Some(9))]));
    let bad = vec![b"0 1".to_vec(), b"oops".to_vec()];
    assert_eq!(edge_list_from_lines(&bad), None);
}
