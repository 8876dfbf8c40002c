use icfpc2025::rooms::map_from_classes;
use icfpc2025::union_find::{UnionFind, NONE};
use icfpc2025::walker::roots_by_size;

#[test]
fn missing_doors_are_completed_from_the_counts() {
    let results = vec![vec![0i8, 1, 2, 3]];
    let roots = vec![0usize, 1];
    let class_edges = vec![vec![1, 0, 0, 0, 0, NONE], vec![0, 0, 1, 1, 1, 1]];
    let (labels, start, graph) = map_from_classes(&results, &roots, 1, &class_edges).unwrap();
    assert_eq!(labels, vec![0, 1]);
    assert_eq!(start, 1);
    assert_eq!(graph, vec![vec![1, 0, 0, 0, 0, 1], vec![0, 0, 1, 1, 1, 1]]);
}

#[test]
fn a_class_outside_the_rooms_leaves_its_door_unknown() {
    let results = vec![vec![0i8, 1, 2, 3]];
    let roots = vec![0usize, 1];
    let class_edges = vec![vec![1, 0, 0, 0, 0, 3], vec![0, 0, 1, 1, 1, 1]];
    let (_, start, graph) = map_from_classes(&results, &roots, 0, &class_edges).unwrap();
    assert_eq!(start, 0);
    assert_eq!(graph[0], vec![1, 0, 0, 0, 0, 1]);
}

#[test]
fn a_start_outside_the_rooms_is_refused() {
    let results = vec![vec![0i8, 1, 2, 3]];
    let roots = vec![0usize, 1];
    let class_edges = vec![vec![1, 0, 0, 0, 0, 0], vec![0, 1, 1, 1, 1, 1]];
    let res = map_from_classes(&results, &roots, 2, &class_edges);
    assert_eq!(res, Err(String::from("Start index not found")));
}

#[test]
fn doors_left_unknown_are_refused() {
    let results = vec![vec![0i8, 1, 2, 3]];
    let roots = vec![0usize, 1];
    let class_edges = vec![vec![1, NONE, NONE, NONE, NONE, NONE], vec![0, 0, NONE, NONE, NONE, NONE]];
    let res = map_from_classes(&results, &roots, 0, &class_edges);
    assert_eq!(res, Err(String::from("Graph is invalid")));
}

#[test]
fn equal_classes_come_larger_representative_first() {
    let mut uf = UnionFind::new(5);
    uf.union(0, 1);
    uf.union(2, 3);
    let roots = roots_by_size(&mut uf);
    assert_eq!(roots.len(), 3);
    assert!(roots[0] > roots[1]);
    assert_eq!(uf.get_size(roots[0]), 2);
    assert_eq!(uf.get_size(roots[1]), 2);
    assert_eq!(roots[2], 4);
}
