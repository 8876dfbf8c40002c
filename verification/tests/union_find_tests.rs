use icfpc2025::label_observation::LabelObservation;
use icfpc2025::walker::{
    check_different_group, door_groups, group_candidate, merge_group_by_different_group, merge_group_by_unique_paths, path_fits_from, pick_leaders,
    roots_by_size, sole_unmarked_member,
};
use icfpc2025::union_find::{Action, UnionFind, NONE};

#[test]
fn union_merges_once() {
    let mut uf = UnionFind::new(5);
    assert_eq!(uf.whole_size(), 5);
    assert_eq!(uf.union(0, 1), 1);
    assert_eq!(uf.union(1, 0), 0);
    assert_eq!(uf.find(0), uf.find(1));
    assert_ne!(uf.find(0), uf.find(2));
    assert_eq!(uf.get_size(0), 2);
    assert_eq!(uf.get_size(4), 1);
}

#[test]
fn union_merges_door_targets() {
    let mut uf = UnionFind::new(6);
    uf.set_edge(0, 2, 3);
    uf.set_edge(1, 2, 4);
    assert_eq!(uf.get_next(0, 2), uf.find(3));
    assert_eq!(uf.get_next(0, 1), NONE);
    // merging 0 and 1 merges what their door 2 leads to: 3 and 4
    let merged = uf.union(0, 1);
    assert_eq!(merged, 2);
    assert_eq!(uf.find(3), uf.find(4));
    assert_eq!(uf.get_size(3), 2);
}

#[test]
fn get_path_follows_known_doors() {
    let mut uf = UnionFind::new(4);
    uf.set_edge(0, 1, 1);
    uf.set_edge(1, 5, 2);
    let path = uf.get_path(0, &[Action::new(0, 1), Action::new(0, 5), Action::new(0, 0)]);
    let expected = vec![uf.find(1), uf.find(2), NONE];
    assert_eq!(path, expected);
}

#[test]
fn get_edges_names_representatives() {
    let mut uf = UnionFind::new(3);
    uf.set_edge(0, 0, 2);
    uf.union(1, 2);
    let root = uf.find(2);
    let edges = uf.get_edges(0).clone();
    assert_eq!(edges[0], root);
    assert_eq!(edges[1], NONE);
}

#[test]
fn roots_come_largest_first() {
    let mut uf = UnionFind::new(6);
    uf.union(4, 5);
    uf.union(4, 3);
    uf.union(1, 2);
    let roots = roots_by_size(&mut uf);
    assert_eq!(roots.len(), 3);
    assert_eq!(roots[0], uf.find(3));
    assert_eq!(roots[1], uf.find(1));
    assert_eq!(roots[2], 0);
}

#[test]
fn union_joins_door_targets_and_nothing_more() {
    let mut uf = UnionFind::new(6);
    uf.set_edge(0, 0, 2);
    uf.set_edge(1, 0, 3);
    uf.set_edge(2, 1, 4);
    assert_eq!(uf.union(0, 1), 2);
    assert_eq!(uf.find(0), uf.find(1));
    assert_eq!(uf.find(2), uf.find(3));
    assert_ne!(uf.find(0), uf.find(2));
    assert_ne!(uf.find(4), uf.find(2));
    assert_ne!(uf.find(4), uf.find(5));
    let r = uf.find(3);
    assert_eq!(uf.get_next(r, 1), uf.find(4));
}

#[test]
fn only_a_sole_unmarked_member_is_picked() {
    let marks = vec![true, false, true, false];
    assert_eq!(sole_unmarked_member(&vec![0, 1, 2], &marks), 1);
    assert_eq!(sole_unmarked_member(&vec![0, 1, 3], &marks), NONE);
    assert_eq!(sole_unmarked_member(&vec![1, 1], &marks), NONE);
    assert_eq!(sole_unmarked_member(&vec![0, 2], &marks), NONE);
}

#[test]
fn a_group_already_in_the_class_gives_no_candidate() {
    let mut uf = UnionFind::new(4);
    uf.union(0, 2);
    let marks = vec![true, false, true, true];
    assert_eq!(group_candidate(&mut uf, 0, &vec![1, 3], &marks), 1);
    assert_eq!(group_candidate(&mut uf, 0, &vec![1, 2], &marks), NONE);
}

#[test]
fn leaders_are_chosen_largest_first_and_mutually_different() {
    let results = vec![vec![0i8, 0, 0, 1]];
    let diff = vec![
        vec![false, true, false, true],
        vec![true, false, true, true],
        vec![false, true, false, true],
        vec![true, true, true, false],
    ];
    let (leaders, remains) = pick_leaders(&results, &vec![0, 1, 2, 3], &[2, 1, 0, 0], &diff);
    assert_eq!(leaders[0], vec![0, 1]);
    assert_eq!(remains[0], vec![2]);
    assert_eq!(leaders[1], vec![3]);
    assert!(remains[1].is_empty());
}

#[test]
fn door_groups_collect_where_each_path_fits() {
    let results = vec![vec![0i8, 1, 0, 2]];
    let mut uf = UnionFind::new(4);
    uf.set_edge(0, 3, 1);
    uf.set_edge(2, 3, 3);
    let paths = vec![(vec![Action::new(0, 3)], 1usize), (vec![Action::new(0, 3)], 2usize)];
    assert!(path_fits_from(&results, &mut uf, 0, &paths[0].0, 1));
    assert!(!path_fits_from(&results, &mut uf, 2, &paths[0].0, 1));
    let groups = door_groups(&results, &mut uf, &paths);
    assert_eq!(groups[0][3], vec![0, 2]);
    assert!(groups[0][0].is_empty());
    assert!(groups[1][3].is_empty());
}

#[test]
fn a_unique_path_fitting_twice_merges_its_positions() {
    let results = vec![vec![0i8, 1, 0, 1]];
    let mut uf = UnionFind::new(4);
    uf.set_edge(0, 3, 1);
    uf.set_edge(2, 3, 3);
    let mut obs = LabelObservation::new(4);
    obs.add_child(0, 3, 1);
    let merged = merge_group_by_unique_paths(&results, &mut uf, &obs);
    assert_eq!(merged, 2);
    assert_eq!(uf.find(0), uf.find(2));
    assert_eq!(uf.find(1), uf.find(3));
    assert_eq!(merge_group_by_unique_paths(&results, &mut uf, &obs), 0);
}

#[test]
fn without_unique_paths_nothing_merges() {
    let results = vec![vec![0i8, 1, 0, 1]];
    let mut uf = UnionFind::new(4);
    uf.set_edge(0, 3, 1);
    uf.set_edge(2, 3, 3);
    let obs = LabelObservation::new(4);
    assert_eq!(merge_group_by_unique_paths(&results, &mut uf, &obs), 0);
    assert_ne!(uf.find(0), uf.find(2));
}

#[test]
fn other_classes_join_their_sole_unmarked_leader() {
    let results = vec![vec![0i8, 1, 0, 1]];
    let mut uf = UnionFind::new(4);
    let obs = LabelObservation::new(2);
    let diff = vec![vec![false; 4]; 4];
    let merged = merge_group_by_different_group(&results, &mut uf, &diff, &obs);
    assert_eq!(merged, 2);
    assert_eq!(uf.find(0), uf.find(2));
    assert_eq!(uf.find(1), uf.find(3));
}

#[test]
fn a_leader_marked_different_is_not_joined() {
    let results = vec![vec![0i8, 1, 0, 1]];
    let mut uf = UnionFind::new(4);
    let obs = LabelObservation::new(2);
    let mut diff = vec![vec![false; 4]; 4];
    diff[0][2] = true;
    diff[2][0] = true;
    let merged = merge_group_by_different_group(&results, &mut uf, &diff, &obs);
    assert_eq!(merged, 1);
    assert_ne!(uf.find(0), uf.find(2));
    assert_eq!(uf.find(1), uf.find(3));
}

#[test]
fn three_positions_of_one_label_become_one_room() {
    let results = vec![vec![0i8, 0, 0]];
    let mut uf = UnionFind::new(3);
    let diff = vec![vec![false; 3]; 3];
    let obs = LabelObservation::new(1);
    assert_eq!(merge_group_by_different_group(&results, &mut uf, &diff, &obs), 2);
    assert_eq!(uf.find(0), uf.find(1));
    assert_eq!(uf.find(1), uf.find(2));
    assert_eq!(uf.get_size(0), 3);
}

#[test]
fn marks_are_set_both_ways() {
    let results = vec![vec![0i8, 1, 0, 2]];
    let mut uf = UnionFind::new(4);
    uf.set_edge(0, 0, 1);
    uf.set_edge(2, 0, 3);
    let mut diff = vec![vec![false; 4]; 4];
    for i in 0..4 {
        for j in 0..4 {
            diff[i][j] = results[0][i] != results[0][j];
        }
    }
    check_different_group(&results, &mut uf, &mut diff);
    assert!(diff[0][2]);
    assert!(diff[2][0]);
    for i in 0..4 {
        for j in 0..4 {
            assert_eq!(diff[i][j], diff[j][i]);
        }
    }
}

#[test]
fn a_set_door_keeps_leading_to_its_class_after_unions() {
    let mut uf = UnionFind::new(5);
    uf.set_edge(0, 2, 1);
    uf.union(1, 3);
    uf.union(0, 4);
    let root = uf.find(0);
    let next = uf.get_next(root, 2);
    assert_eq!(uf.find(next), uf.find(3));
}
