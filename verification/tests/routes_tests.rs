use icfpc2025::ploidy::greedy_tour;
use icfpc2025::routes::{shortest_paths, shortest_paths_from};

fn ring() -> Vec<Vec<usize>> {
    vec![vec![1, 0, 0, 0, 0, 0], vec![2, 1, 1, 1, 1, 1], vec![0, 2, 2, 2, 2, 2]]
}

#[test]
fn shortest_paths_on_a_ring() {
    let paths = shortest_paths_from(&ring(), 0).unwrap();
    assert_eq!(paths, vec![vec![], vec![0], vec![0, 0]]);
    let all = shortest_paths(&ring()).unwrap();
    assert_eq!(all[1][0], vec![0, 0]);
    assert_eq!(all[2][2], Vec::<usize>::new());
}

#[test]
fn shortest_paths_take_the_first_doors() {
    // rooms 1 and 2 are both reached in one door; room 3 in two, first through door 2 then 4
    let graph = vec![
        vec![0, 0, 1, 2, 2, 1],
        vec![0, 1, 1, 1, 3, 3],
        vec![0, 2, 3, 2, 2, 2],
        vec![0, 3, 3, 3, 3, 3],
    ];
    let paths = shortest_paths_from(&graph, 0).unwrap();
    assert_eq!(paths[1], vec![2]);
    assert_eq!(paths[2], vec![3]);
    assert_eq!(paths[3], vec![2, 4]);
}

#[test]
fn unreachable_rooms_give_none() {
    let graph = vec![vec![0, 0, 0, 0, 0, 0], vec![0, 1, 1, 1, 1, 1]];
    assert!(shortest_paths_from(&graph, 0).is_none());
    assert!(shortest_paths(&graph).is_none());
    assert!(shortest_paths_from(&graph, 1).is_some());
}

#[test]
fn greedy_tour_visits_nearest_first() {
    let paths = shortest_paths(&ring()).unwrap();
    assert_eq!(greedy_tour(&paths, 3, 0), vec![0, 1, 2]);
    assert_eq!(greedy_tour(&paths, 3, 2), vec![2, 0, 1]);
}
