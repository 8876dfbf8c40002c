use icfpc2025::pairing::{guess_map, pair_doors};
use icfpc2025::types::{GuessRequestConnection, GuessRequestRoom};
use icfpc2025::union_find::NONE;

fn conn(a: usize, d: usize, b: usize, e: usize) -> GuessRequestConnection {
    GuessRequestConnection {
        from: GuessRequestRoom { room: a, door: d },
        to: GuessRequestRoom { room: b, door: e },
    }
}

#[test]
fn pairs_doors_in_order() {
    let graph = vec![vec![1, 1, 0, 0, 0, 0], vec![0, 0, 1, 1, 1, 1]];
    let conns = pair_doors(&graph).unwrap();
    let expected = vec![
        conn(0, 0, 1, 0),
        conn(0, 1, 1, 1),
        conn(0, 2, 0, 2),
        conn(0, 3, 0, 3),
        conn(0, 4, 0, 4),
        conn(0, 5, 0, 5),
        conn(1, 2, 1, 2),
        conn(1, 3, 1, 3),
        conn(1, 4, 1, 4),
        conn(1, 5, 1, 5),
    ];
    assert_eq!(conns, expected);
}

#[test]
fn pairs_with_the_door_of_same_rank() {
    let graph = vec![vec![0, 1, 0, 1, 0, 0], vec![1, 1, 0, 1, 1, 0]];
    let conns = pair_doors(&graph).unwrap();
    // the doors 1 and 3 of room 0 go to the doors 2 and 5 of room 1, in that order
    assert!(conns.contains(&conn(0, 1, 1, 2)));
    assert!(conns.contains(&conn(0, 3, 1, 5)));
    for c in &conns {
        assert_eq!(graph[c.from.room][c.from.door], c.to.room);
        assert_eq!(graph[c.to.room][c.to.door], c.from.room);
    }
}

#[test]
fn unknown_doors_are_skipped() {
    let graph = vec![vec![NONE, 0, NONE, NONE, NONE, NONE]];
    assert_eq!(pair_doors(&graph).unwrap(), vec![conn(0, 1, 0, 1)]);
}

#[test]
fn refuses_doors_without_return() {
    let graph = vec![vec![1, 1, 0, 0, 0, 0], vec![0, 1, 1, 1, 1, 1]];
    assert_eq!(pair_doors(&graph).unwrap_err(), "Failed to find connection from room 0.1 to room 1");
}

#[test]
fn refuses_extra_doors_back() {
    let graph = vec![vec![1, 0, 0, 0, 0, 0], vec![0, 0, 1, 1, 1, 1]];
    assert_eq!(pair_doors(&graph).unwrap_err(), "Failed to find connection from room 1.1 to room 0");
}

#[test]
fn guess_map_keeps_labels_and_start() {
    let graph = vec![vec![1, 1, 0, 0, 0, 0], vec![0, 0, 1, 1, 1, 1]];
    let map = guess_map(vec![2, 3], 1, &graph).unwrap();
    assert_eq!(map.rooms, vec![2, 3]);
    assert_eq!(map.starting_room, 1);
    assert_eq!(map.connections.len(), 10);
}
