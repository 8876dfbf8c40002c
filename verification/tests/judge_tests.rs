use icfpc2025::judge::{explore_plans, judge_guess, map_is_valid};
use icfpc2025::pairing::guess_map;
use icfpc2025::problem::Problem;
use icfpc2025::types::{GuessRequestConnection, GuessRequestMap, GuessRequestRoom};

fn parse_map(text: &str) -> (usize, Vec<Vec<usize>>) {
    let mut lines = text.lines();
    let first = lines.next().unwrap();
    let start: usize = first.trim_start_matches("Starting room: ").parse().unwrap();
    let mut conns = Vec::new();
    for line in lines {
        let (_, rest) = line.split_once(':').unwrap();
        conns.push(rest.split_whitespace().map(|x| x.parse().unwrap()).collect());
    }
    (start, conns)
}

#[test]
fn explore_reports_labels_modulo_four() {
    let p = Problem::new(9, 20, 1, Some(8));
    let (start, conns) = parse_map(&p.pretty_print());
    let resp = explore_plans(&p, &vec!["", "2"]).unwrap();
    assert_eq!(resp.query_count, 2);
    assert_eq!(resp.results[0], vec![(start % 4) as i8]);
    assert_eq!(resp.results[1], vec![(start % 4) as i8, (conns[start][2] % 4) as i8]);
}

#[test]
fn explore_stops_at_the_first_bad_plan() {
    let p = Problem::new(4, 20, 1, Some(8));
    assert_eq!(explore_plans(&p, &vec!["0", "9", "x"]).unwrap_err(), "Invalid plan: 9");
    let p = Problem::new(4, 1, 1, Some(8));
    assert_eq!(explore_plans(&p, &vec!["00"]).unwrap_err(), "Plan length is too long: 2");
}

#[test]
fn the_hidden_map_is_judged_correct() {
    let p = Problem::new(9, 30, 1, Some(12));
    let (start, conns) = parse_map(&p.pretty_print());
    let labels: Vec<i8> = (0..conns.len()).map(|i| (i % 4) as i8).collect();
    let map = guess_map(labels, start, &conns).unwrap();
    assert!(map_is_valid(&map));
    assert!(judge_guess(&p, &map).unwrap().correct);
}

#[test]
fn renumbered_rooms_are_judged_correct() {
    let p = Problem::new(5, 30, 1, Some(13));
    let (start, conns) = parse_map(&p.pretty_print());
    // swap rooms 0 and 4, which share label 0
    let swap = |r: usize| if r == 0 { 4 } else if r == 4 { 0 } else { r };
    let mut renamed = vec![vec![0; 6]; 5];
    for r in 0..5 {
        for d in 0..6 {
            renamed[swap(r)][d] = swap(conns[r][d]);
        }
    }
    let labels: Vec<i8> = (0..5).map(|i| (i % 4) as i8).collect();
    let map = guess_map(labels, swap(start), &renamed).unwrap();
    assert!(judge_guess(&p, &map).unwrap().correct);
}

#[test]
fn wrong_labels_are_judged_incorrect() {
    let p = Problem::new(5, 30, 1, Some(13));
    let (start, conns) = parse_map(&p.pretty_print());
    let map = guess_map(vec![0; 5], start, &conns).unwrap();
    assert!(!judge_guess(&p, &map).unwrap().correct);
}

#[test]
fn malformed_maps_are_refused() {
    let p = Problem::new(4, 30, 1, Some(1));
    let bad_label = GuessRequestMap { rooms: vec![0, 5], starting_room: 0, connections: vec![] };
    assert!(!map_is_valid(&bad_label));
    assert_eq!(judge_guess(&p, &bad_label).unwrap_err(), "Invalid map");
    let bad_door = GuessRequestMap {
        rooms: vec![0, 1],
        starting_room: 0,
        connections: vec![GuessRequestConnection {
            from: GuessRequestRoom { room: 0, door: 6 },
            to: GuessRequestRoom { room: 1, door: 0 },
        }],
    };
    assert_eq!(judge_guess(&p, &bad_door).unwrap_err(), "Invalid map");
    let bad_start = GuessRequestMap { rooms: vec![0, 1], starting_room: 2, connections: vec![] };
    assert_eq!(judge_guess(&p, &bad_start).unwrap_err(), "Invalid map");
}

#[test]
fn incomplete_maps_are_judged_incorrect() {
    let p = Problem::new(2, 30, 1, Some(1));
    let map = GuessRequestMap { rooms: vec![0, 1], starting_room: 0, connections: vec![] };
    assert!(!judge_guess(&p, &map).unwrap().correct);
}
