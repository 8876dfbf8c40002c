use icfpc2025::label_observation::LabelObservation;
use icfpc2025::walker::{analyze_results, guess_from_walks};
use icfpc2025::judge::explore_plans;
use icfpc2025::problem::Problem;
use icfpc2025::random_walk::{is_door_plan_text, reconstruct_map, walk_plan, walk_plans, walks_fit, QUERY_NUM};

#[test]
fn walk_plan_takes_each_door_equally_often() {
    let plan = walk_plan(20);
    assert_eq!(plan.len(), 18);
    for d in ['0', '1', '2', '3', '4', '5'] {
        assert_eq!(plan.chars().filter(|&c| c == d).count(), 3);
    }
    assert!(is_door_plan_text(&plan));
}

#[test]
fn walk_plans_make_one_exploration() {
    let plans = walk_plans(12);
    assert_eq!(plans.len(), QUERY_NUM);
    for p in &plans {
        assert_eq!(p.len(), 12);
    }
}

#[test]
fn door_plan_text_rejects_other_characters() {
    assert!(is_door_plan_text(&"012345".to_string()));
    assert!(!is_door_plan_text(&"0126".to_string()));
    assert!(!is_door_plan_text(&"[1]0".to_string()));
}

#[test]
fn walks_fit_checks_the_shapes() {
    let plans = vec!["01".to_string(), "23".to_string()];
    assert!(walks_fit(3, &plans, &vec![vec![0, 1, 2], vec![2, 1, 0]]));
    assert!(!walks_fit(3, &plans, &vec![vec![0, 1], vec![0, 1]]));
    assert!(!walks_fit(7, &plans, &vec![vec![0, 1, 2], vec![2, 1, 0]]));
    assert!(!walks_fit(3, &plans, &vec![vec![0, 1, 4], vec![2, 1, 0]]));
    assert!(!walks_fit(3, &vec!["0x".to_string(), "01".to_string()], &vec![vec![0, 1, 2], vec![2, 1, 0]]));
    assert!(!walks_fit(3, &vec!["01".to_string()], &vec![vec![0, 1, 2]]));
    assert!(!walks_fit(3, &vec![], &vec![]));
}

#[test]
fn reconstruction_gives_a_map_of_the_asked_size() {
    let problem = Problem::new(3, 54, 1, Some(9));
    let plans = walk_plans(54);
    let plans_ref: Vec<&str> = plans.iter().map(|p| p.as_str()).collect();
    let results = explore_plans(&problem, &plans_ref).unwrap().results;
    assert!(walks_fit(3, &plans, &results));
    if let Ok((labels, start, graph)) = reconstruct_map(3, &plans, &results) {
        assert_eq!(labels.len(), 3);
        assert!(start < 3);
        assert_eq!(graph.len(), 3);
        for row in &graph {
            assert_eq!(row.len(), 6);
            assert!(row.iter().all(|&r| r < 3));
        }
    }
}

#[test]
fn walk_plans_are_shuffled() {
    let sorted = "000111222333444555".to_string();
    let mut differs = false;
    for _ in 0..5 {
        if walk_plan(18) != sorted {
            differs = true;
        }
    }
    assert!(differs);
}

#[test]
fn observations_hold_exactly_what_the_walks_saw() {
    let plans = vec![String::from("0"), String::from("0")];
    let results = vec![vec![0i8, 1], vec![0i8, 2]];
    let obs = analyze_results(4, &plans, &results);
    assert_eq!(obs.get_size(0), 2);
    assert_eq!(obs.get_size(1), 1);
    assert_eq!(obs.get_size(2), 1);
    assert_eq!(obs.get_sum_size(), 5);
}

#[test]
fn one_room_walks_give_one_room_looping_to_itself() {
    let plans = vec!["012345".to_string(), "012345".to_string()];
    let results = vec![vec![0i8; 7], vec![0i8; 7]];
    let mut obs = LabelObservation::new(1);
    let res = guess_from_walks(1, &plans, &results, &mut obs);
    assert_eq!(res, Ok((vec![0i8], 0usize, vec![vec![0usize; 6]])));
}

#[test]
fn fewer_plans_than_walks_are_taken() {
    let plans = vec!["012345".to_string()];
    let results = vec![vec![0i8; 7], vec![0i8; 7]];
    let mut obs = LabelObservation::new(1);
    let res = guess_from_walks(1, &plans, &results, &mut obs);
    assert_eq!(res, Ok((vec![0i8], 0usize, vec![vec![0usize; 6]])));
}
