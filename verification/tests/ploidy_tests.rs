use icfpc2025::ploidy::{expand_ploidy, Expansion};

#[test]
fn one_copy_is_left_unchanged() {
    let graph = vec![vec![0; 6]];
    match expand_ploidy(1, 10, vec![2], 0, graph.clone()) {
        Ok(Expansion::Unchanged(labels, start, g)) => {
            assert_eq!(labels, vec![2]);
            assert_eq!(start, 0);
            assert_eq!(g, graph);
        }
        _ => panic!("expected the map unchanged"),
    }
}

#[test]
fn three_copies_are_not_implemented() {
    match expand_ploidy(3, 10, vec![0], 0, vec![vec![0; 6]]) {
        Err(m) => assert_eq!(m, "Not implemented yet!"),
        _ => panic!("expected an error"),
    }
}

#[test]
fn unreachable_rooms_are_refused() {
    let graph = vec![vec![0; 6], vec![1; 6]];
    match expand_ploidy(2, 50, vec![0, 1], 0, graph) {
        Err(m) => assert_eq!(m, "Some room cannot be reached from another"),
        _ => panic!("expected an error"),
    }
}

#[test]
fn short_plans_are_refused() {
    match expand_ploidy(2, 0, vec![0], 0, vec![vec![0; 6]]) {
        Err(m) => assert_eq!(m, "Plan length is too short"),
        _ => panic!("expected an error"),
    }
    match expand_ploidy(2, 1, vec![0], 0, vec![vec![0; 6]]) {
        Err(m) => assert_eq!(m, "Plan length is too short"),
        _ => panic!("expected an error"),
    }
    match expand_ploidy(2, 3, vec![0], 0, vec![vec![0; 6]]) {
        Ok(Expansion::Explore(plan)) => {
            let expected: Vec<String> = vec!["[1]01".to_string(), "[1]23".to_string(), "[1]45".to_string()];
            assert_eq!(plan.plans_to_explore().clone(), expected);
        }
        _ => panic!("expected plans"),
    }
}

#[test]
fn two_copies_of_one_room() {
    let plan = match expand_ploidy(2, 10, vec![0], 0, vec![vec![0; 6]]) {
        Ok(Expansion::Explore(plan)) => plan,
        _ => panic!("expected plans"),
    };
    assert_eq!(plan.plans_to_explore().clone(), vec!["[1]012345".to_string()]);
    let results = vec![vec![0, 1, 1, 0, 0, 1, 1, 1]];
    assert!(plan.results_fit(&results));
    assert!(!plan.results_fit(&vec![vec![0, 1, 1]]));
    assert!(!plan.results_fit(&vec![vec![0, 1, 1, 0, 0, 1, 1, 4]]));
    let (labels, start, graph) = plan.finish(&results);
    assert_eq!(labels, vec![0, 0]);
    assert_eq!(start, 0);
    assert_eq!(graph, vec![vec![0, 1, 0, 1, 0, 0], vec![1, 0, 1, 0, 1, 1]]);
}

#[test]
fn plans_split_when_the_budget_runs_out() {
    let plan = match expand_ploidy(2, 5, vec![3], 0, vec![vec![0; 6]]) {
        Ok(Expansion::Explore(plan)) => plan,
        _ => panic!("expected plans"),
    };
    // the painting takes one move, leaving four doors per plan
    assert_eq!(plan.plans_to_explore().clone(), vec!["[0]0123".to_string(), "[0]45".to_string()]);
}

#[test]
fn two_copies_of_a_ring() {
    let graph = vec![vec![1, 0, 0, 0, 0, 0], vec![2, 1, 1, 1, 1, 1], vec![0, 2, 2, 2, 2, 2]];
    let plan = match expand_ploidy(2, 100, vec![0, 1, 2], 0, graph) {
        Ok(Expansion::Explore(plan)) => plan,
        _ => panic!("expected plans"),
    };
    let plans = plan.plans_to_explore().clone();
    assert_eq!(plans.len(), 1);
    assert!(plans[0].starts_with("[1]0[2]0[3]0"));
}
