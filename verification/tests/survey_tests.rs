use icfpc2025::brute_force::BruteForce;
use icfpc2025::judge::{explore_plans, judge_guess};
use icfpc2025::problem::Problem;
use icfpc2025::problem_definition::ProblemDefinition;

fn definition(size: usize, max_plan_length: usize, label_rewritable: bool) -> ProblemDefinition {
    ProblemDefinition { name: "test".to_string(), size, max_plan_length, ploidy: 1, label_rewritable }
}

#[test]
fn survey_prefix_and_suffix() {
    let bf = BruteForce::new(definition(3, 20, false));
    let mut bf = bf;
    let plans = bf.next_plans().unwrap();
    // the starting room, then its six doors
    assert_eq!(plans.len(), 7);
    let suffix = plans[0].clone();
    assert_eq!(suffix.len(), 10);
    assert!(suffix.chars().all(|c| ('0'..='5').contains(&c)));
    for d in 0..6 {
        assert_eq!(plans[d + 1], format!("{}{}", d, suffix));
    }
}

#[test]
fn rewriting_survey_uses_a_prefix() {
    let mut bf = BruteForce::new(definition(3, 20, true));
    let plans = bf.next_plans().unwrap();
    let first = plans[0].clone();
    assert!(first.starts_with('['));
    assert_eq!(&first[2..3], "]");
    assert!(('0'..='3').contains(&first.chars().nth(1).unwrap()));
    assert_eq!(plans[1], format!("{}0{}", &first[0..3], &first[3..]));
}

#[test]
fn survey_rebuilds_a_small_map() {
    let problem = Problem::new(3, 20, 1, Some(5));
    let mut bf = BruteForce::new(definition(3, 20, false));
    let mut rounds = 0;
    while let Some(plans) = bf.next_plans() {
        let plans_ref: Vec<&str> = plans.iter().map(|p| p.as_str()).collect();
        let resp = explore_plans(&problem, &plans_ref).unwrap();
        bf.record(&resp.results).unwrap();
        rounds += 1;
        assert!(rounds < 10);
    }
    let map = bf.guess_map().unwrap();
    assert_eq!(map.rooms.len(), 3);
    assert_eq!(map.starting_room, 0);
    assert!(judge_guess(&problem, &map).unwrap().correct);
}

#[test]
fn survey_stops_on_bad_luck() {
    let mut bf = BruteForce::new(definition(3, 20, true));
    let plans = bf.next_plans().unwrap();
    let results: Vec<Vec<i8>> = plans.iter().map(|_| vec![0; 20]).collect();
    assert_eq!(bf.record(&results).unwrap_err(), "Bad luck!");
}
