use icfpc2025::label_observation::LabelObservation;
use icfpc2025::problem_definition::{ProblemDefinition, ProblemDefinitions};
use icfpc2025::sorting::reversed;
use icfpc2025::text::push_decimal;
use icfpc2025::union_find::Action;
use icfpc2025::walker::{door_digits, index_in};

fn def(name: &str, size: usize) -> ProblemDefinition {
    ProblemDefinition { name: name.to_string(), size, max_plan_length: 18 * size, ploidy: 1, label_rewritable: false }
}

#[test]
fn decimal_text() {
    let mut s = String::from("x");
    push_decimal(&mut s, 0);
    push_decimal(&mut s, 907);
    assert_eq!(s, "x0907");
}

#[test]
fn definitions_are_found_by_name() {
    let defs = ProblemDefinitions::new(vec![def("probatio", 3), def("primus", 6), def("probatio", 4)]);
    assert_eq!(defs.get("primus").unwrap().size, 6);
    assert_eq!(defs.get("probatio").unwrap().size, 4);
    assert!(defs.get("secundus").is_none());
}

#[test]
fn label_observation_counts_rooms_per_label() {
    let obs = LabelObservation::new(10);
    assert_eq!(obs.get_room_count(), &[3, 3, 2, 2]);
    assert_eq!(obs.get_size(0), 1);
    assert_eq!(obs.get_sum_size(), 4);
}

#[test]
fn label_observation_records_walks() {
    let mut obs = LabelObservation::new(4);
    obs.add_child(0, 1, 2);
    assert_eq!(obs.get_size(0), 1);
    assert!(obs.is_unique_1step(0, 1, 2));
    assert!(!obs.is_unique_1step(0, 1, 3));
    obs.add_child_2step(0, 1, 2, 3, 1);
    assert_eq!(obs.get_sum_size(), 4);
    assert!(obs.is_unique_2step(0, 1, 2, 3, 1));
}

#[test]
fn unique_paths_of_one_observation() {
    let mut obs = LabelObservation::new(4);
    obs.add_child(1, 4, 2);
    let paths = obs.get_unique_paths();
    let expected = Action::new(1, 4);
    assert!(paths
        .iter()
        .any(|(actions, dest)| actions.len() == 1 && *dest == 2 && actions[0].label == expected.label && actions[0].door == expected.door));
}

#[test]
fn doors_of_a_plan() {
    assert_eq!(door_digits(&"5021".to_string()), vec![5, 0, 2, 1]);
    assert_eq!(index_in(&vec![4, 7, 7], 7), Some(1));
    assert_eq!(index_in(&vec![4, 7, 7], 3), None);
    assert_eq!(reversed(&vec![1, 2, 3]), vec![3, 2, 1]);
}

#[test]
fn recording_a_two_step_walk_again_changes_nothing() {
    let mut obs = LabelObservation::new(4);
    obs.add_child_2step(0, 1, 2, 3, 1);
    let size = obs.get_size(0);
    let paths = obs.get_unique_paths().len();
    obs.add_child_2step(0, 1, 2, 3, 1);
    assert_eq!(obs.get_size(0), size);
    assert_eq!(obs.get_unique_paths().len(), paths);
    obs.add_child(0, 1, 2);
    assert_eq!(obs.get_size(0), size);
    assert_eq!(obs.get_unique_paths().len(), paths);
}
