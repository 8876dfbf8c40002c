use icfpc2025::problem::Problem;

fn parse_map(text: &str) -> (usize, Vec<Vec<usize>>) {
    let mut lines = text.lines();
    let first = lines.next().unwrap();
    let start: usize = first.trim_start_matches("Starting room: ").parse().unwrap();
    let mut conns = Vec::new();
    for line in lines {
        let (_, rest) = line.split_once(':').unwrap();
        let row: Vec<usize> = rest.split_whitespace().map(|x| x.parse().unwrap()).collect();
        conns.push(row);
    }
    (start, conns)
}

#[test]
fn same_seed_gives_same_map() {
    let a = Problem::new(6, 30, 1, Some(7));
    let b = Problem::new(6, 30, 1, Some(7));
    assert_eq!(a.pretty_print(), b.pretty_print());
}

#[test]
fn pretty_print_lists_every_room() {
    let p = Problem::new(5, 30, 1, Some(3));
    let text = p.pretty_print();
    assert!(text.starts_with("Starting room: "));
    let (start, conns) = parse_map(&text);
    assert!(start < 5);
    assert_eq!(conns.len(), 5);
    for (i, row) in conns.iter().enumerate() {
        assert_eq!(row.len(), 6);
        for &c in row {
            assert!(c < 5, "room {} leads outside the map", i);
        }
    }
}

#[test]
fn generated_doors_come_in_pairs() {
    let p = Problem::new(8, 30, 1, Some(11));
    let (_, conns) = parse_map(&p.pretty_print());
    for a in 0..conns.len() {
        for b in 0..conns.len() {
            let ab = conns[a].iter().filter(|&&x| x == b).count();
            let ba = conns[b].iter().filter(|&&x| x == a).count();
            assert_eq!(ab, ba);
        }
    }
}

#[test]
fn ploidy_copies_the_room_count() {
    let p = Problem::new(6, 30, 2, Some(5));
    let (start, conns) = parse_map(&p.pretty_print());
    assert_eq!(conns.len(), 6);
    assert!(start < 6);
}

#[test]
fn explore_empty_plan_sees_start_label() {
    let p = Problem::new(4, 10, 1, Some(1));
    let (start, _) = parse_map(&p.pretty_print());
    assert_eq!(p.explore("").unwrap(), vec![start]);
}

#[test]
fn explore_follows_doors() {
    let p = Problem::new(7, 10, 1, Some(2));
    let (start, conns) = parse_map(&p.pretty_print());
    let seen = p.explore("03").unwrap();
    let r1 = conns[start][0];
    let r2 = conns[r1][3];
    assert_eq!(seen, vec![start, r1, r2]);
}

#[test]
fn explore_rewrites_labels() {
    let p = Problem::new(7, 10, 1, Some(2));
    let (start, conns) = parse_map(&p.pretty_print());
    let seen = p.explore("[3]1").unwrap();
    let r1 = conns[start][1];
    let expected_r1 = if r1 == start { 3 } else { r1 };
    assert_eq!(seen, vec![start, 3, expected_r1]);
}

#[test]
fn explore_refuses_bad_characters() {
    let p = Problem::new(4, 10, 1, Some(1));
    assert_eq!(p.explore("06").unwrap_err(), "Invalid plan: 06");
    assert_eq!(p.explore("[4]").unwrap_err(), "Invalid plan: [4]");
    assert_eq!(p.explore("x").unwrap_err(), "Invalid plan: x");
}

#[test]
fn explore_refuses_long_plans() {
    let p = Problem::new(4, 2, 1, Some(1));
    assert!(p.explore("00").is_ok());
    assert_eq!(p.explore("000").unwrap_err(), "Plan length is too long: 3");
    assert!(p.explore("[1]00[2]").is_ok());
}

#[test]
fn guess_accepts_the_hidden_map() {
    let p = Problem::new(9, 30, 1, Some(21));
    let (start, conns) = parse_map(&p.pretty_print());
    let labels: Vec<i8> = (0..conns.len()).map(|i| (i % 4) as i8).collect();
    assert_eq!(p.guess(labels, start, conns), Ok(true));
}

#[test]
fn guess_rejects_a_changed_door() {
    let p = Problem::new(9, 30, 1, Some(21));
    let (start, mut conns) = parse_map(&p.pretty_print());
    let labels: Vec<i8> = (0..conns.len()).map(|i| (i % 4) as i8).collect();
    conns[start][0] = (conns[start][0] + 1) % conns.len();
    assert_eq!(p.guess(labels, start, conns), Ok(false));
}

#[test]
fn guess_rejects_wrong_labels_and_sizes() {
    let p = Problem::new(6, 30, 1, Some(4));
    let (start, conns) = parse_map(&p.pretty_print());
    let mut labels: Vec<i8> = (0..conns.len()).map(|i| (i % 4) as i8).collect();
    labels[start] = (labels[start] + 1) % 4;
    assert_eq!(p.guess(labels, start, conns.clone()), Ok(false));
    assert_eq!(p.guess(vec![0, 1, 2], 0, vec![vec![0; 6]; 3]), Ok(false));
}

#[test]
fn unseeded_problems_are_valid_maps() {
    let p = Problem::new(6, 30, 1, None);
    let (start, conns) = parse_map(&p.pretty_print());
    assert!(start < 6);
    assert!(conns.iter().all(|row| row.len() == 6 && row.iter().all(|&r| r < 6)));
}

#[test]
fn two_copies_keep_the_base_rooms() {
    let p = Problem::new(8, 30, 2, Some(31));
    let (_, conns) = parse_map(&p.pretty_print());
    assert_eq!(conns.len(), 8);
    for r in 0..4 {
        for d in 0..6 {
            assert_eq!(conns[r][d] % 4, conns[r + 4][d] % 4);
        }
    }
}

#[test]
fn folded_copies_form_a_connected_paired_map() {
    let p = Problem::new(12, 30, 3, Some(5));
    let (_, conns) = parse_map(&p.pretty_print());
    assert_eq!(conns.len(), 12);
    let s = 4;
    let folded: Vec<Vec<usize>> = (0..s).map(|r| conns[r].iter().map(|t| t % s).collect()).collect();
    for r in 0..12 {
        for d in 0..6 {
            assert_eq!(conns[r][d] % s, folded[r % s][d]);
        }
    }
    for a in 0..s {
        for b in 0..s {
            if a != b {
                let ab = folded[a].iter().filter(|&&t| t == b).count();
                let ba = folded[b].iter().filter(|&&t| t == a).count();
                assert_eq!(ab, ba);
            }
        }
    }
    let mut seen = vec![false; s];
    let mut stack = vec![0usize];
    seen[0] = true;
    while let Some(r) = stack.pop() {
        for &t in &folded[r] {
            if !seen[t] {
                seen[t] = true;
                stack.push(t);
            }
        }
    }
    assert!(seen.iter().all(|&v| v));
}

#[test]
fn rewired_copies_keep_every_door_paired() {
    for seed in 0..4u64 {
        let p = Problem::new(12, 30, 3, Some(seed));
        let (_, conns) = parse_map(&p.pretty_print());
        for a in 0..12 {
            for b in 0..12 {
                if a != b {
                    let ab = conns[a].iter().filter(|&&t| t == b).count();
                    let ba = conns[b].iter().filter(|&&t| t == a).count();
                    assert_eq!(ab, ba);
                }
            }
        }
    }
}

#[test]
fn a_prefix_of_a_plan_sees_the_beginning() {
    let p = Problem::new(6, 60, 1, Some(3));
    let plan = "0123450[2]31";
    let whole = p.explore(plan).unwrap();
    for k in 0..=plan.len() {
        let part = p.explore(&plan[..k]).unwrap();
        assert!(part.len() <= whole.len());
        assert_eq!(&whole[..part.len()], &part[..]);
    }
}

#[test]
fn a_guess_starting_outside_the_map_is_wrong() {
    let p = Problem::new(4, 20, 1, Some(9));
    let (start, conns) = parse_map(&p.pretty_print());
    let labels: Vec<i8> = (0..4).map(|i| (i % 4) as i8).collect();
    assert_eq!(p.guess(labels.clone(), start, conns.clone()), Ok(true));
    assert_eq!(p.guess(labels, 4, conns), Ok(false));
}
