use ant_alg::ant::{Ant, MAX_SELECTION_ROUNDS};
use ant_alg::graph::{apply_steps, build_graph, check_input, gen_graph, InputError, CLOSING_WEIGHT};
use ant_alg::tour::BestTour;
use rand::Rng;

fn ring4() -> Vec<Vec<u64>> {
    vec![
        vec![0, 1, 0, 1],
        vec![1, 0, 1, 0],
        vec![0, 1, 0, 1],
        vec![1, 0, 1, 0],
    ]
}

fn reachable_from_zero(g: &Vec<Vec<u64>>) -> Vec<bool> {
    let n = g.len();
    let mut seen = vec![false; n];
    let mut stack = vec![0usize];
    seen[0] = true;
    while let Some(u) = stack.pop() {
        for v in 0..n {
            if g[u][v] != 0 && !seen[v] {
                seen[v] = true;
                stack.push(v);
            }
        }
    }
    seen
}

/// Walks the ant to the end, each move drawn uniformly among the candidates.
fn walk_randomly(ant: &mut Ant, start: usize, targets: &Vec<usize>, g: &Vec<Vec<u64>>) {
    let mut rng = rand::thread_rng();
    ant.start(start, g);
    while !ant.is_finished(targets) {
        let c = ant.candidates(g);
        if c.is_empty() {
            ant.reject_round();
        } else {
            let k = rng.gen_range(0, c.len());
            ant.advance(c[k], g);
        }
    }
}

/// Runs rounds of ants that draw their moves uniformly, keeping the best tour.
fn search(g: &Vec<Vec<u64>>, start: usize, targets: &Vec<usize>, ants: usize, rounds: usize) -> BestTour {
    let mut best = BestTour::new();
    let mut pool: Vec<Ant> = (0..ants).map(|_| Ant::new()).collect();
    for _ in 0..rounds {
        for ant in pool.iter_mut() {
            walk_randomly(ant, start, targets, g);
        }
        for ant in pool.iter() {
            best.offer(ant, targets);
        }
        for ant in pool.iter_mut() {
            ant.reset();
        }
    }
    best
}

#[test]
fn generated_graphs_are_connected() {
    for &n in &[2usize, 3, 5, 20, 100] {
        let g = gen_graph(n, n * 3, 10);
        assert_eq!(g.len(), n);
        for i in 0..n {
            assert_eq!(g[i].len(), n);
            assert_eq!(g[i][i], 0);
            for j in 0..n {
                assert_eq!(g[i][j], g[j][i]);
                let w = g[i][j];
                assert!(w == 0 || (1..=10).contains(&w) || w == CLOSING_WEIGHT);
            }
        }
        assert!(reachable_from_zero(&g).iter().all(|&r| r));
    }
}

#[test]
fn generated_weights_stay_within_bounds() {
    for _ in 0..50 {
        let g = gen_graph(2, 4, 3);
        assert!(g[0][1] >= 1 && g[0][1] <= CLOSING_WEIGHT);
        assert_eq!(g[0][0], 0);
        assert_eq!(g[1][1], 0);
    }
    let mut seen = vec![false; 4];
    for _ in 0..200 {
        let g = gen_graph(3, 0, 3);
        for i in 0..3 {
            for j in 0..3 {
                let w = g[i][j] as usize;
                if w >= 1 && w <= 3 {
                    seen[w] = true;
                }
            }
        }
    }
    assert!(seen[1] && seen[2] && seen[3]);
}

#[test]
fn input_checks_name_each_fault() {
    let g = ring4();
    assert_eq!(check_input(&g, 0, &vec![0, 1, 2, 3]), Ok(()));
    let ragged = vec![vec![0, 1], vec![1]];
    assert_eq!(check_input(&ragged, 0, &vec![0]), Err(InputError::NotSquare));
    assert_eq!(check_input(&g, 0, &vec![]), Err(InputError::NoTargets));
    assert_eq!(check_input(&g, 4, &vec![0]), Err(InputError::StartOutOfRange));
    assert_eq!(check_input(&g, 0, &vec![0, 7]), Err(InputError::TargetOutOfRange));
    assert_eq!(check_input(&ragged, 9, &vec![]), Err(InputError::NotSquare));
}

#[test]
fn candidates_skip_missing_edges_and_the_previous_node() {
    let g = vec![
        vec![0, 2, 0, 5],
        vec![2, 0, 3, 4],
        vec![0, 3, 0, 0],
        vec![5, 4, 0, 0],
    ];
    let mut ant = Ant::new();
    ant.start(0, &g);
    assert_eq!(ant.path(), &vec![0]);
    assert_eq!(ant.candidates(&g), vec![1, 3]);
    ant.advance(1, &g);
    assert_eq!(ant.candidates(&g), vec![2, 3]);
    ant.advance(2, &g);
    assert_eq!(ant.candidates(&g), Vec::<usize>::new());
    assert_eq!(ant.total_way(), 5);
}

#[test]
fn trail_follows_the_walk_and_adds_up_to_its_length() {
    let g = vec![
        vec![0, 2, 0, 5],
        vec![2, 0, 3, 4],
        vec![0, 3, 0, 0],
        vec![5, 4, 0, 0],
    ];
    let mut ant = Ant::new();
    ant.start(0, &g);
    ant.advance(1, &g);
    ant.advance(3, &g);
    ant.advance(0, &g);
    let targets = vec![0, 1, 3];
    assert!(ant.is_finished(&targets));
    assert!(!ant.is_stuck());
    assert_eq!(ant.total_way(), 11);
    let trail = ant.pheromone_trail();
    assert_eq!(trail, vec![(0, 1), (1, 3), (3, 0)]);
    let sum: u64 = trail.iter().map(|&(u, v)| g[u][v]).sum();
    assert_eq!(sum, ant.total_way());
    let tour = ant.tour(&targets).unwrap();
    assert_eq!(tour.path, vec![0, 1, 3, 0]);
    assert_eq!(tour.length, 11);
}

#[test]
fn walk_is_not_finished_before_returning_to_start() {
    let g = ring4();
    let targets = vec![0, 1, 2, 3];
    let mut ant = Ant::new();
    ant.start(0, &g);
    assert!(!ant.is_finished(&targets));
    ant.advance(1, &g);
    ant.advance(2, &g);
    ant.advance(3, &g);
    assert!(!ant.is_finished(&targets));
    assert!(ant.tour(&targets).is_none());
    ant.advance(0, &g);
    assert!(ant.is_finished(&targets));
}

#[test]
fn only_the_start_as_target_closes_at_once() {
    let g = ring4();
    let mut ant = Ant::new();
    ant.start(2, &g);
    let targets = vec![2];
    assert!(ant.is_finished(&targets));
    let tour = ant.tour(&targets).unwrap();
    assert_eq!(tour.path, vec![2]);
    assert_eq!(tour.length, 0);
}

#[test]
fn rejected_rounds_end_in_giving_up() {
    let g = ring4();
    let targets = vec![0, 2];
    let mut ant = Ant::new();
    ant.start(0, &g);
    for _ in 0..MAX_SELECTION_ROUNDS - 1 {
        ant.reject_round();
        assert!(!ant.is_stuck());
    }
    ant.reject_round();
    assert!(ant.is_stuck());
    assert!(ant.is_finished(&targets));
    assert!(ant.tour(&targets).is_none());
    assert!(ant.pheromone_trail().is_empty());
}

#[test]
fn a_move_resets_the_rejected_rounds() {
    let g = ring4();
    let mut ant = Ant::new();
    ant.start(0, &g);
    for _ in 0..MAX_SELECTION_ROUNDS - 1 {
        ant.reject_round();
    }
    ant.advance(1, &g);
    ant.reject_round();
    assert!(!ant.is_stuck());
}

#[test]
fn blocked_ant_gives_up_and_leaves_no_trail() {
    let g = ring4();
    let mut ant = Ant::new();
    ant.start(0, &g);
    ant.advance(1, &g);
    ant.block();
    assert!(ant.is_stuck());
    assert_eq!(ant.path(), &vec![0, 1]);
    assert!(ant.pheromone_trail().is_empty());
    ant.reset();
    assert!(!ant.is_stuck());
    assert!(ant.path().is_empty());
    assert_eq!(ant.total_way(), 0);
}

#[test]
fn length_overflow_makes_the_ant_give_up() {
    let big = u64::MAX / 2 + 1;
    let g = vec![vec![0, big, big], vec![big, 0, big], vec![big, big, 0]];
    let mut ant = Ant::new();
    ant.start(0, &g);
    ant.advance(1, &g);
    assert!(!ant.is_stuck());
    ant.advance(2, &g);
    assert!(ant.is_stuck());
    assert_eq!(ant.path(), &vec![0, 1]);
    assert_eq!(ant.total_way(), big);
}

#[test]
fn ring_search_finds_the_whole_ring() {
    let g = ring4();
    let targets = vec![0, 1, 2, 3];
    let best = search(&g, 0, &targets, 5, 20);
    assert_eq!(best.length(), Some(4));
    let tour = best.into_tour().unwrap();
    assert_eq!(tour.length, 4);
    assert_eq!(tour.path.len(), 5);
    assert_eq!(tour.path[0], 0);
    assert_eq!(tour.path[4], 0);
}

#[test]
fn unreachable_target_leaves_no_tour() {
    let g = vec![
        vec![0, 1, 1, 0],
        vec![1, 0, 1, 0],
        vec![1, 1, 0, 0],
        vec![0, 0, 0, 0],
    ];
    let targets = vec![0, 3];
    let mut ant = Ant::new();
    walk_randomly(&mut ant, 0, &targets, &g);
    assert!(ant.is_stuck());
    let best = search(&g, 0, &targets, 3, 2);
    assert_eq!(best.length(), None);
    assert!(best.into_tour().is_none());
}

#[test]
fn best_tour_keeps_the_first_of_equal_lengths() {
    let g = ring4();
    let targets = vec![0, 2];
    let mut a = Ant::new();
    a.start(0, &g);
    for v in [1, 2, 3, 0] {
        a.advance(v, &g);
    }
    let mut b = Ant::new();
    b.start(0, &g);
    for v in [3, 2, 1, 0] {
        b.advance(v, &g);
    }
    let mut best = BestTour::new();
    best.offer(&a, &targets);
    best.offer(&b, &targets);
    assert_eq!(best.into_tour().unwrap().path, vec![0, 1, 2, 3, 0]);
}

#[test]
fn best_length_does_not_depend_on_offer_order() {
    let g = vec![
        vec![0, 1, 2, 3],
        vec![1, 0, 1, 5],
        vec![2, 1, 0, 1],
        vec![3, 5, 1, 0],
    ];
    let targets = vec![0, 2];
    let walks: Vec<Vec<usize>> = vec![vec![1, 2, 3, 0], vec![2, 1, 0], vec![1, 3], vec![3, 2, 0]];
    let mut ants: Vec<Ant> = Vec::new();
    for w in &walks {
        let mut ant = Ant::new();
        ant.start(0, &g);
        for &v in w {
            ant.advance(v, &g);
        }
        ants.push(ant);
    }
    let mut forward = BestTour::new();
    for ant in ants.iter() {
        forward.offer(ant, &targets);
    }
    let mut backward = BestTour::new();
    for ant in ants.iter().rev() {
        backward.offer(ant, &targets);
    }
    assert_eq!(forward.length(), Some(4));
    assert_eq!(backward.length(), Some(4));
    assert_eq!(forward.into_tour().unwrap().path, vec![0, 2, 1, 0]);
}

#[test]
fn built_graph_keeps_the_last_weight_of_each_edge() {
    let g = build_graph(3, &vec![0, 1, 2, 1], &vec![4, 5, 6], 2);
    assert_eq!(g, vec![vec![0, 10, 10], vec![10, 0, 6], vec![10, 6, 0]]);
}

#[test]
fn built_graph_adds_no_loop_at_node_zero() {
    let g = build_graph(2, &vec![0, 1, 0], &vec![3, 7], 2);
    assert_eq!(g, vec![vec![0, 7], vec![7, 0]]);
}

#[test]
fn settings_from_a_node_to_itself_change_nothing() {
    let g = apply_steps(3, &vec![(0, 1, 2), (1, 1, 9), (1, 0, 5)]);
    assert_eq!(g, vec![vec![0, 5, 0], vec![5, 0, 0], vec![0, 0, 0]]);
}

#[test]
fn rejected_rounds_are_counted_one_by_one() {
    let g = ring4();
    let mut ant = Ant::new();
    ant.start(0, &g);
    for _ in 0..10 {
        ant.reject_round();
    }
    for _ in 0..MAX_SELECTION_ROUNDS - 11 {
        ant.reject_round();
    }
    assert!(!ant.is_stuck());
    ant.reject_round();
    assert!(ant.is_stuck());
}
