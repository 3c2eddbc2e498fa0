use max_diversity::branch_and_bound::{search, BranchAndBound, DeepBranchAndBound, NodeSelection};
use std::collections::VecDeque;
use max_diversity::center::calculate_center;
use max_diversity::grasp::GRASP;
use max_diversity::greedy::{get_furthest_point, GreedySolver};
use max_diversity::instance::ProblemInstance;
use max_diversity::local_search::{LocalSearch, Swap};
use max_diversity::partial_solution::PartialSolution;
use max_diversity::point::Point;
use max_diversity::randomized_greedy::{get_farther_points_indexes, RandomizedGreedySolver};
use max_diversity::solution::ProblemSolution;
use max_diversity::solver::ProblemSolver;
use max_diversity::tabu_search::TabuSearch;

fn pt(c: &[i64]) -> Point {
    Point::new(c.to_vec())
}

fn square() -> Vec<Point> {
    vec![pt(&[0, 0]), pt(&[2, 0]), pt(&[0, 2]), pt(&[2, 2])]
}

/// Distinct points from a small linear congruential sequence.
fn scattered(n: usize, seed: u64) -> ProblemInstance {
    let mut state = seed;
    let mut points: Vec<Point> = Vec::new();
    while points.len() < n {
        state = state.wrapping_mul(6364136223846793005).wrapping_add(1442695040888963407);
        let x = ((state >> 33) % 1000) as i64;
        state = state.wrapping_mul(6364136223846793005).wrapping_add(1442695040888963407);
        let y = ((state >> 33) % 1000) as i64;
        let p = pt(&[x, y]);
        if !points.contains(&p) {
            points.push(p);
        }
    }
    ProblemInstance::from_points(points, 2).unwrap()
}

fn z_of(inst: &ProblemInstance, idx: &[usize]) -> u64 {
    ProblemSolution::new(idx.iter().map(|&i| inst.points()[i].clone()).collect()).get_z()
}

/// Every ascending choice of `m` positions out of `0..n` that extends `prefix`.
fn subsets_from(n: usize, m: usize, prefix: Vec<usize>, out: &mut Vec<Vec<usize>>) {
    if prefix.len() == m {
        out.push(prefix);
        return;
    }
    let start = prefix.last().map(|&l| l + 1).unwrap_or(0);
    for c in start..n {
        let mut next = prefix.clone();
        next.push(c);
        subsets_from(n, m, next, out);
    }
}

fn brute_force(inst: &ProblemInstance, m: usize) -> u64 {
    let mut all = Vec::new();
    subsets_from(inst.len(), m, vec![], &mut all);
    all.iter().map(|s| z_of(inst, s)).max().unwrap()
}

fn is_selection(inst: &ProblemInstance, s: &ProblemSolution, m: usize) -> bool {
    let pts = s.get_points();
    if pts.len() != m {
        return false;
    }
    for (i, p) in pts.iter().enumerate() {
        if !inst.points().contains(p) || pts[i + 1..].contains(p) {
            return false;
        }
    }
    true
}

#[test]
fn greedy_solver_center() {
    // coordinate sums of four points: the centroid is (4 / 4, 4 / 4) = (1, 1)
    let center = calculate_center(&square(), 2);
    assert_eq!((center[0], center[1]), (4, 4));
}

#[test]
fn greedy_solver_furthest_point() {
    let mut points = vec![pt(&[0, 0]), pt(&[3, 0]), pt(&[1, 2]), pt(&[2, 2])];
    let point = get_furthest_point(&mut points, &vec![1, 1], 1, 2);
    assert_eq!((point.coordinates[0], point.coordinates[1]), (3, 0));
    assert_eq!(points.len(), 3);
}

#[test]
fn randomized_greedy_solver_center() {
    let center = calculate_center(&square(), 2);
    assert_eq!((center[0], center[1]), (4, 4));
}

#[test]
fn randomized_greedy_solver_furthest_point() {
    let points = vec![pt(&[0, 0]), pt(&[3, 0]), pt(&[1, 2]), pt(&[2, 3])];
    let indexes = get_farther_points_indexes(&points, &vec![1, 1], 1, 2);
    assert_eq!(indexes, vec![1, 3]);
}

#[test]
fn farther_points_are_capped_by_the_available_points() {
    let points = vec![pt(&[0, 0]), pt(&[3, 0])];
    let indexes = get_farther_points_indexes(&points, &vec![1, 1], 1, 5);
    assert_eq!(indexes, vec![1, 0]);
}

#[test]
fn greedy_on_square_corners() {
    let corners = vec![pt(&[0, 0]), pt(&[2000, 0]), pt(&[0, 2000]), pt(&[2000, 2000])];
    let inst = ProblemInstance::from_points(corners, 2).unwrap();
    let mut solver = GreedySolver::new(2);
    let solution = solver.solve(&inst);
    assert_eq!(solution.get_points(), &vec![pt(&[0, 0]), pt(&[2000, 2000])]);
    assert_eq!(solution.get_z(), 2828);
}

#[test]
fn greedy_returns_distinct_instance_points() {
    let inst = scattered(12, 7);
    for m in 0..=12 {
        let mut solver = GreedySolver::new(m);
        let solution = solver.solve(&inst);
        assert!(is_selection(&inst, &solution, m));
    }
}

#[test]
fn randomized_greedy_returns_distinct_instance_points() {
    let inst = scattered(12, 11);
    for m in 1..=12 {
        let mut solver = RandomizedGreedySolver::new(m, 3);
        let solution = solver.solve(&inst);
        assert!(is_selection(&inst, &solution, m));
    }
}

#[test]
fn swap_reaches_a_local_optimum() {
    let inst = scattered(9, 3);
    let start = GreedySolver::new(3).construct(&inst);
    let improved = Swap::new().improve(&inst, start.duplicate());
    assert!(improved.get_z() >= start.get_z());
    assert!(is_selection(&inst, &improved, 3));
    // no single swap does better
    let pts = improved.get_points();
    for i in 0..pts.len() {
        for p in inst.points() {
            if pts.contains(p) {
                continue;
            }
            let mut other = pts.clone();
            other.remove(i);
            other.push(p.clone());
            assert!(ProblemSolution::new(other).get_z() <= improved.get_z());
        }
    }
}

#[test]
fn swap_search_takes_the_best_neighbour() {
    let inst = ProblemInstance::from_points(vec![pt(&[0, 0]), pt(&[1, 0]), pt(&[10, 0])], 2).unwrap();
    let start = ProblemSolution::new(vec![pt(&[0, 0]), pt(&[1, 0])]);
    let next = Swap::new().perform_search(&inst, start);
    // replacing (0,0) by (10,0) gives 9, replacing (1,0) gives 10
    assert_eq!(next.get_points(), &vec![pt(&[0, 0]), pt(&[10, 0])]);
    assert_eq!(next.get_z(), 10);
}

#[test]
fn grasp_returns_a_local_optimum_of_the_right_size() {
    let inst = scattered(10, 5);
    let mut solver = GRASP::new(3, 2, Swap::new(), 4);
    let solution = solver.solve(&inst);
    assert!(is_selection(&inst, &solution, 3));
    assert!(solution.get_z() <= brute_force(&inst, 3));
}

#[test]
fn tabu_search_never_loses_its_seed() {
    let inst = scattered(10, 13);
    let tabu = TabuSearch::new(3, 2, 2, 5);
    let seed = GreedySolver::new(3).construct(&inst);
    let walked = tabu.perform_search(&inst, seed.duplicate());
    assert!(walked.get_z() >= seed.get_z());
    assert!(is_selection(&inst, &walked, 3));
    let mut solver = TabuSearch::new(3, 2, 2, 5);
    let solution = solver.solve(&inst);
    assert!(is_selection(&inst, &solution, 3));
    assert!(solution.get_z() <= brute_force(&inst, 3));
}

#[test]
fn branch_and_bound_finds_the_optimum() {
    for seed in 1..4u64 {
        let inst = scattered(8, seed);
        for m in 1..=4 {
            let optimum = brute_force(&inst, m);
            let mut greedy = GreedySolver::new(m);
            let greedy_z = greedy.construct(&inst).get_z();
            let mut search = BranchAndBound::new(&mut greedy);
            let solution = search.solve(&inst);
            assert!(is_selection(&inst, &solution, m));
            assert!(solution.get_z() >= greedy_z);
            assert_eq!(solution.get_z(), optimum);
            assert!(search.get_generated_nodes() > 0 || greedy_z == optimum);
        }
    }
}

#[test]
fn deep_branch_and_bound_finds_the_optimum() {
    for seed in 4..7u64 {
        let inst = scattered(8, seed);
        for m in 1..=4 {
            let optimum = brute_force(&inst, m);
            let mut greedy = GreedySolver::new(m);
            let greedy_z = greedy.construct(&inst).get_z();
            let mut search = DeepBranchAndBound::new(&mut greedy);
            let solution = search.solve(&inst);
            assert!(is_selection(&inst, &solution, m));
            assert!(solution.get_z() >= greedy_z);
            assert_eq!(solution.get_z(), optimum);
        }
    }
}

#[test]
fn upper_bound_is_admissible() {
    let inst = scattered(10, 21);
    let n = inst.len();
    for m in 1..=4 {
        for k in 0..m {
            let mut nodes = Vec::new();
            subsets_from(n, k, vec![], &mut nodes);
            for node in nodes {
                if node.iter().enumerate().any(|(t, &c)| c > n - m + t) {
                    continue;
                }
                let bound = PartialSolution::new(node.clone(), &inst, m).upper_bound;
                let mut completions = Vec::new();
                subsets_from(n, m, node.clone(), &mut completions);
                for c in completions {
                    assert!(bound >= z_of(&inst, &c));
                }
            }
        }
    }
}

#[test]
fn complete_node_bound_is_its_z() {
    let inst = scattered(6, 2);
    let node = PartialSolution::new(vec![0, 2, 5], &inst, 3);
    assert_eq!(node.upper_bound, z_of(&inst, &[0, 2, 5]));
}

#[test]
fn tabu_steps_never_lower_the_best() {
    let inst = scattered(10, 17);
    let tabu = TabuSearch::new(3, 2, 1, 5);
    let mut actual = GreedySolver::new(3).construct(&inst);
    let mut best = actual.duplicate();
    let mut best_z = best.get_z();
    let mut memory: VecDeque<Point> = VecDeque::new();
    for _ in 0..20 {
        let before = best_z;
        let improved = tabu.tabu_step(&inst, &mut actual, &mut best, &mut best_z, &mut memory);
        assert!(best_z >= before);
        assert_eq!(improved, best_z > before);
        assert_eq!(best.get_z(), best_z);
        assert!(memory.len() <= 3);
        assert!(is_selection(&inst, &actual, 3));
    }
}

#[test]
fn search_from_a_poor_seed_finds_the_optimum() {
    let inst = scattered(7, 9);
    let optimum = brute_force(&inst, 3);
    let seed = ProblemSolution::new(vec![
        inst.points()[0].clone(),
        inst.points()[1].clone(),
        inst.points()[2].clone(),
    ]);
    for selection in [NodeSelection::SmallestBound, NodeSelection::Deepest] {
        let mut generated: usize = 0;
        let found = search(&inst, seed.duplicate(), selection, &mut generated);
        assert_eq!(found.get_z(), optimum);
        assert!(generated > 0);
    }
}

#[test]
fn square_corners_scenario_without_scaling() {
    // (0,0),(2,0),(0,2),(2,2): all corners are equally far from (1,1), so the
    // first one is kept; (2,2) is then the farthest, at 2 * sqrt(2), rounded down
    let inst = ProblemInstance::from_points(square(), 2).unwrap();
    let solution = GreedySolver::new(2).construct(&inst);
    assert_eq!(solution.get_points(), &vec![pt(&[0, 0]), pt(&[2, 2])]);
    assert_eq!(solution.get_z(), 2);
}

#[test]
fn zero_draws_follow_the_greedy_choice() {
    let inst = scattered(11, 23);
    for m in 1..=5 {
        let randomized = RandomizedGreedySolver::new(m, 3).construct_from_draws(&inst, &vec![0; m]);
        let greedy = GreedySolver::new(m).construct(&inst);
        assert_eq!(randomized.get_points(), greedy.get_points());
    }
}

#[test]
fn draws_pick_within_the_candidate_list() {
    // centroid of all four is (1,1), all at equal distance: the list keeps
    // instance order; draw 1 takes the second, (2,0); then (0,2) is farthest
    let inst = ProblemInstance::from_points(square(), 2).unwrap();
    let solution = RandomizedGreedySolver::new(2, 2).construct_from_draws(&inst, &vec![1, 0]);
    assert_eq!(solution.get_points(), &vec![pt(&[2, 0]), pt(&[0, 2])]);
}

#[test]
fn solution_text_form() {
    let s = ProblemSolution::new(vec![pt(&[0, 0]), pt(&[2000, -15])]);
    assert_eq!(s.to_text(), "{0, 0}, {2000, -15}");
    assert_eq!(ProblemSolution::new(vec![]).to_text(), "{}");
    assert_eq!(ProblemSolution::new(vec![pt(&[7])]).to_text(), "{7}");
}

#[test]
fn tabu_walk_with_no_patience_returns_its_start() {
    let inst = scattered(10, 29);
    let tabu = TabuSearch::new(3, 2, 1, 0);
    let seed = RandomizedGreedySolver::new(3, 3).construct(&inst);
    let walked = tabu.perform_search(&inst, seed.duplicate());
    assert_eq!(walked.get_points(), seed.get_points());
}

#[test]
fn improving_a_local_optimum_keeps_it() {
    let inst = scattered(9, 31);
    let first = Swap::new().improve(&inst, GreedySolver::new(3).construct(&inst));
    let again = Swap::new().improve(&inst, first.duplicate());
    assert_eq!(again.get_points(), first.get_points());
}

#[test]
fn single_candidate_list_is_greedy() {
    let inst = scattered(10, 37);
    for m in 1..=5 {
        let randomized = RandomizedGreedySolver::new(m, 1).solve(&inst);
        let greedy = GreedySolver::new(m).solve(&inst);
        assert_eq!(randomized.get_points(), greedy.get_points());
    }
}

#[test]
fn generated_nodes_cover_the_first_level() {
    let inst = scattered(8, 41);
    let mut greedy = GreedySolver::new(3);
    let mut search = BranchAndBound::new(&mut greedy);
    assert_eq!(search.get_generated_nodes(), 0);
    let _ = search.solve(&inst);
    assert!(search.get_generated_nodes() >= 8 - 3 + 1);
}

#[test]
fn generated_nodes_stay_within_the_bound() {
    for m in 1..=4usize {
        let inst = scattered(8, 43);
        let mut greedy = GreedySolver::new(m);
        let mut search = DeepBranchAndBound::new(&mut greedy);
        let solution = search.solve(&inst);
        assert_eq!(solution.get_points().len(), m);
        let cap = 8 - m + 1;
        assert!(search.get_generated_nodes() >= cap);
        assert!(search.get_generated_nodes() <= cap * (cap + 1).pow(m as u32));
    }
}

#[test]
fn both_searches_agree_on_z() {
    for seed in 1..4u64 {
        let inst = scattered(8, seed + 50);
        for m in 1..=4 {
            let mut g1 = GreedySolver::new(m);
            let mut g2 = GreedySolver::new(m);
            let a = BranchAndBound::new(&mut g1).solve(&inst);
            let b = DeepBranchAndBound::new(&mut g2).solve(&inst);
            assert_eq!(a.get_z(), b.get_z());
        }
    }
}

#[test]
fn reordering_points_keeps_z() {
    let a = ProblemSolution::new(vec![pt(&[0, 0]), pt(&[30, 40]), pt(&[60, 0]), pt(&[5, 9])]);
    let b = ProblemSolution::new(vec![pt(&[5, 9]), pt(&[60, 0]), pt(&[0, 0]), pt(&[30, 40])]);
    assert_eq!(a.get_z(), b.get_z());
}
