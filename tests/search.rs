use npuzzle::astar::solve;
use npuzzle::grid::{Flag, Move};
use npuzzle::astar_iterative_limited::{next_step, node_limit, Tuning};
use npuzzle::astar_iterative_deepening::find_path;
use npuzzle::heuristic::Heuristic;
use npuzzle::node::Node;
use npuzzle::solver::Solver;

fn flag() -> Flag {
    Flag { verbosity: false, debug: false, greedy: false, uniform: false }
}

fn classic3() -> Vec<usize> {
    vec![1, 2, 3, 4, 5, 6, 7, 8, 0]
}

#[test]
fn one_move_from_goal() {
    let solver = Solver::new(classic3(), 3, "manhattan", flag());
    let sol = solve(vec![1, 2, 3, 4, 5, 6, 7, 0, 8], &solver, 1000, 0).unwrap();
    assert_eq!(sol.moves, 1);
    assert_eq!(sol.path.len(), 2);
    assert_eq!(sol.path[0].map, vec![1, 2, 3, 4, 5, 6, 7, 0, 8]);
    assert_eq!(sol.path[0].movement, Move::No);
    assert_eq!(sol.path[1].map, classic3());
    assert_eq!(sol.path[1].movement, Move::Right(1));
}

#[test]
fn start_is_goal() {
    let solver = Solver::new(classic3(), 3, "manhattan", flag());
    let sol = solve(classic3(), &solver, 1000, 0).unwrap();
    assert_eq!(sol.moves, 0);
    assert_eq!(sol.path.len(), 1);
    assert_eq!(sol.selected, 1);
    assert_eq!(sol.pending, 0);
}

#[test]
fn ida_one_move() {
    let solver = Solver::new(classic3(), 3, "manhattan", flag());
    let sol = npuzzle::astar_iterative_deepening::solve(vec![1, 2, 3, 4, 5, 6, 7, 0, 8], solver)
        .unwrap();
    assert_eq!(sol.moves, 1);
    assert_eq!(sol.path[1].map, classic3());
}

#[test]
fn iterative_one_move() {
    let solver = Solver::new(classic3(), 3, "conflict", flag());
    let sol = npuzzle::astar_iterative::solve(vec![1, 2, 3, 4, 5, 6, 7, 0, 8], &solver).unwrap();
    assert_eq!(sol.moves, 1);
    assert_eq!(sol.path[0].map, vec![1, 2, 3, 4, 5, 6, 7, 0, 8]);
    assert_eq!(sol.path[1].map, classic3());
}

fn check_path(sol: &npuzzle::astar::Solution, start: &Vec<usize>, goal: &Vec<usize>) {
    assert_eq!(&sol.path[0].map, start);
    assert_eq!(&sol.path[sol.path.len() - 1].map, goal);
    assert_eq!(sol.moves + 1, sol.path.len());
    for w in sol.path.windows(2) {
        let a = &w[0].map;
        let b = &w[1].map;
        let diff: Vec<usize> = (0..a.len()).filter(|&i| a[i] != b[i]).collect();
        assert_eq!(diff.len(), 2);
        assert!(a[diff[0]] == 0 || a[diff[1]] == 0);
        assert_eq!(a[diff[0]], b[diff[1]]);
        assert_eq!(a[diff[1]], b[diff[0]]);
    }
}

#[test]
fn optimal_paths_agree() {
    let start: Vec<usize> = vec![4, 1, 3, 7, 2, 6, 0, 5, 8];
    let goal = classic3();
    let mut lengths = Vec::new();
    for name in ["manhattan", "misplaced", "axes", "conflict"].iter() {
        let solver = Solver::new(goal.clone(), 3, name, flag());
        let sol = solve(start.clone(), &solver, 100000, 0).unwrap();
        check_path(&sol, &start, &goal);
        lengths.push(sol.moves);
        let sol = npuzzle::astar_iterative_deepening::solve(start.clone(), Solver::new(goal.clone(), 3, name, flag())).unwrap();
        check_path(&sol, &start, &goal);
        lengths.push(sol.moves);
    }
    assert!(lengths.iter().all(|&l| l == 6));
}

#[test]
fn policies_reach_the_goal() {
    let start: Vec<usize> = vec![1, 2, 3, 4, 0, 6, 7, 5, 8];
    let goal = classic3();
    let greedy = Flag { verbosity: false, debug: false, greedy: true, uniform: false };
    let uniform = Flag { verbosity: false, debug: false, greedy: false, uniform: true };
    let sol = solve(start.clone(), &Solver::new(goal.clone(), 3, "manhattan", greedy), 100000, 0).unwrap();
    check_path(&sol, &start, &goal);
    let sol = solve(start.clone(), &Solver::new(goal.clone(), 3, "manhattan", uniform), 100000, 0).unwrap();
    check_path(&sol, &start, &goal);
    assert_eq!(sol.moves, 2);
    let sol = npuzzle::algorithm::astar(start.clone(), &Solver::new(goal.clone(), 3, "manhattan", flag()), 100000).unwrap();
    check_path(&sol, &start, &goal);
    assert_eq!(sol.moves, 2);
    let sol = npuzzle::astar_iterative::solve(start.clone(), &Solver::new(goal.clone(), 3, "misplaced", flag())).unwrap();
    check_path(&sol, &start, &goal);
}

#[test]
fn expansion_limit_is_reported() {
    let solver = Solver::new(classic3(), 3, "manhattan", flag());
    let r = solve(vec![8, 6, 7, 2, 5, 4, 3, 0, 1], &solver, 3, 0);
    assert_eq!(r.err(), Some(npuzzle::astar::SearchError::LimitReached(3)));
}

#[test]
fn capacity_policy() {
    assert_eq!(npuzzle::algorithm::open_capacity(0, Heuristic::Manhattan), 1 << 16);
    assert_eq!(npuzzle::algorithm::open_capacity(16, Heuristic::Manhattan), 1 << 18);
    assert_eq!(npuzzle::algorithm::open_capacity(16, Heuristic::LinearConflict), 1 << 16);
    assert_eq!(npuzzle::algorithm::open_capacity(1000, Heuristic::Manhattan), 1 << 24);
}

#[test]
fn best_node_and_adaptive_variants() {
    let start: Vec<usize> = vec![4, 1, 3, 7, 2, 6, 0, 5, 8];
    let goal = classic3();
    let solver = Solver::new(goal.clone(), 3, "manhattan", flag());
    let sol = npuzzle::astar_genetic::solve(start.clone(), &solver).unwrap();
    check_path(&sol, &start, &goal);
    let tuning = npuzzle::astar_iterative_limited::Tuning::standard();
    let sol = npuzzle::astar_iterative_limited::solve(start.clone(), &solver, tuning).unwrap();
    check_path(&sol, &start, &goal);
}

#[test]
fn adaptive_decisions() {
    let t = Tuning::standard();
    assert_eq!(node_limit(10), 1000);
    assert_eq!(node_limit(60), 3000);
    assert_eq!(node_limit(600), 10000);
    let s = next_step(10, 5, 7, 100, 3, t);
    assert_eq!((s.nextgen_nodes, s.restart, s.no_change_iter), (10, false, 3));
    let s = next_step(200, 5, 7, 100, 3, t);
    assert_eq!((s.nextgen_nodes, s.restart, s.no_change_iter), (100, false, 0));
    let s = next_step(200, 7, 7, 100, 3, t);
    assert_eq!((s.nextgen_nodes, s.restart, s.no_change_iter), (100, false, 4));
    let s = next_step(200, 7, 7, 100, 75, t);
    assert_eq!((s.nextgen_nodes, s.restart, s.no_change_iter), (1, true, 0));
}

#[test]
fn small_open_set_still_solves_short_puzzle() {
    let start: Vec<usize> = vec![1, 2, 3, 4, 0, 6, 7, 5, 8];
    let solver = Solver::new(classic3(), 3, "manhattan", flag());
    let sol = solve(start.clone(), &solver, 1000, 8).unwrap();
    check_path(&sol, &start, &classic3());
    assert_eq!(sol.moves, 2);
    assert!(sol.pending <= 8);
}

#[test]
fn counts_add_up() {
    let start: Vec<usize> = vec![4, 1, 3, 7, 2, 6, 0, 5, 8];
    let solver = Solver::new(classic3(), 3, "manhattan", flag());
    let sol = solve(start, &solver, 100000, 0).unwrap();
    assert_eq!(sol.total, sol.selected + sol.pending);
    assert!(sol.selected >= 1);
}

#[test]
fn ida_goal_node_costs_no_expansion() {
    let solver = Solver::new(classic3(), 3, "manhattan", flag());
    let mut node = Node::new(classic3());
    node.find_position(3);
    let node = solver.get_cost(node);
    let r = find_path(&node, 0, 5, &solver);
    assert_eq!(r.path.map(|p| p.len()), Some(0));
    assert_eq!(r.expanded, 0);
    let mut far = Node::new(vec![4, 1, 3, 7, 2, 6, 0, 5, 8]);
    far.find_position(3);
    let far = solver.get_cost(far);
    let r = find_path(&far, 0, 2, &solver);
    assert!(r.path.is_none());
    assert_eq!(r.bound, far.f);
    assert_eq!(r.expanded, 0);
}

#[test]
fn other_searches_accept_solved_start() {
    let solver = Solver::new(classic3(), 3, "manhattan", flag());
    assert_eq!(npuzzle::astar_iterative::solve(classic3(), &solver).unwrap().moves, 0);
    assert_eq!(npuzzle::astar_genetic::solve(classic3(), &solver).unwrap().moves, 0);
    let tuning = Tuning::standard();
    assert_eq!(npuzzle::astar_iterative_limited::solve(classic3(), &solver, tuning).unwrap().moves, 0);
    let ida = npuzzle::astar_iterative_deepening::solve(classic3(), Solver::new(classic3(), 3, "manhattan", flag()));
    assert_eq!(ida.unwrap().moves, 0);
}

#[test]
fn ida_goal_best_estimate() {
    let solver = Solver::new(classic3(), 3, "manhattan", flag());
    let mut node = Node::new(classic3());
    node.find_position(3);
    let node = solver.get_cost(node);
    assert_eq!(find_path(&node, 0, 5, &solver).best_h, 0);
}
