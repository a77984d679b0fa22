use npuzzle::astar::solve;
use npuzzle::checker::is_solvable;
use npuzzle::grid::Flag;
use npuzzle::heuristic::{linear_conflict, manhattan, misplaced_tiles, out_of_axes, Heuristic};
use npuzzle::node::Node;
use npuzzle::solver::Solver;

fn flag() -> Flag {
    Flag { verbosity: false, debug: false, greedy: false, uniform: false }
}

fn classic3() -> Vec<usize> {
    vec![1, 2, 3, 4, 5, 6, 7, 8, 0]
}

fn scored(solver: &Solver, map: Vec<usize>) -> Node {
    let mut node = Node::new(map);
    node.find_position(solver.size);
    solver.get_cost(node)
}

#[test]
fn incremental_matches_full() {
    let starts: Vec<Vec<usize>> = vec![
        vec![3, 8, 1, 6, 4, 5, 0, 2, 7],
        vec![4, 1, 3, 7, 2, 6, 0, 5, 8],
        vec![8, 7, 6, 5, 0, 4, 3, 2, 1],
    ];
    for name in ["manhattan", "misplaced", "axes", "conflict"].iter() {
        let solver = Solver::new(classic3(), 3, name, flag());
        for start in starts.iter() {
            let parent = scored(&solver, start.clone());
            for child in parent.generate_moves(3) {
                let map = child.map.clone();
                let updated = solver.update_cost(child);
                let full = scored(&solver, map);
                assert_eq!(updated.h, full.h, "heuristic {}", name);
                assert_eq!(updated.cost, full.cost, "heuristic {}", name);
                assert_eq!(updated.f, full.f - full.g + updated.g);
            }
        }
    }
}

#[test]
fn incremental_matches_full_4x4() {
    let goal: Vec<usize> = vec![1, 2, 3, 4, 5, 6, 7, 8, 9, 10, 11, 12, 13, 14, 15, 0];
    let start: Vec<usize> = vec![4, 1, 15, 2, 6, 8, 5, 7, 12, 9, 3, 10, 14, 13, 11, 0];
    let solver = Solver::new(goal, 4, "conflict", flag());
    let parent = scored(&solver, start);
    assert_eq!(parent.h, 46);
    for child in parent.generate_moves(4) {
        let map = child.map.clone();
        let updated = solver.update_cost(child);
        assert_eq!(updated.h, scored(&solver, map).h);
    }
}

#[test]
fn heuristics_are_ordered() {
    let end: Vec<usize> = vec![8, 0, 1, 2, 3, 4, 5, 6, 7];
    for map in [vec![3, 8, 1, 6, 4, 5, 0, 2, 7], vec![2, 1, 8, 4, 6, 5, 7, 3, 0], classic3()].iter() {
        let lc = linear_conflict(Node::new(map.clone()), &end, 3).h;
        let man = manhattan(Node::new(map.clone()), &end, 3).h;
        let axes = out_of_axes(Node::new(map.clone()), &end, 3).h;
        let mis = misplaced_tiles(Node::new(map.clone()), &end, 3).h;
        assert!(lc >= man && man >= axes && axes >= mis);
        let at_goal = *map == classic3();
        assert_eq!(mis == 0, at_goal);
        assert_eq!(lc == 0, at_goal);
    }
}

#[test]
fn manhattan_never_overestimates() {
    let solver = Solver::new(classic3(), 3, "manhattan", flag());
    for start in [vec![4, 1, 3, 7, 2, 6, 0, 5, 8], vec![8, 1, 3, 4, 0, 2, 7, 6, 5]].iter() {
        let h = scored(&solver, start.clone()).h;
        let sol = solve(start.clone(), &solver, 1_000_000, 0).unwrap();
        assert!(h <= sol.moves);
    }
}

#[test]
fn swapping_tiles_flips_solvability() {
    let goal = classic3();
    let one: Vec<usize> = vec![2, 1, 3, 4, 5, 6, 7, 8, 0];
    let two: Vec<usize> = vec![2, 1, 3, 5, 4, 6, 7, 8, 0];
    assert!(is_solvable(&goal, &goal, 3));
    assert!(!is_solvable(&one, &goal, 3));
    assert!(is_solvable(&two, &goal, 3));
    let far: Vec<usize> = vec![8, 2, 3, 4, 5, 6, 7, 1, 0];
    assert!(!is_solvable(&far, &goal, 3));
    let far_twice: Vec<usize> = vec![8, 2, 3, 4, 6, 5, 7, 1, 0];
    assert!(is_solvable(&far_twice, &goal, 3));
}

#[test]
fn cost_policies() {
    let start: Vec<usize> = vec![1, 2, 3, 4, 5, 6, 0, 7, 8];
    let a = scored(&Solver::new(classic3(), 3, "manhattan", flag()), start.clone());
    assert_eq!((a.h, a.g, a.f, a.t), (2, 0, 2, 2));
    let greedy = Flag { verbosity: false, debug: false, greedy: true, uniform: false };
    let g = scored(&Solver::new(classic3(), 3, "manhattan", greedy), start.clone());
    assert_eq!((g.h, g.f, g.t), (2, 2, 0));
    let uniform = Flag { verbosity: false, debug: false, greedy: false, uniform: true };
    let u = scored(&Solver::new(classic3(), 3, "manhattan", uniform), start.clone());
    assert_eq!((u.h, u.f), (1, 0));
    let done = scored(&Solver::new(classic3(), 3, "manhattan", uniform), classic3());
    assert_eq!(done.h, 0);
}

#[test]
fn heuristic_names() {
    assert_eq!(Heuristic::from_name("misplaced"), Heuristic::Misplaced);
    assert_eq!(Heuristic::from_name("axes"), Heuristic::OutOfAxes);
    assert_eq!(Heuristic::from_name("conflict"), Heuristic::LinearConflict);
    assert_eq!(Heuristic::from_name("misplaced_tiles"), Heuristic::Manhattan);
    assert_eq!(Heuristic::from_name("linear_conflict"), Heuristic::Manhattan);
    assert_eq!(Heuristic::from_name("whatever"), Heuristic::Manhattan);
}

#[test]
fn solvability_check_of_solver() {
    let solver = Solver::new(classic3(), 3, "manhattan", flag());
    assert_eq!(solver.is_solvable(&vec![1, 2, 3, 4, 5, 6, 0, 7, 8]), Ok(()));
    assert_eq!(
        solver.is_solvable(&vec![2, 1, 3, 4, 5, 6, 7, 8, 0]),
        Err("unsolvable puzzle".to_string())
    );
    assert_eq!(solver.is_solvable(&vec![1, 2, 3, 4, 5, 6, 7, 8, 8]), Err("invalid puzzle".to_string()));
    assert_eq!(solver.is_solvable(&vec![1, 2, 3, 4, 5, 6, 7, 8]), Err("invalid puzzle".to_string()));
    assert_eq!(solver.is_solvable(&vec![1, 2, 3, 4, 5, 6, 7, 8, 9]), Err("invalid puzzle".to_string()));
}

#[test]
fn find_position_locates_blank() {
    let mut node = Node::new(vec![1, 2, 3, 4, 0, 5, 6, 7, 8]);
    node.find_position(3);
    assert_eq!((node.pos.x, node.pos.y), (1, 1));
    assert_eq!(node.generate_moves(3).len(), 4);
}
