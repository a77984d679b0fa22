//! From the text of a puzzle file to a solution: parsing, the goal, the solvability
//! check, and the search the user asked for.

use vstd::prelude::*;
use crate::astar::{SearchError, Solution, path_ok};
use crate::checker::solvable;
use crate::generator::{Generator, goal_seq};
use crate::grid::{
    Flag, is_arrangement, is_inverse, is_valid_arrangement, same_text, swap_indexes,
};
use crate::parser::{PuzzleError, file_to_map, parsed};
use crate::solver::Solver;

verus! {

/// Why a run ended without a solution.
#[derive(Debug, Clone, PartialEq, Eq)]
pub enum RunError {
    /// The file does not hold a valid puzzle.
    Puzzle(PuzzleError),
    /// The goal of the chosen style is not an arrangement.
    InvalidGoal,
    /// The puzzle cannot reach the goal.
    Unsolvable,
    /// The search gave up.
    Search(SearchError),
}

/// Reads the puzzle in `content`, makes the goal of style `goal_mode`, and checks that
/// the puzzle can reach it. Returns the start, the goal's inverse
/// lookup and the side.
pub fn get_map(content: &str, goal_mode: &str) -> (r: Result<(Vec<usize>, Vec<usize>, usize), RunError>)
    ensures
        r matches Ok((start, end, size)) ==> {
            &&& 3 <= size <= 20
            &&& is_arrangement(start@, size as int)
            &&& is_arrangement(goal_seq(goal_mode@, size as int), size as int)
            &&& is_inverse(end@, goal_seq(goal_mode@, size as int))
            &&& solvable(start@, goal_seq(goal_mode@, size as int), size as int)
        },
        parsed(content@) is None ==> (r matches Err(RunError::Puzzle(_))),
        parsed(content@) matches Some((n, t)) ==> {
            let g = goal_seq(goal_mode@, n);
            &&& !is_arrangement(g, n) ==> r == Err::<(Vec<usize>, Vec<usize>, usize), RunError>(
                RunError::InvalidGoal,
            )
            &&& is_arrangement(g, n) && !solvable(t, g, n) ==> r == Err::<
                (Vec<usize>, Vec<usize>, usize),
                RunError,
            >(RunError::Unsolvable)
            &&& is_arrangement(g, n) && solvable(t, g, n) ==> (r matches Ok(
                (start, end, size),
            ) && start@ == t && size == n)
        },
{
    let (size, start) = match file_to_map(content) {
        Ok(p) => p,
        Err(e) => {
            return Err(RunError::Puzzle(e));
        },
    };
    let (goal, end, size) = match goal_for(goal_mode, size) {
        Some(g) => g,
        None => {
            return Err(RunError::InvalidGoal);
        },
    };
    proof {
        let n = size as int;
        assert(n * n <= 400) by (nonlinear_arith)
            requires
                3 <= n <= 20,
        ;
        assert(n * n >= 9) by (nonlinear_arith)
            requires
                3 <= n <= 20,
        ;
        crate::grid::lemma_arrangement_onto(start@, n * n);
        crate::grid::lemma_arrangement_onto(goal@, n * n);
        assert(crate::grid::occurs(start@, 0));
        assert(crate::grid::occurs(goal@, 0));
        let i = choose|i: int| 0 <= i < start@.len() && start@[i] == 0;
        let j = choose|j: int| 0 <= j < goal@.len() && goal@[j] == 0;
        assert(start@.contains(0usize));
        assert(goal@.contains(0usize));
    }
    if !crate::checker::is_solvable(&start, &goal, size) {
        return Err(RunError::Unsolvable);
    }
    Ok((start, end, size))
}

/// Solves the puzzle in `content` towards the goal of style `goal_mode`, with the
/// heuristic `heuristic` and the search `algo`: "IDA*" for iterative deepening, "IA*" for
/// iterative A*, "GA*" for best-node iterative A*, "ILA*" for adaptive iterative A*, "MA*"
/// for A* with a bounded open set, and A* otherwise.
pub fn run_program(content: &str, goal_mode: &str, algo: &str, heuristic: &str, flag: Flag) -> (r:
    Result<Solution, RunError>)
    ensures
        parsed(content@) is None ==> (r matches Err(RunError::Puzzle(_))),
        parsed(content@) matches Some((n, t)) ==> {
            let g = goal_seq(goal_mode@, n);
            &&& !is_arrangement(g, n) ==> r == Err::<Solution, RunError>(RunError::InvalidGoal)
            &&& is_arrangement(g, n) && !solvable(t, g, n) ==> r == Err::<Solution, RunError>(
                RunError::Unsolvable,
            )
            &&& is_arrangement(g, n) && solvable(t, g, n) ==> ((r matches Ok(sol) && path_ok(
                sol.path@,
                t,
                g,
                n,
            )) || (r matches Err(RunError::Search(_))))
        },
{
    let (start, _end, size) = match get_map(content, goal_mode) {
        Ok(p) => p,
        Err(e) => {
            return Err(e);
        },
    };
    let ghost st = start@;
    let goal = Generator::generate_goal(goal_mode, size);
    proof {
        assert(goal@ =~= goal_seq(goal_mode@, size as int));
    }
    let solver = Solver::new(goal, size, heuristic, flag);
    let result = if same_text(algo, "IDA*") {
        crate::astar_iterative_deepening::solve(start, solver)
    } else if same_text(algo, "IA*") {
        crate::astar_iterative::solve(start, &solver)
    } else if same_text(algo, "GA*") {
        crate::astar_genetic::solve(start, &solver)
    } else if same_text(algo, "ILA*") {
        crate::astar_iterative_limited::solve(
            start,
            &solver,
            crate::astar_iterative_limited::Tuning::standard(),
        )
    } else if same_text(algo, "MA*") {
        crate::algorithm::astar(start, &solver, crate::astar::MAX_EXPANSIONS)
    } else {
        crate::astar::solve(start, &solver, crate::astar::MAX_EXPANSIONS, 0)
    };
    let res = match result {
        Ok(sol) => Ok(sol),
        Err(e) => Err(RunError::Search(e)),
    };
    res
}

/// The goal of style `goal_mode` with its inverse lookup, when it is an arrangement.
fn goal_for(goal_mode: &str, size: usize) -> (r: Option<(Vec<usize>, Vec<usize>, usize)>)
    requires
        3 <= size <= 20,
    ensures
        r is None <==> !is_arrangement(goal_seq(goal_mode@, size as int), size as int),
        r matches Some((goal, end, n)) ==> {
            &&& n == size
            &&& goal@ == goal_seq(goal_mode@, size as int)
            &&& is_arrangement(goal@, size as int)
            &&& is_inverse(end@, goal@)
        },
{
    let goal = Generator::generate_goal(goal_mode, size);
    proof {
        assert(goal@ =~= goal_seq(goal_mode@, size as int));
    }
    if !is_valid_arrangement(&goal, size) {
        return None;
    }
    let end = swap_indexes(goal.clone());
    Some((goal, end, size))
}

} // verus!
