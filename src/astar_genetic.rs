//! Best-node iterative A*: each iteration explores below the threshold from the single
//! best node the last one set aside, with a fresh closed set, and keeps nothing else.

use vstd::prelude::*;
use crate::astar::{SearchError, Solution, State, path_ok};
use crate::astar_iterative::{Pending, arena_ok, expand_node, pending_ok, trail_back};
use crate::astar_iterative_deepening::unwind;
use crate::closed::ClosedSet;
use crate::grid::{Move, is_arrangement};
use crate::node::Node;
use crate::open::{Entry, OpenSet};
use crate::solver::Solver;

verus! {

/// Iterations after which the search gives up.
pub const MAX_GENERATIONS: usize = 10;

/// From the start, repeatedly explores below the threshold from the best node found so
/// far (nodes over the threshold are never dropped), then moves to the least node set
/// aside, whose f becomes the threshold, until a goal is reached.
pub fn solve(start: Vec<usize>, solver: &Solver) -> (r: Result<Solution, SearchError>)
    requires
        solver.well_formed(),
        is_arrangement(start@, solver.size as int),
    ensures
        r matches Ok(sol) ==> {
            &&& path_ok(sol.path@, start@, solver.goal@, solver.size as int)
            &&& sol.moves == sol.path@.len() - 1
        },
        start@ == solver.goal@ ==> (r matches Ok(sol) && sol.moves == 0),
        r matches Err(SearchError::LimitReached(k)) ==> k == MAX_GENERATIONS,
        !(r matches Err(SearchError::Exhausted)),
{
    let size = solver.size;
    let ghost n = size as int;
    let ghost st = start@;
    proof {
        crate::grid::lemma_arrangement_onto(st, n * n);
        assert(n * n >= 1) by (nonlinear_arith)
            requires
                n >= 1,
        ;
        assert(crate::grid::occurs(st, 0));
        let i = choose|i: int| 0 <= i < st.len() && st[i] == 0;
        assert(st.contains(0usize));
    }
    let start_map = start.clone();
    let mut first = Node::new(start);
    first.find_position(size);
    proof {
        crate::heuristic::lemma_cell(first.pos.index_spec(n), n);
        assert(first.pos.y < n) by (nonlinear_arith)
            requires
                first.pos.y * n + first.pos.x < n * n,
                0 <= first.pos.x,
                n >= 1,
        ;
    }
    let first = solver.get_cost(first);
    proof {
        solver.lemma_goal_test(first);
    }
    if first.h == 0 {
        let mut path: Vec<State> = Vec::new();
        path.push(State { map: start_map, movement: Move::No });
        return Ok(Solution { path, moves: 0, selected: 0, pending: 0, total: 0 });
    }
    let ghost origin = first.pos;
    let mut limit = first.f;
    let mut arena: Vec<Pending> = Vec::new();
    arena.push(Pending { node: first, moves: Vec::new(), depth: 0 });
    let mut best: usize = 0;
    let mut expansions: usize = 0;
    let mut iter: usize = 1;
    let mut open_max: usize = 0;
    let mut closed_max: usize = 0;
    proof {
        assert(pending_ok(arena@[0], solver, st, origin));
    }
    while iter <= MAX_GENERATIONS
        invariant
            st != solver.goal@,
            1 <= iter <= MAX_GENERATIONS + 1,
            solver.well_formed(),
            n == solver.size,
            size == solver.size,
            st == start@,
            start_map@ == st,
            origin.inside(n),
            arena_ok(arena@, solver, st, origin),
            best < arena@.len(),
            forall|i: int| 0 <= i < arena@.len() ==> (#[trigger] arena@[i]).node.g <= expansions,
            expansions <= crate::astar_iterative::MAX_EXPANSIONS,
        decreases MAX_GENERATIONS + 1 - iter,
    {
        let mut closed_set = ClosedSet::new();
        let (list, goal) = expand_node(
            &mut arena,
            best,
            0,
            limit,
            &mut closed_set,
            solver,
            &mut expansions,
            Ghost(st),
            Ghost(origin),
        );
        if list.len() > open_max {
            open_max = list.len();
        }
        if closed_set.len() > closed_max {
            closed_max = closed_set.len();
        }
        match goal {
            Some(g) => {
                proof {
                    assert(pending_ok(arena@[g as int], solver, st, origin));
                    solver.lemma_goal_test(arena@[g as int].node);
                    crate::heuristic::lemma_index_inside(origin.x as int, origin.y as int, n);
                }
                let rev = trail_back(&arena[g], size, Ghost(st), Ghost(origin));
                let path = unwind(start_map, rev, Ghost(solver.goal@), Ghost(n));
                let moves = path.len() - 1;
                return Ok(
                    Solution {
                        path,
                        moves,
                        selected: closed_max,
                        pending: open_max,
                        total: closed_max.saturating_add(open_max),
                    },
                );
            },
            None => {},
        }
        let mut heap = OpenSet::new(0);
        let mut k: usize = 0;
        while k < list.len()
            invariant
                k <= list@.len(),
                forall|q: int| 0 <= q < list@.len() ==> (#[trigger] list@[q]).2 < arena@.len(),
                forall|e: Entry| #[trigger] heap.items().contains(e) ==> e.2 < arena@.len(),
            decreases list@.len() - k,
        {
            let ghost items0 = heap.items();
            let _ = heap.insert(list[k]);
            proof {
                assert forall|e: Entry| #[trigger] heap.items().contains(e) implies e.2
                    < arena@.len() by {
                    assert(items0.insert(list@[k as int]).contains(e));
                    if e != list@[k as int] {
                        assert(items0.contains(e));
                    }
                }
            }
            k = k + 1;
        }
        let ghost items_full = heap.items();
        match heap.pop_best() {
            None => {
                return Err(SearchError::DeadEnd);
            },
            Some(lowest) => {
                proof {
                    assert(items_full.contains(lowest));
                }
                limit = lowest.0;
                best = lowest.2;
            },
        }
        iter = iter + 1;
    }
    Err(SearchError::LimitReached(iter - 1))
}

} // verus!
