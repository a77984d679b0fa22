//! Adaptive iterative A*: each iteration expands at most a budget of nodes of the next
//! generation; when the best estimate stops improving for too long, the search starts
//! again from the start with a larger budget.

use vstd::prelude::*;
use crate::astar::{SearchError, Solution, State, path_ok};
use crate::astar_iterative::{Pending, arena_ok, expand_node, pending_ok, trail_back, MAX_EXPANSIONS};
use crate::astar_iterative_deepening::unwind;
use crate::closed::ClosedSet;
use crate::grid::{Move, is_arrangement};
use crate::node::Node;
use crate::open::{Entry, OpenSet};
use crate::solver::Solver;

verus! {

/// The knobs of the adaptive search.
#[derive(Debug, Clone, Copy)]
pub struct Tuning {
    /// Iterations without a better estimate before the search starts again.
    pub no_change_limit: usize,
    /// Growth of the node budget at the first restart; it grows by half at each restart.
    pub increase_limit: usize,
    /// Iterations after which the search gives up.
    pub max_iter: usize,
}

impl Tuning {
    /// 75 iterations without progress, budget growth from 2000, 1000 iterations.
    pub fn standard() -> (r: Tuning)
        ensures
            r.no_change_limit == 75 && r.increase_limit == 2000 && r.max_iter == 1000,
    {
        Tuning { no_change_limit: 75, increase_limit: 2000, max_iter: 1000 }
    }
}

/// Node budget of an iteration for a start of estimate `h`.
pub open spec fn node_limit_spec(h: int) -> int {
    if h <= 50 {
        1000
    } else if h <= 100 {
        3000
    } else if h <= 300 {
        5000
    } else if h <= 500 {
        8000
    } else {
        10000
    }
}

/// Node budget of an iteration for a start of estimate `h`.
pub fn node_limit(h: usize) -> (r: usize)
    ensures
        r == node_limit_spec(h as int),
{
    if h <= 50 {
        1000
    } else if h <= 100 {
        3000
    } else if h <= 300 {
        5000
    } else if h <= 500 {
        8000
    } else {
        10000
    }
}

/// What the adaptive search does after an iteration: how many nodes the next one
/// expands, and whether it starts again from the start.
pub struct Step {
    pub nextgen_nodes: usize,
    pub restart: bool,
    pub no_change_iter: usize,
}

/// The decision after an iteration that left `open_len` nodes with best estimate
/// `lowest_h`, the best before being `min_h`: all nodes if they fit the budget; else the
/// budget, counting iterations without progress; and after `no_change_limit` of them, a
/// restart.
pub fn next_step(open_len: usize, lowest_h: usize, min_h: usize, limit: usize, no_change_iter: usize, tuning: Tuning) -> (r: Step)
    ensures
        open_len <= limit ==> r.nextgen_nodes == open_len && !r.restart && r.no_change_iter == no_change_iter,
        open_len > limit && lowest_h < min_h ==> r.nextgen_nodes == limit && !r.restart && r.no_change_iter == 0,
        open_len > limit && lowest_h >= min_h && no_change_iter < tuning.no_change_limit ==> r.nextgen_nodes == limit && !r.restart && r.no_change_iter == no_change_iter + 1,
        open_len > limit && lowest_h >= min_h && no_change_iter >= tuning.no_change_limit ==> r.nextgen_nodes == 1 && r.restart && r.no_change_iter == 0,
{
    if open_len <= limit {
        Step { nextgen_nodes: open_len, restart: false, no_change_iter }
    } else if lowest_h < min_h {
        Step { nextgen_nodes: limit, restart: false, no_change_iter: 0 }
    } else if no_change_iter < tuning.no_change_limit {
        Step { nextgen_nodes: limit, restart: false, no_change_iter: no_change_iter + 1 }
    } else {
        Step { nextgen_nodes: 1, restart: true, no_change_iter: 0 }
    }
}

/// Adaptive iterative A* from `start`. Each iteration expands, below the threshold, up to
/// `nextgen_nodes` of the nodes the last one set aside, best first; the threshold becomes
/// the least f set aside. `next_step` decides the next budget and the restarts.
pub fn solve(start: Vec<usize>, solver: &Solver, tuning: Tuning) -> (r: Result<Solution, SearchError>)
    requires
        solver.well_formed(),
        is_arrangement(start@, solver.size as int),
    ensures
        r matches Ok(sol) ==> {
            &&& path_ok(sol.path@, start@, solver.goal@, solver.size as int)
            &&& sol.moves == sol.path@.len() - 1
        },
        start@ == solver.goal@ ==> (r matches Ok(sol) && sol.moves == 0),
        r matches Err(SearchError::LimitReached(k)) ==> k == tuning.max_iter || k == usize::MAX - 1,
        !(r matches Err(SearchError::Exhausted)),
{
    let size = solver.size;
    let ghost n = size as int;
    let ghost st = start@;
    proof {
        crate::grid::lemma_arrangement_onto(st, n * n);
        assert(n * n >= 1) by (nonlinear_arith)
            requires
                n >= 1,
        ;
        assert(crate::grid::occurs(st, 0));
        let i = choose|i: int| 0 <= i < st.len() && st[i] == 0;
        assert(st.contains(0usize));
    }
    let start_map = start.clone();
    let mut first = Node::new(start);
    first.find_position(size);
    proof {
        crate::heuristic::lemma_cell(first.pos.index_spec(n), n);
        assert(first.pos.y < n) by (nonlinear_arith)
            requires
                first.pos.y * n + first.pos.x < n * n,
                0 <= first.pos.x,
                n >= 1,
        ;
    }
    let first = solver.get_cost(first);
    proof {
        solver.lemma_goal_test(first);
    }
    if first.h == 0 {
        let mut path: Vec<State> = Vec::new();
        path.push(State { map: start_map, movement: Move::No });
        return Ok(Solution { path, moves: 0, selected: 0, pending: 0, total: 0 });
    }
    let ghost origin = first.pos;
    let start_h = first.h;
    let start_f = first.f;
    let start_t = first.t;
    let mut budget = node_limit(start_h);
    let mut increase = tuning.increase_limit;
    let mut no_change_iter: usize = 0;
    let mut nextgen_nodes: usize = 1;
    let mut min_h = start_h;
    let mut limit = start_f;
    let mut arena: Vec<Pending> = Vec::new();
    arena.push(Pending { node: first, moves: Vec::new(), depth: 0 });
    let mut open = OpenSet::new(0);
    let _ = open.insert((start_f, start_t, 0));
    let mut expansions: usize = 0;
    let mut open_max: usize = 0;
    let mut closed_max: usize = 0;
    let mut iter: usize = 1;
    proof {
        assert(pending_ok(arena@[0], solver, st, origin));
        assert forall|e: Entry| #[trigger] open.items().contains(e) implies e.2 < arena@.len() by {}
    }
    while iter <= tuning.max_iter && iter < usize::MAX
        invariant
            st != solver.goal@,
            1 <= iter <= tuning.max_iter + 1,
            solver.well_formed(),
            n == solver.size,
            size == solver.size,
            st == start@,
            start_map@ == st,
            origin.inside(n),
            arena@.len() >= 1,
            arena_ok(arena@, solver, st, origin),
            forall|i: int| 0 <= i < arena@.len() ==> (#[trigger] arena@[i]).node.g <= expansions,
            expansions <= MAX_EXPANSIONS,
            forall|e: Entry| #[trigger] open.items().contains(e) ==> e.2 < arena@.len(),
        decreases tuning.max_iter + 1 - iter,
    {
        let mut list = OpenSet::new(0);
        let mut closed_set = ClosedSet::new();
        let mut found: Option<usize> = None;
        let mut taken: usize = 0;
        while taken < nextgen_nodes
            invariant
                solver.well_formed(),
                n == solver.size,
                arena_ok(arena@, solver, st, origin),
                forall|i: int| 0 <= i < arena@.len() ==> (#[trigger] arena@[i]).node.g <= expansions,
                expansions <= MAX_EXPANSIONS,
                closed_set.well_formed(),
                closed_set@.len() <= expansions,
                forall|e: Entry| #[trigger] open.items().contains(e) ==> e.2 < arena@.len(),
                forall|e: Entry| #[trigger] list.items().contains(e) ==> e.2 < arena@.len(),
                found matches Some(g) ==> g < arena@.len() && arena@[g as int].node.h == 0,
                arena@.len() >= 1,
            decreases nextgen_nodes - taken,
        {
            let ghost items_before = open.items();
            let entry = match open.pop_best() {
                None => break,
                Some(e) => e,
            };
            proof {
                assert(items_before.contains(entry));
                assert forall|e: Entry| #[trigger] open.items().contains(e) implies e.2
                    < arena@.len() by {
                    assert(items_before.contains(e));
                }
            }
            let (sub, goal) = expand_node(
                &mut arena,
                entry.2,
                iter,
                limit,
                &mut closed_set,
                solver,
                &mut expansions,
                Ghost(st),
                Ghost(origin),
            );
            let mut k: usize = 0;
            while k < sub.len()
                invariant
                    k <= sub@.len(),
                    forall|q: int| 0 <= q < sub@.len() ==> (#[trigger] sub@[q]).2 < arena@.len(),
                    forall|e: Entry| #[trigger] list.items().contains(e) ==> e.2 < arena@.len(),
                decreases sub@.len() - k,
            {
                let ghost items0 = list.items();
                let _ = list.insert(sub[k]);
                proof {
                    assert forall|e: Entry| #[trigger] list.items().contains(e) implies e.2
                        < arena@.len() by {
                        assert(items0.insert(sub@[k as int]).contains(e));
                        if e != sub@[k as int] {
                            assert(items0.contains(e));
                        }
                    }
                }
                k = k + 1;
            }
            if goal.is_some() {
                found = goal;
                break ;
            }
            taken = taken + 1;
        }
        if list.len() > open_max {
            open_max = list.len();
        }
        if closed_set.len() > closed_max {
            closed_max = closed_set.len();
        }
        match found {
            Some(g) => {
                proof {
                    assert(pending_ok(arena@[g as int], solver, st, origin));
                    solver.lemma_goal_test(arena@[g as int].node);
                    crate::heuristic::lemma_index_inside(origin.x as int, origin.y as int, n);
                }
                let rev = trail_back(&arena[g], size, Ghost(st), Ghost(origin));
                let path = unwind(start_map, rev, Ghost(solver.goal@), Ghost(n));
                let moves = path.len() - 1;
                return Ok(
                    Solution {
                        path,
                        moves,
                        selected: closed_max,
                        pending: open_max,
                        total: closed_max.saturating_add(open_max),
                    },
                );
            },
            None => {},
        }
        let ghost items_full = list.items();
        let lowest = match list.pop_best() {
            None => {
                return Err(SearchError::DeadEnd);
            },
            Some(e) => e,
        };
        let ghost items_l = list.items();
        proof {
            assert(items_full.contains(lowest));
            assert forall|e: Entry| #[trigger] items_l.contains(e) implies e.2 < arena@.len() by {
                assert(items_full.contains(e));
            }
        }
        let lowest_h = arena[lowest.2].node.h;
        limit = lowest.0;
        let _ = list.insert(lowest);
        proof {
            assert forall|e: Entry| #[trigger] list.items().contains(e) implies e.2 < arena@.len() by {
                assert(items_l.insert(lowest).contains(e));
                if e != lowest {
                    assert(items_l.contains(e));
                }
            }
        }
        let step = next_step(list.len(), lowest_h, min_h, budget, no_change_iter, tuning);
        no_change_iter = step.no_change_iter;
        nextgen_nodes = step.nextgen_nodes;
        if step.restart {
            open = OpenSet::new(0);
            let _ = open.insert((start_f, start_t, 0));
            budget = budget.saturating_add(increase);
            limit = start_f;
            min_h = start_h;
            open_max = 0;
            closed_max = 0;
            increase = increase.saturating_add(increase / 2);
            proof {
                assert forall|e: Entry| #[trigger] open.items().contains(e) implies e.2
                    < arena@.len() by {}
            }
        } else {
            open = list;
            min_h = lowest_h;
        }
        iter = iter + 1;
    }
    Err(SearchError::LimitReached(iter - 1))
}

} // verus!
