//! Iterative-deepening A*: depth-first search bounded by an f-cost threshold, raised to
//! the least f that went over it until the goal is reached.

use vstd::prelude::*;
use crate::astar::{
    SearchError, Solution, State, children_of, lemma_child_slides, lemma_slide_is_child, one_move,
    path_ok, slides,
};
use crate::grid::{Flag, Move, Position, is_arrangement};
use crate::node::{Node, MAX_DEPTH};
use crate::solver::Solver;

verus! {

/// Expansions after which one bounded search gives up.
pub const EXPANSION_CAP: usize = 10_000_000;

/// Outcome of one bounded depth-first search.
pub struct Results {
    /// The states from the goal back to the first move, when the goal was reached.
    pub path: Option<Vec<State>>,
    /// Least f over the threshold among the nodes not explored (`usize::MAX` for none).
    pub bound: usize,
    /// Nodes expanded.
    pub expanded: usize,
    /// Least estimate seen.
    pub best_h: usize,
}

/// `rev`, read from its end, leads from `from` to `goal` one move at a time.
pub open spec fn chain_ok(from: Seq<usize>, rev: Seq<State>, goal: Seq<usize>, n: int) -> bool {
    if rev.len() == 0 {
        from == goal
    } else {
        &&& rev[0].map@ == goal
        &&& one_move(from, rev.last().movement, rev.last().map@, n)
        &&& forall|k: int|
            0 <= k < rev.len() - 1 ==> one_move(
                rev[k + 1].map@,
                #[trigger] rev[k].movement,
                rev[k].map@,
                n,
            )
    }
}

/// The priority of an arrangement reached at depth `g`, under a policy other than greedy.
pub open spec fn f_at(solver: &Solver, g: int, s: Seq<usize>) -> int {
    if solver.flag.uniform {
        g
    } else {
        g + solver.estimate(s)
    }
}

/// Some state of `p`, taken as reached at depth `g` plus its place in `p`, has its
/// priority over `bound`.
pub open spec fn path_exceeds(solver: &Solver, p: Seq<State>, g: int, bound: int) -> bool {
    exists|i: int| 0 <= i < p.len() && #[trigger] f_at(solver, g + i, p[i].map@) > bound
}

/// Every path from `from` to the goal, started at depth `g`, goes over `bound` somewhere.
pub open spec fn no_chain_within(solver: &Solver, from: Seq<usize>, g: int, bound: int) -> bool {
    forall|p: Seq<State>|
        #[trigger] path_ok(p, from, solver.goal@, solver.size as int) ==> path_exceeds(
            solver,
            p,
            g,
            bound,
        )
}

/// A path over a bound is over every smaller bound.
proof fn lemma_chain_lower(solver: &Solver, from: Seq<usize>, g: int, b1: int, b2: int)
    requires
        no_chain_within(solver, from, g, b1),
        b2 <= b1,
    ensures
        no_chain_within(solver, from, g, b2),
{
    assert forall|p: Seq<State>| #[trigger] path_ok(p, from, solver.goal@, solver.size as int)
        implies path_exceeds(solver, p, g, b2) by {
        let i = choose|i: int| 0 <= i < p.len() && #[trigger] f_at(solver, g + i, p[i].map@) > b1;
        assert(f_at(solver, g + i, p[i].map@) > b2);
    }
}

/// When no path from any child stays within the bound, none from the parent does.
proof fn lemma_chain_step(solver: &Solver, node: Node, all: Seq<Node>, g: int, bound: int)
    requires
        node.well_formed(solver.size as int),
        children_of(node, all, solver.size as int),
        node.map@ != solver.goal@,
        forall|j: int|
            0 <= j < all.len() ==> no_chain_within(solver, (#[trigger] all[j]).map@, g + 1, bound),
    ensures
        no_chain_within(solver, node.map@, g, bound),
{
    let n = solver.size as int;
    assert forall|p: Seq<State>| #[trigger] path_ok(p, node.map@, solver.goal@, n) implies path_exceeds(
        solver,
        p,
        g,
        bound,
    ) by {
        assert(p.len() >= 2);
        let k: int = 0;
        assert(one_move(p[k].map@, p[k + 1].movement, p[k + 1].map@, n));
        let q = choose|q: Position| #[trigger] slides(p[0].map@, q, p[1].movement, p[1].map@, n);
        lemma_slide_is_child(node, all, q, p[1].movement, p[1].map@, n);
        let j = choose|j: int| 0 <= j < all.len() && (#[trigger] all[j]).map@ == p[1].map@;
        let rest = p.drop_first();
        let tail = rest.update(0, State { map: rest[0].map, movement: Move::No });
        assert forall|i: int| 0 <= i < tail.len() - 1 implies one_move(
            tail[i].map@,
            #[trigger] tail[i + 1].movement,
            tail[i + 1].map@,
            n,
        ) by {
            assert(tail[i + 1] == p[i + 2]);
            assert(tail[i].map@ == p[i + 1].map@);
            let k2 = i + 1;
            assert(one_move(p[k2].map@, p[k2 + 1].movement, p[k2 + 1].map@, n));
        }
        assert(tail.last().map@ == p.last().map@);
        assert(path_ok(tail, all[j].map@, solver.goal@, n));
        let i2 = choose|i2: int| 0 <= i2 < tail.len() && #[trigger] f_at(solver, g + 1 + i2, tail[i2].map@) > bound;
        assert(p[i2 + 1].map@ == tail[i2].map@);
        assert(f_at(solver, g + (i2 + 1), p[i2 + 1].map@) > bound);
    }
}

/// Depth-first search below `current` among nodes of f at most `bound`. A node over the
/// bound is not expanded and its f is a candidate for the next bound; the goal ends the
/// search with the states that lead to it.
pub fn find_path(current: &Node, g_cost: usize, bound: usize, solver: &Solver) -> (r: Results)
    requires
        solver.well_formed(),
        !solver.flag.greedy,
        solver.scored(*current),
        bound < MAX_DEPTH,
    ensures
        r.expanded <= EXPANSION_CAP + 1,
        r.path matches Some(p) ==> chain_ok(current.map@, p@, solver.goal@, solver.size as int),
        r.path is None ==> r.bound > bound,
        current.f > bound ==> r.path is None && r.bound == current.f && r.expanded == 0,
        current.f <= bound && current.h == 0 ==> (r.path matches Some(p) && p@.len() == 0)
            && r.expanded == 0 && r.best_h == 0,
        current.f > bound ==> r.best_h == current.h,
        r.best_h <= current.h,
        r.path is Some ==> r.best_h == 0,
        r.expanded > EXPANSION_CAP ==> r.path is None && r.bound == usize::MAX,
        r.path is None && r.expanded <= EXPANSION_CAP ==> no_chain_within(
            solver,
            current.map@,
            current.g as int,
            r.bound - 1,
        ),
        r.path is None && r.expanded <= EXPANSION_CAP ==> no_chain_within(
            solver,
            current.map@,
            current.g as int,
            bound as int,
        ),
    decreases bound + 1 - current.g,
{
    proof {
        solver.lemma_goal_test(*current);
    }
    let mut next_bound = usize::MAX;
    let mut best_h = current.h;
    if current.f > bound {
        proof {
            assert forall|p: Seq<State>| #[trigger] path_ok(p, current.map@, solver.goal@, solver.size as int)
                implies path_exceeds(solver, p, current.g as int, bound as int) by {
                assert(f_at(solver, current.g + 0, p[0].map@) > bound);
            }
            assert forall|p: Seq<State>| #[trigger] path_ok(p, current.map@, solver.goal@, solver.size as int)
                implies path_exceeds(solver, p, current.g as int, current.f - 1) by {
                assert(f_at(solver, current.g + 0, p[0].map@) > current.f - 1);
            }
        }
        return Results { path: None, bound: current.f, expanded: 0, best_h };
    }
    if current.h == 0 {
        return Results { path: Some(Vec::new()), bound: current.f, expanded: 0, best_h: 0 };
    }
    let mut moves = current.generate_moves(solver.size);
    let ghost n = solver.size as int;
    let ghost all = moves@;
    let mut expanded: usize = 1;
    while moves.len() > 0
        invariant
            solver.well_formed(),
            !solver.flag.greedy,
            solver.scored(*current),
            n == solver.size,
            current.g <= current.f <= bound,
            current.h != 0,
            bound < MAX_DEPTH,
            expanded <= EXPANSION_CAP,
            next_bound > bound,
            best_h <= current.h,
            children_of(*current, all, n),
            moves@.len() <= all.len(),
            moves@ == all.subrange(all.len() - moves@.len(), all.len() as int),
            forall|j: int|
                0 <= j < all.len() - moves@.len() ==> no_chain_within(
                    solver,
                    (#[trigger] all[j]).map@,
                    current.g + 1,
                    next_bound - 1,
                ),
            forall|k: int|
                0 <= k < moves@.len() ==> {
                    let c = #[trigger] moves@[k];
                    &&& c.movement != Move::No
                    &&& c.is_child(n)
                    &&& c.parent_map(n) == current.map@
                    &&& c.cost@ == current.cost@
                    &&& c.g == current.g + 1
                    &&& c.h == current.h
                },
        decreases moves@.len(),
    {
        let ghost before = moves@;
        let node = moves.remove(0);
        proof {
            assert forall|k: int| 0 <= k < moves@.len() implies #[trigger] moves@[k] == before[k
                + 1] by {}
        }
        let ghost jdx = all.len() - before.len();
        proof {
            assert(before[0] == all[jdx]);
            assert(moves@ =~= all.subrange(all.len() - moves@.len(), all.len() as int));
        }
        let node = solver.update_cost(node);
        let result = find_path(&node, g_cost, bound, solver);
        expanded = expanded + result.expanded;
        if expanded > EXPANSION_CAP {
            return Results {
                path: None,
                bound: usize::MAX,
                expanded: EXPANSION_CAP + 1,
                best_h: if node.h < best_h {
                    node.h
                } else {
                    best_h
                },
            };
        }
        match result.path {
            Some(path) => {
                let mut path = path;
                let ghost origin = path@;
                proof {
                    lemma_child_slides(node, n);
                    assert(one_move(current.map@, node.movement, node.map@, n));
                }
                path.push(State { map: node.map, movement: node.movement });
                proof {
                    assert(path@.last().map@ == node.map@);
                    if origin.len() == 0 {
                        assert(path@[0].map@ == solver.goal@);
                    } else {
                        assert(path@[0] == origin[0]);
                        assert forall|k: int| 0 <= k < path@.len() - 1 implies one_move(
                            path@[k + 1].map@,
                            #[trigger] path@[k].movement,
                            path@[k].map@,
                            n,
                        ) by {
                            if k < origin.len() - 1 {
                                assert(path@[k] == origin[k] && path@[k + 1] == origin[k + 1]);
                            } else {
                                assert(path@[k] == origin.last());
                            }
                        }
                    }
                }
                return Results { path: Some(path), bound, expanded, best_h: 0 };
            },
            None => {},
        }
        let ghost old_next = next_bound;
        if result.bound < next_bound {
            next_bound = result.bound;
        }
        proof {
            assert forall|j: int| 0 <= j < all.len() - moves@.len() implies no_chain_within(
                solver,
                (#[trigger] all[j]).map@,
                current.g + 1,
                next_bound - 1,
            ) by {
                if j < jdx {
                    lemma_chain_lower(solver, all[j].map@, current.g + 1, old_next - 1, next_bound - 1);
                } else {
                    lemma_chain_lower(solver, all[j].map@, current.g + 1, result.bound - 1, next_bound - 1);
                }
            }
        }
        if result.best_h < best_h {
            best_h = result.best_h;
        }
    }
    proof {
        lemma_chain_step(solver, *current, all, current.g as int, next_bound - 1);
        lemma_chain_lower(solver, current.map@, current.g as int, next_bound - 1, bound as int);
    }
    Results { path: None, bound: next_bound, expanded, best_h }
}

/// The path from `first_map` that `rev` gives backwards: `first_map` with move `No`, then
/// the states of `rev` from its last to its first.
pub fn unwind(
    first_map: Vec<usize>,
    rev: Vec<State>,
    Ghost(goal): Ghost<Seq<usize>>,
    Ghost(n): Ghost<int>,
) -> (path: Vec<State>)
    requires
        chain_ok(first_map@, rev@, goal, n),
    ensures
        path_ok(path@, first_map@, goal, n),
{
    let ghost st = first_map@;
    let mut rev = rev;
    let ghost full = rev@;
    let mut path: Vec<State> = Vec::new();
    path.push(State { map: first_map, movement: Move::No });
    while rev.len() > 0
        invariant
            chain_ok(st, full, goal, n),
            rev@.len() <= full.len(),
            rev@ == full.subrange(0, rev@.len() as int),
            path@.len() == full.len() - rev@.len() + 1,
            path@[0].map@ == st,
            path@[0].movement == Move::No,
            forall|i: int| 1 <= i < path@.len() ==> #[trigger] path@[i] == full[full.len() - i],
        decreases rev@.len(),
    {
        let state = rev.pop().unwrap();
        path.push(state);
        proof {
            assert(rev@ =~= full.subrange(0, rev@.len() as int));
        }
    }
    proof {
        let l = full.len() as int;
        assert forall|i: int| 0 <= i < path@.len() - 1 implies one_move(
            path@[i].map@,
            #[trigger] path@[i + 1].movement,
            path@[i + 1].map@,
            n,
        ) by {
            if i == 0 {
                assert(path@[1] == full[l - 1]);
            } else {
                assert(path@[i] == full[l - i]);
                assert(path@[i + 1] == full[l - i - 1]);
            }
        }
        if l > 0 {
            assert(path@.last() == full[0]);
        } else {
            assert(path@.len() == 1);
        }
    }
    path
}

/// Two solvers that differ only in name and the greedy flag judge paths alike.
proof fn lemma_chain_same(a: &Solver, b: &Solver, from: Seq<usize>, g: int, bound: int)
    requires
        no_chain_within(a, from, g, bound),
        a.goal@ == b.goal@,
        a.end@ == b.end@,
        a.size == b.size,
        a.heuristic == b.heuristic,
        a.flag.uniform == b.flag.uniform,
    ensures
        no_chain_within(b, from, g, bound),
{
    assert forall|p: Seq<State>| #[trigger] path_ok(p, from, b.goal@, b.size as int) implies path_exceeds(
        b,
        p,
        g,
        bound,
    ) by {
        assert(path_ok(p, from, a.goal@, a.size as int));
        let i = choose|i: int| 0 <= i < p.len() && #[trigger] f_at(a, g + i, p[i].map@) > bound;
        assert(f_at(b, g + i, p[i].map@) == f_at(a, g + i, p[i].map@));
    }
}

/// IDA* from `start`: bounded depth-first searches from the start's f, each with the next
/// bound, until the goal is found. Greedy priorities are turned off.
pub fn solve(start: Vec<usize>, solver: Solver) -> (r: Result<Solution, SearchError>)
    requires
        solver.well_formed(),
        is_arrangement(start@, solver.size as int),
    ensures
        r matches Ok(sol) ==> {
            &&& path_ok(sol.path@, start@, solver.goal@, solver.size as int)
            &&& sol.moves == sol.path@.len() - 1
        },
        start@ == solver.goal@ ==> (r matches Ok(sol) && sol.moves == 0),
        r matches Err(SearchError::LimitReached(k)) ==> k >= MAX_DEPTH && (k == usize::MAX
            || no_chain_within(&solver, start@, 0, k - 1)),
        r matches Err(e) ==> e is LimitReached,
{
    let ghost goal0 = solver.goal@;
    let ghost size0 = solver.size as int;
    let sv = Solver {
        name: solver.name.clone(),
        goal: solver.goal.clone(),
        end: solver.end.clone(),
        size: solver.size,
        heuristic: solver.heuristic,
        flag: Flag {
            verbosity: solver.flag.verbosity,
            debug: solver.flag.debug,
            greedy: false,
            uniform: solver.flag.uniform,
        },
    };
    let size = sv.size;
    let ghost n = size as int;
    let ghost st = start@;
    proof {
        crate::grid::lemma_arrangement_onto(st, n * n);
        assert(n * n >= 1) by (nonlinear_arith)
            requires
                n >= 1,
        ;
        assert(crate::grid::occurs(st, 0));
        let i = choose|i: int| 0 <= i < st.len() && st[i] == 0;
        assert(st.contains(0usize));
    }
    let mut first = Node::new(start);
    first.find_position(size);
    proof {
        crate::heuristic::lemma_cell(first.pos.index_spec(n), n);
        assert(first.pos.y < n) by (nonlinear_arith)
            requires
                first.pos.y * n + first.pos.x < n * n,
                0 <= first.pos.x,
                n >= 1,
        ;
    }
    let first = sv.get_cost(first);
    proof {
        sv.lemma_goal_test(first);
    }
    if first.h == 0 {
        let mut path: Vec<State> = Vec::new();
        path.push(State { map: first.map, movement: Move::No });
        return Ok(Solution { path, moves: 0, selected: 0, pending: 0, total: 0 });
    }
    let mut bound = first.f;
    let mut max_expanded: usize = 0;
    let mut total_expanded: usize = 0;
    if bound >= MAX_DEPTH {
        proof {
            assert forall|p: Seq<State>| #[trigger] path_ok(p, start@, solver.goal@, solver.size as int)
                implies path_exceeds(&solver, p, 0, bound - 1) by {
                assert(f_at(&solver, 0int + 0int, p[0].map@) > bound - 1);
            }
        }
        return Err(SearchError::LimitReached(bound));
    }
    loop
        invariant
            st != goal0,
            sv.well_formed(),
            !sv.flag.greedy,
            sv.scored(first),
            first.map@ == st,
            first.g == 0,
            sv.end@ == solver.end@,
            sv.heuristic == solver.heuristic,
            sv.flag.uniform == solver.flag.uniform,
            sv.size == solver.size,
            st == start@,
            sv.goal@ == goal0,
            n == sv.size,
            n == size0,
            goal0 == solver.goal@,
            size0 == solver.size as int,
            bound < MAX_DEPTH,
        decreases MAX_DEPTH - bound,
    {
        let res = find_path(&first, 0, bound, &sv);
        if res.expanded > max_expanded {
            max_expanded = res.expanded;
        }
        total_expanded = total_expanded.saturating_add(res.expanded);
        match res.path {
            Some(rev) => {
                let path = unwind(first.map, rev, Ghost(sv.goal@), Ghost(n));
                let moves = path.len() - 1;
                let sol = Solution {
                    path,
                    moves,
                    selected: total_expanded,
                    pending: max_expanded,
                    total: total_expanded,
                };
                return Ok(sol);
            },
            None => {},
        }
        if res.bound >= MAX_DEPTH {
            proof {
                if res.bound != usize::MAX {
                    lemma_chain_same(&sv, &solver, st, 0, res.bound - 1);
                }
            }
            return Err(SearchError::LimitReached(res.bound));
        }
        bound = res.bound;
    }
}

} // verus!
