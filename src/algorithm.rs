//! Memory-bounded A*: the open set holds a number of nodes fixed from the start's
//! estimate and the heuristic, and evicts its worst node when full.

use vstd::prelude::*;
use crate::astar::{SearchError, Solution, State, path_ok, reachable, solve};
use crate::grid::is_arrangement;
use crate::heuristic::Heuristic;
use crate::node::Node;
use crate::solver::Solver;

verus! {

/// Largest power of two used as the open set's capacity.
pub const MAX_CAPACITY_EXP: usize = 24;

/// Exponent of the open set's capacity: 16 plus an eighth of the start's estimate, two
/// less for linear conflict, which is better informed, capped at `MAX_CAPACITY_EXP`.
pub open spec fn capacity_exp(h: int, heuristic: Heuristic) -> int {
    let e = 16 + h / 8 - if heuristic == Heuristic::LinearConflict {
        2int
    } else {
        0
    };
    if e > MAX_CAPACITY_EXP {
        MAX_CAPACITY_EXP as int
    } else {
        e
    }
}

/// `2^e`.
pub open spec fn two_to(e: nat) -> nat
    decreases e,
{
    if e == 0 {
        1
    } else {
        2 * two_to((e - 1) as nat)
    }
}

/// Powers of two grow with the exponent.
proof fn lemma_two_to_grows(i: nat, j: nat)
    requires
        i <= j,
    ensures
        two_to(i) <= two_to(j),
    decreases j - i,
{
    if i < j {
        lemma_two_to_grows(i, (j - 1) as nat);
    }
}

/// Capacity of the open set for a start of estimate `h`: two to the power `capacity_exp`.
pub fn open_capacity(h: usize, heuristic: Heuristic) -> (r: usize)
    ensures
        r == two_to(capacity_exp(h as int, heuristic) as nat),
        r >= 1,
{
    let raw = 16 + h / 8;
    let e = if raw > MAX_CAPACITY_EXP + 2 {
        MAX_CAPACITY_EXP
    } else {
        let d = if heuristic == Heuristic::LinearConflict { raw - 2 } else { raw };
        if d > MAX_CAPACITY_EXP { MAX_CAPACITY_EXP } else { d }
    };
    let mut r: usize = 1;
    let mut i: usize = 0;
    proof {
        reveal_with_fuel(two_to, 25);
        assert(two_to(24) == 16777216);
    }
    while i < e
        invariant
            i <= e <= MAX_CAPACITY_EXP,
            r == two_to(i as nat),
            two_to(24) == 16777216,
        decreases e - i,
    {
        proof {
            lemma_two_to_grows((i + 1) as nat, 24);
        }
        r = r * 2;
        i = i + 1;
    }
    proof {
        lemma_two_to_grows(0, i as nat);
    }
    r
}

/// A* with an open set bounded by `open_capacity` of the start's estimate: when it is
/// full, the node of greatest `(f, t)` is dropped. This trades optimality and
/// completeness for bounded memory: an open set that runs empty after an eviction is a
/// `DeadEnd`, not a proof that the goal is unreachable.
pub fn astar(start: Vec<usize>, solver: &Solver, limit: usize) -> (r: Result<Solution, SearchError>)
    requires
        solver.well_formed(),
        is_arrangement(start@, solver.size as int),
        limit <= crate::astar::MAX_EXPANSIONS,
    ensures
        r matches Ok(sol) ==> {
            &&& path_ok(sol.path@, start@, solver.goal@, solver.size as int)
            &&& sol.moves == sol.path@.len() - 1
        },
        start@ == solver.goal@ ==> (r matches Ok(sol) && sol.moves == 0 && sol.selected == 1
            && sol.pending == 0),
        r matches Err(SearchError::LimitReached(k)) ==> k == limit && exists|set: Set<Seq<usize>>|
            set.finite() && set.len() == k + 1 && forall|a: Seq<usize>| #[trigger]
                set.contains(a) ==> reachable(start@, a, solver.size as int),
        r matches Err(SearchError::Exhausted) ==> forall|p: Seq<State>|
            !#[trigger] path_ok(p, start@, solver.goal@, solver.size as int),
{
    let ghost n = solver.size as int;
    let ghost st = start@;
    proof {
        crate::grid::lemma_arrangement_onto(st, n * n);
        assert(n * n >= 1) by (nonlinear_arith)
            requires
                n >= 1,
        ;
        assert(crate::grid::occurs(st, 0));
        let i = choose|i: int| 0 <= i < st.len() && st[i] == 0;
        assert(st.contains(0usize));
    }
    let mut probe = Node::new(start.clone());
    probe.find_position(solver.size);
    proof {
        crate::heuristic::lemma_cell(probe.pos.index_spec(n), n);
        assert(probe.pos.y < n) by (nonlinear_arith)
            requires
                probe.pos.y * n + probe.pos.x < n * n,
                0 <= probe.pos.x,
                n >= 1,
        ;
    }
    let probe = solver.get_cost(probe);
    let capacity = open_capacity(probe.h, solver.heuristic);
    solve(start, solver, limit, capacity)
}

} // verus!
