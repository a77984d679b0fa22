//! Best-first search (A*, greedy or uniform cost, as the solver's policy says), with an
//! optional bound on the open set, and reconstruction of the solution path through the
//! closed set.

use vstd::prelude::*;
use crate::closed::ClosedSet;
use crate::grid::{Move, Position, MAX_SIZE, is_arrangement, size_ok, swap_spec};
use crate::node::{Node, legal_moves, legal_moves_upto, possible_moves_spec};
use vstd::multiset::Multiset;
use crate::open::{Entry, OpenSet};
use crate::solver::Solver;

verus! {

/// One step of a solution: an arrangement and the move that produced it.
pub struct State {
    pub map: Vec<usize>,
    pub movement: Move,
}

/// A solution path from the start to the goal, with the counts of the search.
pub struct Solution {
    /// From the start (whose move is `No`) to the goal.
    pub path: Vec<State>,
    /// Number of moves: one less than the number of states.
    pub moves: usize,
    /// Nodes selected for expansion (the closed set).
    pub selected: usize,
    /// Nodes still pending (the open set).
    pub pending: usize,
    /// All nodes represented in memory at the end.
    pub total: usize,
}

impl Solution {
    /// An empty solution with the sizes of the open and closed sets.
    pub fn new(open_size: usize, closed_size: usize) -> (r: Solution)
        requires
            open_size + closed_size <= usize::MAX,
        ensures
            r.path@.len() == 0,
            r.moves == 0,
            r.pending == open_size,
            r.selected == closed_size,
            r.total == open_size + closed_size,
    {
        Solution {
            path: Vec::new(),
            moves: 0,
            pending: open_size,
            selected: closed_size,
            total: open_size + closed_size,
        }
    }
}

/// Why a search ended without a solution.
#[derive(Debug, Clone, Copy, PartialEq, Eq, Structural)]
pub enum SearchError {
    /// The open set of an exhaustive search ran empty: the goal cannot be reached.
    Exhausted,
    /// The candidates of an approximate search ran out, or a bounded open set that had
    /// evicted entries ran empty; the goal may still be reachable.
    DeadEnd,
    /// The bound was reached: the expansions made, the f bound reached, or the iterations
    /// run, as each search says.
    LimitReached(usize),
}

/// The blank at `p` of `a` slides by `m` and gives `b`.
pub open spec fn slides(a: Seq<usize>, p: Position, m: Move, b: Seq<usize>, n: int) -> bool {
    &&& m != Move::No
    &&& m.is_step(n)
    &&& p.inside(n)
    &&& m.legal_at(p, n)
    &&& 0 <= p.index_spec(n) < a.len()
    &&& 0 <= p.update_spec(m).index_spec(n) < a.len()
    &&& a[p.index_spec(n)] == 0
    &&& b == swap_spec(a, p.index_spec(n), p.update_spec(m).index_spec(n))
}

/// One slide of the blank leads from `a` to `b` by `m`.
pub open spec fn one_move(a: Seq<usize>, m: Move, b: Seq<usize>, n: int) -> bool {
    exists|p: Position| slides(a, p, m, b, n)
}

/// `path` starts at `start` with move `No`, ends at `goal`, and each state follows from
/// the one before by the move it records.
pub open spec fn path_ok(path: Seq<State>, start: Seq<usize>, goal: Seq<usize>, n: int) -> bool {
    &&& path.len() >= 1
    &&& path[0].map@ == start
    &&& path[0].movement == Move::No
    &&& path.last().map@ == goal
    &&& forall|i: int|
        0 <= i < path.len() - 1 ==> one_move(
            path[i].map@,
            #[trigger] path[i + 1].movement,
            path[i + 1].map@,
            n,
        )
}

/// What the closed set records: each arrangement with the cell of its blank and an order
/// of insertion; the start is recorded with `No`, every other arrangement with a move from
/// an arrangement recorded earlier.
pub open spec fn ledger_ok(
    closed: Map<Seq<usize>, Move>,
    rank: Map<Seq<usize>, nat>,
    blank: Map<Seq<usize>, Position>,
    start: Seq<usize>,
    n: int,
) -> bool {
    forall|s: Seq<usize>| #[trigger]
        closed.contains_key(s) ==> {
            &&& rank.contains_key(s)
            &&& rank[s] < closed.len()
            &&& is_arrangement(s, n)
            &&& blank.contains_key(s)
            &&& blank[s].inside(n)
            &&& 0 <= blank[s].index_spec(n) < s.len()
            &&& s[blank[s].index_spec(n)] == 0
            &&& closed[s] == Move::No ==> s == start
            &&& closed[s] != Move::No ==> {
                let m = closed[s];
                let q = blank[s].update_spec(m.opposite_spec());
                let pred = swap_spec(s, blank[s].index_spec(n), q.index_spec(n));
                &&& m.is_step(n)
                &&& q.update_spec(m) == blank[s]
                &&& closed.contains_key(pred)
                &&& rank[pred] < rank[s]
                &&& blank[pred] == q
                &&& slides(pred, q, m, s, n)
            }
        }
}

/// A node waiting in the open set: scored, not deeper than the expansions made, and
/// either the start or the child of an arrangement in the closed set.
pub open spec fn waiting_ok(
    node: Node,
    solver: &Solver,
    closed: Map<Seq<usize>, Move>,
    blank: Map<Seq<usize>, Position>,
    start: Seq<usize>,
    expanded: int,
) -> bool {
    let n = solver.size as int;
    &&& solver.scored(node)
    &&& node.g <= expanded
    &&& node.movement == Move::No ==> node.map@ == start
    &&& node.movement != Move::No ==> {
        &&& node.is_child(n)
        &&& closed.contains_key(node.parent_map(n))
        &&& blank[node.parent_map(n)] == node.pos.moved_spec(node.movement)
    }
}

/// Undoing a step move from the cell it led to gives back the cell it left.
pub proof fn lemma_undo_step(q: Position, m: Move, n: int)
    requires
        m != Move::No,
        m.is_step(n),
        1 <= n <= MAX_SIZE,
        q.inside(n),
        m.legal_at(q, n),
    ensures
        q.update_spec(m).update_spec(m.opposite_spec()) == q,
        q.update_spec(m).moved_spec(m) == q,
        m.opposite_spec().offset() == -m.offset(),
        m.offset() != i64::MIN,
{
}

/// A child node's move, seen from its parent's blank, is a legal slide to the child.
pub proof fn lemma_child_slides(node: Node, n: int)
    requires
        node.is_child(n),
    ensures
        slides(
            node.parent_map(n),
            node.pos.moved_spec(node.movement),
            node.movement,
            node.map@,
            n,
        ),
        node.pos.update_spec(node.movement.opposite_spec()) == node.pos.moved_spec(node.movement),
{
    let q = node.pos.moved_spec(node.movement);
    let m = node.movement;
    crate::heuristic::lemma_index_inside(node.pos.x as int, node.pos.y as int, n);
    crate::heuristic::lemma_index_inside(q.x as int, q.y as int, n);
    let b = node.pos.index_spec(n);
    let a = q.index_spec(n);
    let p = node.parent_map(n);
    assert(node.map@ =~= swap_spec(p, a, b));
}

/// Recording a popped node in the closed set keeps the ledger.
proof fn lemma_ledger_record(
    closed: Map<Seq<usize>, Move>,
    rank: Map<Seq<usize>, nat>,
    blank: Map<Seq<usize>, Position>,
    node: Node,
    solver: &Solver,
    start: Seq<usize>,
    expanded: int,
)
    requires
        ledger_ok(closed, rank, blank, start, solver.size as int),
        closed.dom().finite(),
        waiting_ok(node, solver, closed, blank, start, expanded),
        !closed.contains_key(node.map@),
    ensures
        ledger_ok(
            closed.insert(node.map@, node.movement),
            rank.insert(node.map@, closed.len()),
            blank.insert(node.map@, node.pos),
            start,
            solver.size as int,
        ),
{
    let n = solver.size as int;
    let s0 = node.map@;
    let c2 = closed.insert(s0, node.movement);
    let r2 = rank.insert(s0, closed.len());
    let b2 = blank.insert(s0, node.pos);
    assert(c2.len() == closed.len() + 1) by {
        assert(c2.dom() =~= closed.dom().insert(s0));
    }
    crate::heuristic::lemma_index_inside(node.pos.x as int, node.pos.y as int, n);
    if node.movement != Move::No {
        lemma_child_slides(node, n);
        assert(swap_spec(s0, node.pos.index_spec(n), node.pos.moved_spec(node.movement).index_spec(
            n,
        )) == node.parent_map(n));
    }
    assert forall|s: Seq<usize>| #[trigger] c2.contains_key(s) implies {
        &&& r2.contains_key(s)
        &&& r2[s] < c2.len()
        &&& is_arrangement(s, n)
        &&& b2.contains_key(s)
        &&& b2[s].inside(n)
        &&& 0 <= b2[s].index_spec(n) < s.len()
        &&& s[b2[s].index_spec(n)] == 0
        &&& c2[s] == Move::No ==> s == start
        &&& c2[s] != Move::No ==> {
            let m = c2[s];
            let q = b2[s].update_spec(m.opposite_spec());
            let pred = swap_spec(s, b2[s].index_spec(n), q.index_spec(n));
            &&& m.is_step(n)
            &&& q.update_spec(m) == b2[s]
            &&& c2.contains_key(pred)
            &&& r2[pred] < r2[s]
            &&& b2[pred] == q
            &&& slides(pred, q, m, s, n)
        }
    } by {
        if s != s0 {
            assert(closed.contains_key(s));
            if c2[s] != Move::No {
                let m = c2[s];
                let q = b2[s].update_spec(m.opposite_spec());
                let pred = swap_spec(s, b2[s].index_spec(n), q.index_spec(n));
                assert(closed.contains_key(pred));
                assert(pred != s0);
            }
        }
    }
}

/// Going back by `m` from the blank at `p` reaches the cell `m` left, one offset away.
pub proof fn lemma_back_step(p: Position, m: Move, n: int)
    requires
        1 <= n <= MAX_SIZE,
        m != Move::No,
        m.is_step(n),
        p.inside(n),
        p.update_spec(m.opposite_spec()).inside(n),
        m.legal_at(p.update_spec(m.opposite_spec()), n),
        p.update_spec(m.opposite_spec()).update_spec(m) == p,
    ensures
        p.update_spec(m.opposite_spec()).index_spec(n) == p.index_spec(n) + m.opposite_spec().offset(),
        0 <= p.index_spec(n) < n * n,
        0 <= p.update_spec(m.opposite_spec()).index_spec(n) < n * n,
        m.offset() != i64::MIN,
        m.opposite_spec().offset() == -m.offset(),
        p.x + 1 <= i64::MAX,
{
    let q = p.update_spec(m.opposite_spec());
    crate::heuristic::lemma_index_inside(p.x as int, p.y as int, n);
    crate::heuristic::lemma_index_inside(q.x as int, q.y as int, n);
    assert((q.y - 1) * n == q.y * n - n) by (nonlinear_arith);
    assert((q.y + 1) * n == q.y * n + n) by (nonlinear_arith);
}

/// Walks back from the goal through the closed set to the start, and returns the states
/// from the start to the goal.
fn reconstruct(
    closed: &ClosedSet,
    goal_map: Vec<usize>,
    goal_pos: Position,
    goal_move: Move,
    size: usize,
    Ghost(rank): Ghost<Map<Seq<usize>, nat>>,
    Ghost(blank): Ghost<Map<Seq<usize>, Position>>,
    Ghost(start): Ghost<Seq<usize>>,
) -> (path: Vec<State>)
    requires
        size_ok(size as int),
        closed.well_formed(),
        ledger_ok(closed@, rank, blank, start, size as int),
        closed@.contains_key(goal_map@),
        closed@[goal_map@] == goal_move,
        blank[goal_map@] == goal_pos,
    ensures
        path_ok(path@, start, goal_map@, size as int),
{
    let ghost n = size as int;
    let ghost goal = goal_map@;
    let mut rev: Vec<State> = Vec::new();
    let mut cur_map = goal_map;
    let mut cur_move = goal_move;
    let mut pos = goal_pos;
    while cur_move != Move::No
        invariant
            size_ok(n),
            n == size,
            closed.well_formed(),
            ledger_ok(closed@, rank, blank, start, n),
            closed@.contains_key(cur_map@),
            closed@[cur_map@] == cur_move,
            blank[cur_map@] == pos,
            rev@.len() == 0 ==> cur_map@ == goal,
            rev@.len() > 0 ==> rev@[0].map@ == goal,
            rev@.len() > 0 ==> one_move(cur_map@, rev@.last().movement, rev@.last().map@, n),
            forall|k: int|
                0 <= k < rev@.len() - 1 ==> one_move(
                    rev@[k + 1].map@,
                    #[trigger] rev@[k].movement,
                    rev@[k].map@,
                    n,
                ),
        decreases rank[cur_map@],
    {
        let ghost s = cur_map@;
        let ghost q = pos.update_spec(cur_move.opposite_spec());
        let ghost pred = swap_spec(s, pos.index_spec(n), q.index_spec(n));
        proof {
            assert(closed@.contains_key(s));
            lemma_back_step(pos, cur_move, n);
            assert(s.len() == n * n);
            assert(n * n <= 10000) by (nonlinear_arith)
                requires
                    1 <= n <= 100,
            ;
        }
        let opp = cur_move.opposite();
        let prev_map = opp.do_move(cur_map.clone(), &pos, size);
        assert(prev_map@ == pred);
        let prev_move = match closed.get(&prev_map) {
            Some(m) => m,
            None => {
                proof {
                    assert(false);
                }
                Move::No
            },
        };
        let prev_pos = pos.update(&opp);
        proof {
            assert(slides(pred, q, cur_move, s, n));
            assert(one_move(pred, cur_move, s, n));
        }
        rev.push(State { map: cur_map, movement: cur_move });
        cur_map = prev_map;
        cur_move = prev_move;
        pos = prev_pos;
    }
    proof {
        assert(cur_map@ == start);
    }
    rev.push(State { map: cur_map, movement: Move::No });
    let ghost full = rev@;
    let mut path: Vec<State> = Vec::new();
    while rev.len() > 0
        invariant
            full.len() >= 1,
            full[0].map@ == goal,
            full.last().map@ == start,
            full.last().movement == Move::No,
            forall|k: int|
                0 <= k < full.len() - 1 ==> one_move(
                    full[k + 1].map@,
                    #[trigger] full[k].movement,
                    full[k].map@,
                    n,
                ),
            rev@ == full.subrange(0, rev@.len() as int),
            path@.len() + rev@.len() == full.len(),
            forall|i: int|
                0 <= i < path@.len() ==> #[trigger] path@[i] == full[full.len() - 1 - i],
        decreases rev@.len(),
    {
        let state = rev.pop().unwrap();
        path.push(state);
        proof {
            assert(rev@ =~= full.subrange(0, rev@.len() as int));
        }
    }
    proof {
        let l = full.len() as int;
        assert forall|i: int| 0 <= i < path@.len() - 1 implies one_move(
            path@[i].map@,
            #[trigger] path@[i + 1].movement,
            path@[i + 1].map@,
            n,
        ) by {
            let k = l - 2 - i;
            assert(path@[i] == full[k + 1]);
            assert(path@[i + 1] == full[k]);
        }
        assert(path@[0] == full[l - 1]);
        assert(path@.last() == full[0]);
    }
    path
}

/// A waiting node stays valid when another arrangement is recorded and the expansion
/// count grows.
proof fn lemma_waiting_grow(
    node: Node,
    solver: &Solver,
    closed: Map<Seq<usize>, Move>,
    blank: Map<Seq<usize>, Position>,
    start: Seq<usize>,
    expanded: int,
    key: Seq<usize>,
    m: Move,
    p: Position,
    more: int,
)
    requires
        waiting_ok(node, solver, closed, blank, start, expanded),
        !closed.contains_key(key),
        expanded <= more,
    ensures
        waiting_ok(node, solver, closed.insert(key, m), blank.insert(key, p), start, more),
{
    if node.movement != Move::No {
        assert(node.parent_map(solver.size as int) != key);
    }
}

/// The entries of the open set name slots of `arena` whose nodes are waiting; each entry
/// is its node's priority and slot, and occurs once.
pub open spec fn open_ok(
    items: Multiset<Entry>,
    arena: Seq<Node>,
    solver: &Solver,
    closed: Map<Seq<usize>, Move>,
    blank: Map<Seq<usize>, Position>,
    start: Seq<usize>,
    expanded: int,
) -> bool {
    forall|e: Entry| #[trigger]
        items.contains(e) ==> {
            &&& e.2 < arena.len()
            &&& waiting_ok(arena[e.2 as int], solver, closed, blank, start, expanded)
            &&& e == (arena[e.2 as int].f, arena[e.2 as int].t, e.2)
            &&& items.count(e) == 1
        }
}

/// Some entry of the open set holds arrangement `b`.
pub open spec fn waiting_map(items: Multiset<Entry>, arena: Seq<Node>, b: Seq<usize>) -> bool {
    exists|e: Entry| #[trigger] items.contains(e) && e.2 < arena.len() && arena[e.2 as int].map@ == b
}

/// Every slide out of a closed arrangement leads to one that is closed or waiting.
pub open spec fn frontier_ok(
    closed: Map<Seq<usize>, Move>,
    items: Multiset<Entry>,
    arena: Seq<Node>,
    n: int,
) -> bool {
    forall|s: Seq<usize>, p: Position, m: Move, b: Seq<usize>|
        closed.contains_key(s) && #[trigger] slides(s, p, m, b, n) ==> closed.contains_key(b)
            || waiting_map(items, arena, b)
}

/// The children `generate_moves` gives for `node`.
pub open spec fn children_of(node: Node, children: Seq<Node>, n: int) -> bool {
    &&& children.len() == legal_moves(node.pos, n).len()
    &&& forall|k: int|
        0 <= k < children.len() ==> {
            let c = #[trigger] children[k];
            &&& c.movement == legal_moves(node.pos, n)[k]
            &&& c.is_child(n)
            &&& c.parent_map(n) == node.map@
            &&& c.pos == node.pos.update_spec(c.movement)
            &&& c.pos.moved_spec(c.movement) == node.pos
        }
}

/// A candidate move other than `No` is among the legal moves.
proof fn lemma_legal_contains(p: Position, n: int, i: int, k: int)
    requires
        0 <= i < k <= 4,
        possible_moves_spec(p, n)[i] != Move::No,
    ensures
        legal_moves_upto(p, n, k).contains(possible_moves_spec(p, n)[i]),
    decreases k,
{
    let l = legal_moves_upto(p, n, k);
    if k == i + 1 {
        assert(l.last() == possible_moves_spec(p, n)[i]);
        assert(l[l.len() - 1] == possible_moves_spec(p, n)[i]);
    } else {
        lemma_legal_contains(p, n, i, k - 1);
        let prev = legal_moves_upto(p, n, k - 1);
        let j = choose|j: int| 0 <= j < prev.len() && prev[j] == possible_moves_spec(p, n)[i];
        assert(l[j] == prev[j]);
    }
}

/// Any slide out of a well-formed node leads to the arrangement of one of its children.
pub proof fn lemma_slide_is_child(node: Node, children: Seq<Node>, p: Position, m: Move, b: Seq<usize>, n: int)
    requires
        node.well_formed(n),
        children_of(node, children, n),
        slides(node.map@, p, m, b, n),
    ensures
        exists|k: int| 0 <= k < children.len() && (#[trigger] children[k]).map@ == b,
{
    let s = node.map@;
    crate::heuristic::lemma_index_inside(p.x as int, p.y as int, n);
    crate::heuristic::lemma_index_inside(node.pos.x as int, node.pos.y as int, n);
    assert(p.index_spec(n) == node.pos.index_spec(n));
    assert(p == node.pos);
    let poss = possible_moves_spec(p, n);
    let i: int = match m {
        Move::Left(_) => 0,
        Move::Right(_) => 1,
        Move::Up(_) => 2,
        Move::Down(_) => 3,
        Move::No => 0,
    };
    assert(poss[i] == m);
    lemma_legal_contains(p, n, i, 4);
    let lm = legal_moves(p, n);
    let k = choose|k: int| 0 <= k < lm.len() && lm[k] == m;
    let c = children[k];
    assert(c.movement == m);
    let cp = c.pos.index_spec(n);
    let np = node.pos.index_spec(n);
    crate::heuristic::lemma_index_inside(c.pos.x as int, c.pos.y as int, n);
    assert(c.map@ =~= b) by {
        assert(swap_spec(c.map@, cp, np) == s);
        assert(b == swap_spec(s, np, cp));
        assert forall|q: int| 0 <= q < b.len() implies c.map@[q] == b[q] by {
            if q == cp {
                assert(s[np] == c.map@[cp]);
            } else if q == np {
                assert(s[cp] == c.map@[np]);
            } else {
                assert(s[q] == c.map@[q]);
            }
        }
    }
}

/// When the closed set is closed under slides and holds the start but not the goal, no
/// path leads from the start to the goal.
proof fn lemma_no_path(closed: Map<Seq<usize>, Move>, path: Seq<State>, start: Seq<usize>, goal: Seq<usize>, n: int)
    requires
        forall|s: Seq<usize>, p: Position, m: Move, b: Seq<usize>|
            closed.contains_key(s) && #[trigger] slides(s, p, m, b, n) ==> closed.contains_key(b),
        closed.contains_key(start),
        !closed.contains_key(goal),
    ensures
        !path_ok(path, start, goal, n),
{
    if path_ok(path, start, goal, n) {
        assert forall|i: int| 0 <= i < path.len() implies closed.contains_key(#[trigger] path[i].map@) by {
            lemma_path_closed(closed, path, start, goal, n, i);
        }
        assert(closed.contains_key(path[path.len() - 1].map@));
    }
}

proof fn lemma_path_closed(closed: Map<Seq<usize>, Move>, path: Seq<State>, start: Seq<usize>, goal: Seq<usize>, n: int, i: int)
    requires
        forall|s: Seq<usize>, p: Position, m: Move, b: Seq<usize>|
            closed.contains_key(s) && #[trigger] slides(s, p, m, b, n) ==> closed.contains_key(b),
        closed.contains_key(start),
        path_ok(path, start, goal, n),
        0 <= i < path.len(),
    ensures
        closed.contains_key(path[i].map@),
    decreases i,
{
    if i > 0 {
        lemma_path_closed(closed, path, start, goal, n, i - 1);
        let k = i - 1;
        assert(one_move(path[k].map@, path[k + 1].movement, path[k + 1].map@, n));
        let p = choose|p: Position| #[trigger] slides(path[k].map@, p, path[k + 1].movement, path[k + 1].map@, n);
    }
}

/// Taking an entry out of the open set leaves every other arrangement waiting.
proof fn lemma_waiting_pop(items: Multiset<Entry>, arena: Seq<Node>, entry: Entry, b: Seq<usize>)
    requires
        waiting_map(items, arena, b),
    ensures
        waiting_map(items.remove(entry), arena, b) || b == arena[entry.2 as int].map@,
{
    let e = choose|e: Entry| #[trigger] items.contains(e) && e.2 < arena.len() && arena[e.2 as int].map@ == b;
    if e != entry {
        assert(items.remove(entry).contains(e));
    }
}

/// Changing a slot that no entry names keeps what is waiting.
proof fn lemma_waiting_set(items: Multiset<Entry>, arena: Seq<Node>, slot: int, x: Node, b: Seq<usize>)
    requires
        0 <= slot < arena.len(),
        waiting_map(items, arena, b),
        forall|e: Entry| #[trigger] items.contains(e) ==> e.2 != slot,
    ensures
        waiting_map(items, arena.update(slot, x), b),
{
    let e = choose|e: Entry| #[trigger] items.contains(e) && e.2 < arena.len() && arena[e.2 as int].map@ == b;
    assert(arena.update(slot, x)[e.2 as int] == arena[e.2 as int]);
}

/// Adding an entry and a node keeps what is waiting.
proof fn lemma_waiting_grow_set(items: Multiset<Entry>, arena: Seq<Node>, f: Entry, x: Node, b: Seq<usize>)
    requires
        waiting_map(items, arena, b),
    ensures
        waiting_map(items.insert(f), arena.push(x), b),
{
    let e = choose|e: Entry| #[trigger] items.contains(e) && e.2 < arena.len() && arena[e.2 as int].map@ == b;
    assert(items.insert(f).contains(e));
    assert(arena.push(x)[e.2 as int] == arena[e.2 as int]);
}

/// The frontier holds but around `x`, whose slides lead to arrangements closed, waiting,
/// or still among `children`.
pub open spec fn frontier_but(
    closed: Map<Seq<usize>, Move>,
    items: Multiset<Entry>,
    arena: Seq<Node>,
    n: int,
    x: Seq<usize>,
    children: Seq<Node>,
) -> bool {
    &&& forall|s: Seq<usize>, p: Position, m: Move, b: Seq<usize>|
        closed.contains_key(s) && s != x && #[trigger] slides(s, p, m, b, n) ==> closed.contains_key(
            b,
        ) || waiting_map(items, arena, b)
    &&& forall|p: Position, m: Move, b: Seq<usize>|
        #[trigger] slides(x, p, m, b, n) ==> closed.contains_key(b) || waiting_map(items, arena, b)
            || exists|k: int| 0 <= k < children.len() && (#[trigger] children[k]).map@ == b
}

/// Closing the popped arrangement `x` and freeing its slot starts the expansion with the
/// frontier holding but around `x`.
proof fn lemma_frontier_expand(
    closed: Map<Seq<usize>, Move>,
    items: Multiset<Entry>,
    arena: Seq<Node>,
    n: int,
    node: Node,
    slot: int,
    mv: Move,
    ph: Node,
    children: Seq<Node>,
)
    requires
        forall|s: Seq<usize>, p: Position, m: Move, b: Seq<usize>|
            closed.contains_key(s) && #[trigger] slides(s, p, m, b, n) ==> closed.contains_key(b)
                || waiting_map(items, arena, b) || b == node.map@,
        0 <= slot < arena.len(),
        forall|e: Entry| #[trigger] items.contains(e) ==> e.2 != slot,
        node.well_formed(n),
        children_of(node, children, n),
    ensures
        frontier_but(
            closed.insert(node.map@, mv),
            items,
            arena.update(slot, ph),
            n,
            node.map@,
            children,
        ),
{
    let c2 = closed.insert(node.map@, mv);
    let a2 = arena.update(slot, ph);
    let x = node.map@;
    assert forall|s: Seq<usize>, p: Position, m: Move, b: Seq<usize>|
        c2.contains_key(s) && s != x && #[trigger] slides(s, p, m, b, n) implies c2.contains_key(b)
            || waiting_map(items, a2, b) by {
        assert(closed.contains_key(s));
        if !c2.contains_key(b) {
            lemma_waiting_set(items, arena, slot, ph, b);
        }
    }
    assert forall|p: Position, m: Move, b: Seq<usize>| #[trigger] slides(x, p, m, b, n) implies c2.contains_key(
        b,
    ) || waiting_map(items, a2, b) || exists|k: int|
        0 <= k < children.len() && (#[trigger] children[k]).map@ == b by {
        lemma_slide_is_child(node, children, p, m, b, n);
    }
}

/// Handing the first pending child to the closed or open set keeps the frontier.
proof fn lemma_frontier_child(
    closed: Map<Seq<usize>, Move>,
    items: Multiset<Entry>,
    arena: Seq<Node>,
    n: int,
    x: Seq<usize>,
    children: Seq<Node>,
    items2: Multiset<Entry>,
    arena2: Seq<Node>,
)
    requires
        frontier_but(closed, items, arena, n, x, children),
        children.len() > 0,
        forall|b: Seq<usize>| waiting_map(items, arena, b) ==> #[trigger] waiting_map(items2, arena2, b),
        closed.contains_key(children[0].map@) || waiting_map(items2, arena2, children[0].map@),
    ensures
        frontier_but(closed, items2, arena2, n, x, children.drop_first()),
{
    let rest = children.drop_first();
    assert forall|p: Position, m: Move, b: Seq<usize>| #[trigger] slides(x, p, m, b, n) implies closed.contains_key(
        b,
    ) || waiting_map(items2, arena2, b) || exists|k: int|
        0 <= k < rest.len() && (#[trigger] rest[k]).map@ == b by {
        if !closed.contains_key(b) && !waiting_map(items, arena, b) {
            let k = choose|k: int| 0 <= k < children.len() && (#[trigger] children[k]).map@ == b;
            if k > 0 {
                assert(rest[k - 1] == children[k]);
            }
        }
    }
}

/// With no pending children, the frontier holds again.
proof fn lemma_frontier_done(
    closed: Map<Seq<usize>, Move>,
    items: Multiset<Entry>,
    arena: Seq<Node>,
    n: int,
    x: Seq<usize>,
    children: Seq<Node>,
)
    requires
        frontier_but(closed, items, arena, n, x, children),
        children.len() == 0,
    ensures
        frontier_ok(closed, items, arena, n),
{
}

/// One slide of the blank leads from `a` to `b`.
pub open spec fn step(a: Seq<usize>, b: Seq<usize>, n: int) -> bool {
    exists|p: Position, m: Move| #[trigger] slides(a, p, m, b, n)
}

/// Slides of the blank lead from `a` to `b`.
pub open spec fn reachable(a: Seq<usize>, b: Seq<usize>, n: int) -> bool {
    exists|ss: Seq<Seq<usize>>|
        ss.len() >= 1 && ss[0] == a && ss.last() == b && forall|i: int|
            0 <= i < ss.len() - 1 ==> #[trigger] step(ss[i], ss[i + 1], n)
}

/// One more slide extends a reachable arrangement.
proof fn lemma_reach_extend(a: Seq<usize>, b: Seq<usize>, p: Position, m: Move, c: Seq<usize>, n: int)
    requires
        reachable(a, b, n),
        slides(b, p, m, c, n),
    ensures
        reachable(a, c, n),
{
    let ss = choose|ss: Seq<Seq<usize>>|
        ss.len() >= 1 && ss[0] == a && ss.last() == b && forall|i: int|
            0 <= i < ss.len() - 1 ==> #[trigger] step(ss[i], ss[i + 1], n);
    let s2 = ss.push(c);
    assert(step(b, c, n));
    assert forall|i: int| 0 <= i < s2.len() - 1 implies #[trigger] step(s2[i], s2[i + 1], n) by {
        if i < ss.len() - 1 {
            assert(s2[i] == ss[i] && s2[i + 1] == ss[i + 1]);
        } else {
            assert(s2[i] == b && s2[i + 1] == c);
        }
    }
    assert(s2.last() == c);
}

/// Every arrangement the ledger records is reachable from the start.
proof fn lemma_ledger_reachable(
    closed: Map<Seq<usize>, Move>,
    rank: Map<Seq<usize>, nat>,
    blank: Map<Seq<usize>, Position>,
    start: Seq<usize>,
    n: int,
    s: Seq<usize>,
)
    requires
        ledger_ok(closed, rank, blank, start, n),
        closed.contains_key(s),
    ensures
        reachable(start, s, n),
    decreases rank[s],
{
    if closed[s] == Move::No {
        let ss = seq![start];
        assert(ss.last() == start);
        assert(forall|i: int| 0 <= i < ss.len() - 1 ==> #[trigger] step(ss[i], ss[i + 1], n));
    } else {
        let m = closed[s];
        let q = blank[s].update_spec(m.opposite_spec());
        let pred = swap_spec(s, blank[s].index_spec(n), q.index_spec(n));
        lemma_ledger_reachable(closed, rank, blank, start, n, pred);
        lemma_reach_extend(start, pred, q, m, s, n);
    }
}

/// Most expansions a best-first search may be asked to make.
pub const MAX_EXPANSIONS: usize = 500_000_000;

/// At most `k` of the first `k` candidate moves are legal.
proof fn lemma_legal_len(p: Position, n: int, k: int)
    requires
        0 <= k <= 4,
    ensures
        legal_moves_upto(p, n, k).len() <= k,
    decreases k,
{
    if k > 0 {
        lemma_legal_len(p, n, k - 1);
    }
}

/// Best-first search from `start` to the solver's goal. Each round takes the open node of
/// least `(f, t)`; skips it if its arrangement is closed; records it in the closed set;
/// stops with the path if it is the goal; otherwise, unless `limit` expansions were made,
/// scores its children that are not closed and adds them to the open set. With a
/// `capacity` other than 0 the open set keeps at most that many nodes, evicting the worst.
/// An empty open set ends the search with `Exhausted` when nothing was evicted, which
/// proves the goal unreachable, and with `DeadEnd` otherwise.
#[verifier::rlimit(100)]
#[verifier::spinoff_prover]
pub fn solve(start: Vec<usize>, solver: &Solver, limit: usize, capacity: usize) -> (r: Result<
    Solution,
    SearchError,
>)
    requires
        solver.well_formed(),
        is_arrangement(start@, solver.size as int),
        limit <= MAX_EXPANSIONS,
    ensures
        r matches Ok(sol) ==> {
            &&& path_ok(sol.path@, start@, solver.goal@, solver.size as int)
            &&& sol.moves == sol.path@.len() - 1
            &&& 1 <= sol.selected <= limit + 1
            &&& sol.total == sol.selected + sol.pending
        },
        start@ == solver.goal@ ==> (r matches Ok(sol) && sol.moves == 0 && sol.selected == 1
            && sol.pending == 0),
        r matches Err(SearchError::LimitReached(k)) ==> k == limit && exists|set: Set<Seq<usize>>|
            set.finite() && set.len() == k + 1 && forall|a: Seq<usize>| #[trigger]
                set.contains(a) ==> reachable(start@, a, solver.size as int),
        r matches Err(SearchError::DeadEnd) ==> capacity != 0,
        r matches Err(SearchError::Exhausted) ==> forall|p: Seq<State>|
            !#[trigger] path_ok(p, start@, solver.goal@, solver.size as int),
{
    let size = solver.size;
    let ghost n = size as int;
    let ghost st = start@;
    proof {
        crate::grid::lemma_arrangement_onto(st, n * n);
        assert(n * n >= 1) by (nonlinear_arith)
            requires
                n >= 1,
        ;
        assert(crate::grid::occurs(st, 0));
        let i = choose|i: int| 0 <= i < st.len() && st[i] == 0;
        assert(st.contains(0usize));
    }
    let mut first = Node::new(start);
    first.find_position(size);
    proof {
        assert(first.pos.y < n) by {
            crate::heuristic::lemma_cell(first.pos.index_spec(n), n);
            assert(first.pos.index_spec(n) == first.pos.y * n + first.pos.x);
            assert(first.pos.y < n) by (nonlinear_arith)
                requires
                    first.pos.y * n + first.pos.x < n * n,
                    0 <= first.pos.x,
                    n >= 1,
            ;
        }
        assert(first.well_formed(n));
    }
    let first = solver.get_cost(first);
    proof {
        solver.lemma_goal_test(first);
    }
    if first.h == 0 {
        let mut path: Vec<State> = Vec::new();
        path.push(State { map: first.map, movement: Move::No });
        return Ok(Solution { path, moves: 0, selected: 1, pending: 0, total: 1 });
    }
    let mut arena: Vec<Node> = Vec::new();
    let mut open = OpenSet::new(capacity);
    let mut closed = ClosedSet::new();
    let ghost mut rank: Map<Seq<usize>, nat> = Map::empty();
    let ghost mut blank: Map<Seq<usize>, Position> = Map::empty();
    let _ = open.insert((first.f, first.t, 0));
    arena.push(first);
    let mut expanded: usize = 0;
    let mut dropped = false;
    proof {
        assert(open_ok(open.items(), arena@, solver, closed@, blank, st, 0)) by {
            assert forall|e: Entry| #[trigger] open.items().contains(e) implies {
                &&& e.2 < arena@.len()
                &&& waiting_ok(arena@[e.2 as int], solver, closed@, blank, st, 0)
                &&& e == (arena@[e.2 as int].f, arena@[e.2 as int].t, e.2)
                &&& open.items().count(e) == 1
            } by {
                assert(e == (arena@[0].f, arena@[0].t, 0usize));
            }
        }
        assert(open.items().contains((arena@[0].f, arena@[0].t, 0usize)));
        assert(waiting_map(open.items(), arena@, st));
    }
    loop
        invariant
            solver.well_formed(),
            n == size,
            n == solver.size,
            st == start@,
            st != solver.goal@,
            closed.well_formed(),
            ledger_ok(closed@, rank, blank, st, n),
            closed@.dom().finite(),
            closed@.len() == expanded,
            expanded <= limit,
            limit <= MAX_EXPANSIONS,
            open.items().len() <= 1 + 4 * expanded,
            open_ok(open.items(), arena@, solver, closed@, blank, st, expanded as int),
            open.bound() == capacity,
            dropped ==> capacity != 0,
            !dropped ==> frontier_ok(closed@, open.items(), arena@, n),
            !dropped ==> closed@.contains_key(st) || waiting_map(open.items(), arena@, st),
            !closed@.contains_key(solver.goal@),
        decreases limit - expanded, open.items().len(),
    {
        let ghost items_before = open.items();
        let entry = match open.pop_best() {
            None => {
                proof {
                    if !dropped {
                        assert forall|b: Seq<usize>| !waiting_map(items_before, arena@, b) by {
                            if waiting_map(items_before, arena@, b) {
                                let e = choose|e: Entry| #[trigger] items_before.contains(e)
                                    && e.2 < arena@.len() && arena@[e.2 as int].map@ == b;
                                assert(items_before.count(e) > 0);
                            }
                        }
                        assert forall|p: Seq<State>| !#[trigger] path_ok(p, st, solver.goal@, n) by {
                            lemma_no_path(closed@, p, st, solver.goal@, n);
                        }
                    }
                }
                if dropped {
                    return Err(SearchError::DeadEnd);
                }
                return Err(SearchError::Exhausted);
            },
            Some(e) => e,
        };
        let slot = entry.2;
        let ghost x = arena@[slot as int].map@;
        proof {
            if !dropped {
                assert forall|s: Seq<usize>, p: Position, m: Move, b: Seq<usize>|
                    closed@.contains_key(s) && #[trigger] slides(s, p, m, b, n) implies closed@.contains_key(b)
                        || waiting_map(open.items(), arena@, b) || b == x by {
                    if !closed@.contains_key(b) {
                        lemma_waiting_pop(items_before, arena@, entry, b);
                    }
                }
                if !closed@.contains_key(st) {
                    lemma_waiting_pop(items_before, arena@, entry, st);
                }
            }
        }
        proof {
            assert(open_ok(open.items(), arena@, solver, closed@, blank, st, expanded as int)) by {
                assert forall|e: Entry| #[trigger] open.items().contains(e) implies {
                    &&& e.2 < arena@.len()
                    &&& waiting_ok(arena@[e.2 as int], solver, closed@, blank, st, expanded as int)
                    &&& e == (arena@[e.2 as int].f, arena@[e.2 as int].t, e.2)
                    &&& open.items().count(e) == 1
                } by {
                    assert(items_before.contains(e));
                }
            }
            assert(items_before.contains(entry));
            assert(open.items().count(entry) == 0);
        }
        if closed.contains_key(&arena[slot].map) {
            continue ;
        }
        proof {
            assert(x != solver.goal@ || arena@[slot as int].h == 0) by {
                solver.lemma_goal_test(arena@[slot as int]);
            }
        }
        let ghost cur = arena@[slot as int];
        proof {
            solver.lemma_goal_test(cur);
            lemma_ledger_record(closed@, rank, blank, cur, solver, st, expanded as int);
        }
        if arena[slot].h == 0 {
            closed.insert(arena[slot].map.clone(), arena[slot].movement);
            proof {
                rank = rank.insert(cur.map@, expanded as nat);
                blank = blank.insert(cur.map@, cur.pos);
            }
            let path = reconstruct(
                &closed,
                arena[slot].map.clone(),
                arena[slot].pos,
                arena[slot].movement,
                size,
                Ghost(rank),
                Ghost(blank),
                Ghost(st),
            );
            let selected = closed.len();
            let pending = open.len();
            let moves = path.len() - 1;
            return Ok(Solution { path, moves, selected, pending, total: pending + selected });
        }
        if expanded >= limit {
            proof {
                assert(items_before.contains(entry));
                let set = closed@.dom().insert(cur.map@);
                assert(set.len() == expanded + 1);
                assert forall|a: Seq<usize>| #[trigger] set.contains(a) implies reachable(st, a, n) by {
                    if closed@.contains_key(a) {
                        lemma_ledger_reachable(closed@, rank, blank, st, n, a);
                    } else if cur.movement == Move::No {
                        let ss = seq![st];
                        assert(ss.last() == st);
                        assert(forall|i: int| 0 <= i < ss.len() - 1 ==> #[trigger] step(ss[i], ss[i + 1], n));
                    } else {
                        lemma_ledger_reachable(closed@, rank, blank, st, n, cur.parent_map(n));
                        lemma_child_slides(cur, n);
                        lemma_reach_extend(
                            st,
                            cur.parent_map(n),
                            cur.pos.moved_spec(cur.movement),
                            cur.movement,
                            cur.map@,
                            n,
                        );
                    }
                }
            }
            return Err(SearchError::LimitReached(expanded));
        }
        let ghost old_closed = closed@;
        let ghost old_blank = blank;
        closed.insert(arena[slot].map.clone(), arena[slot].movement);
        proof {
            rank = rank.insert(cur.map@, expanded as nat);
            blank = blank.insert(cur.map@, cur.pos);
            assert(closed@.dom() =~= old_closed.dom().insert(cur.map@));
        }
        let mut children = arena[slot].generate_moves(size);
        proof {
            lemma_legal_len(cur.pos, n, 4);
            assert(items_before.len() == open.items().len() + 1);
        }
        let ghost arena_full = arena@;
        arena.set(slot, Node::new(Vec::new()));
        expanded = expanded + 1;
        proof {
            assert(forall|e: Entry| #[trigger] open.items().contains(e) ==> e.2 != slot);
            assert(arena@ == arena_full.update(slot as int, arena@[slot as int]));
            assert(cur.map@ != solver.goal@);
            if !dropped {
                lemma_frontier_expand(
                    old_closed,
                    open.items(),
                    arena_full,
                    n,
                    cur,
                    slot as int,
                    cur.movement,
                    arena@[slot as int],
                    children@,
                );
                if !old_closed.contains_key(st) && st != cur.map@ {
                    lemma_waiting_set(open.items(), arena_full, slot as int, arena@[slot as int], st);
                }
            }
        }
        proof {
            assert forall|e: Entry| #[trigger] open.items().contains(e) implies {
                &&& e.2 < arena@.len()
                &&& waiting_ok(arena@[e.2 as int], solver, closed@, blank, st, expanded as int)
                &&& e == (arena@[e.2 as int].f, arena@[e.2 as int].t, e.2)
                &&& open.items().count(e) == 1
            } by {
                assert(e.2 != slot);
                assert(arena@[e.2 as int] == arena_full[e.2 as int]);
                lemma_waiting_grow(
                    arena@[e.2 as int],
                    solver,
                    old_closed,
                    old_blank,
                    st,
                    expanded - 1,
                    cur.map@,
                    cur.movement,
                    cur.pos,
                    expanded as int,
                );
            }
        }
        while children.len() > 0
            invariant
                solver.well_formed(),
                n == size,
                n == solver.size,
                closed.well_formed(),
                ledger_ok(closed@, rank, blank, st, n),
                closed@.contains_key(cur.map@),
                blank[cur.map@] == cur.pos,
                solver.scored(cur),
                cur.g < expanded,
                expanded <= MAX_EXPANSIONS,
                open.items().len() + children@.len() <= 1 + 4 * expanded,
                open_ok(open.items(), arena@, solver, closed@, blank, st, expanded as int),
                open.bound() == capacity,
                dropped ==> capacity != 0,
                !dropped ==> frontier_but(closed@, open.items(), arena@, n, cur.map@, children@),
                !dropped ==> closed@.contains_key(st) || waiting_map(open.items(), arena@, st),
                !closed@.contains_key(solver.goal@),
                forall|k: int|
                    0 <= k < children@.len() ==> {
                        let c = #[trigger] children@[k];
                        &&& c.movement != Move::No
                        &&& c.is_child(n)
                        &&& c.parent_map(n) == cur.map@
                        &&& c.pos.moved_spec(c.movement) == cur.pos
                        &&& c.cost@ == cur.cost@
                        &&& c.g == cur.g + 1
                        &&& c.h == cur.h
                    },
            decreases children@.len(),
        {
            let ghost before = children@;
            let child = children.remove(0);
            proof {
                assert(children@.len() + 1 == before.len());
                assert forall|k: int| 0 <= k < children@.len() implies #[trigger] children@[k]
                    == before[k + 1] by {}
            }
            proof {
                assert(children@ =~= before.drop_first());
            }
            if closed.contains_key(&child.map) {
                proof {
                    if !dropped {
                        lemma_frontier_child(
                            closed@,
                            open.items(),
                            arena@,
                            n,
                            cur.map@,
                            before,
                            open.items(),
                            arena@,
                        );
                    }
                }
                continue ;
            }
            let ghost child_map = child.map@;
            let child = solver.update_cost(child);
            let s = arena.len();
            let ghost items0 = open.items();
            let ghost arena0 = arena@;
            let fresh = (child.f, child.t, s);
            let evicted = open.insert(fresh);
            arena.push(child);
            let ghost arena1 = arena@;
            proof {
                assert(!items0.contains(fresh));
                assert(items0.insert(fresh).count(fresh) == 1);
            }
            match evicted {
                Some(w) => {
                    proof {
                        assert(items0.insert(fresh).contains(w));
                        assert(items0.insert(fresh).count(w) == 1) by {
                            if w != fresh {
                                assert(items0.contains(w));
                            }
                        }
                        assert(w.2 < arena@.len()) by {
                            if w != fresh {
                                assert(items0.contains(w));
                            }
                        }
                    }
                    arena.set(w.2, Node::new(Vec::new()));
                    dropped = true;
                    proof {
                        assert(open.items().count(w) == 0);
                    }
                },
                None => {},
            }
            proof {
                assert forall|e: Entry| #[trigger] open.items().contains(e) implies {
                    &&& e.2 < arena@.len()
                    &&& waiting_ok(arena@[e.2 as int], solver, closed@, blank, st, expanded as int)
                    &&& e == (arena@[e.2 as int].f, arena@[e.2 as int].t, e.2)
                    &&& open.items().count(e) == 1
                } by {
                    assert(items0.insert(fresh).contains(e));
                    if e != fresh {
                        assert(items0.contains(e));
                        assert(arena1[e.2 as int] == arena0[e.2 as int]);
                    }
                    assert(e == (arena1[e.2 as int].f, arena1[e.2 as int].t, e.2));
                    if evicted is Some {
                        let w = evicted->Some_0;
                        assert(e != w);
                        assert(items0.insert(fresh).contains(w));
                        if w != fresh {
                            assert(items0.contains(w));
                            assert(arena1[w.2 as int] == arena0[w.2 as int]);
                        }
                        assert(w == (arena1[w.2 as int].f, arena1[w.2 as int].t, w.2));
                        if e.2 == w.2 {
                            assert(e == w);
                        }
                        assert(arena@[e.2 as int] == arena1[e.2 as int]);
                    }
                }
                if !dropped {
                    assert(evicted is None);
                    assert(open.items() == items0.insert(fresh));
                    assert(arena@ == arena0.push(arena1[s as int]));
                    assert forall|b: Seq<usize>| waiting_map(items0, arena0, b) implies #[trigger] waiting_map(
                        open.items(),
                        arena@,
                        b,
                    ) by {
                        lemma_waiting_grow_set(items0, arena0, fresh, arena1[s as int], b);
                    }
                    assert(open.items().contains(fresh));
                    assert(arena@[s as int].map@ == before[0].map@);
                    assert(waiting_map(open.items(), arena@, before[0].map@));
                    lemma_frontier_child(
                        closed@,
                        items0,
                        arena0,
                        n,
                        cur.map@,
                        before,
                        open.items(),
                        arena@,
                    );
                }
            }
        }
        proof {
            if !dropped {
                lemma_frontier_done(closed@, open.items(), arena@, n, cur.map@, children@);
            }
        }
    }
}

} // verus!