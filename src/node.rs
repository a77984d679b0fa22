//! A search state and the states one slide away from it.

use vstd::prelude::*;
use crate::grid::{Move, Position, is_arrangement, swap_spec, size_ok};

verus! {

/// One state of the search: the tiles, the blank, the move that produced it and its costs.
#[derive(Debug)]
pub struct Node {
    /// The arrangement, row by row.
    pub map: Vec<usize>,
    /// Cost contribution of each tile id, used to update `h` after one move.
    pub cost: Vec<usize>,
    /// Where the blank is.
    pub pos: Position,
    /// The move that produced this node from its parent (`No` for the start).
    pub movement: Move,
    /// Heuristic estimate of the remaining moves.
    pub h: usize,
    /// Moves taken so far.
    pub g: usize,
    /// Priority: lower is expanded first.
    pub f: usize,
    /// Secondary priority among nodes of equal `f`: lower is expanded first.
    pub t: usize,
}

/// Largest depth that a node may have: with the largest heuristic value it keeps
/// `g + h` within 32 bits.
pub const MAX_DEPTH: usize = 2_000_000_000;

impl Node {
    /// `pos` is the blank's cell.
    pub open spec fn blank_at_pos(&self, n: int) -> bool {
        &&& self.pos.inside(n)
        &&& self.pos.index_spec(n) < self.map@.len()
        &&& self.map@[self.pos.index_spec(n)] == 0
    }

    /// The arrangement is valid, `pos` is its blank and the cost vector has one entry per tile.
    pub open spec fn well_formed(&self, n: int) -> bool {
        &&& size_ok(n)
        &&& is_arrangement(self.map@, n)
        &&& self.cost@.len() == n * n
        &&& self.blank_at_pos(n)
    }

    /// Where the tile that the last move slid now stands.
    pub open spec fn moved_index(&self, n: int) -> int {
        self.pos.moved_spec(self.movement).index_spec(n)
    }

    /// The node was made by a real move of the blank from a cell of the grid.
    pub open spec fn is_child(&self, n: int) -> bool {
        &&& self.well_formed(n)
        &&& self.movement != Move::No
        &&& self.movement.is_step(n)
        &&& self.pos.moved_spec(self.movement).inside(n)
        &&& self.pos.moved_spec(self.movement).update_spec(self.movement) == self.pos
    }

    /// The arrangement before the last move.
    pub open spec fn parent_map(&self, n: int) -> Seq<usize> {
        swap_spec(self.map@, self.pos.index_spec(n), self.moved_index(n))
    }

    /// A node for `map` with zero costs, the blank assumed at (0, 0) until
    /// `find_position` is called.
    pub fn new(map: Vec<usize>) -> (r: Node)
        ensures
            r.map@ == map@,
            r.cost@ == Seq::new(map@.len(), |i: int| 0usize),
            r.pos == (Position { x: 0, y: 0 }),
            r.movement == Move::No,
            r.h == 0 && r.g == 0 && r.f == 0 && r.t == 0,
    {
        let len = map.len();
        let mut cost: Vec<usize> = Vec::new();
        let mut i: usize = 0;
        while i < len
            invariant
                i <= len,
                cost@ == Seq::new(i as nat, |k: int| 0usize),
            decreases len - i,
        {
            cost.push(0);
            i = i + 1;
            proof {
                assert(cost@ =~= Seq::new(i as nat, |k: int| 0usize));
            }
        }
        Node {
            map,
            cost,
            pos: Position { x: 0, y: 0 },
            movement: Move::No,
            f: 0,
            g: 0,
            h: 0,
            t: 0,
        }
    }

    /// Sets `pos` to the cell of the first blank of the arrangement.
    pub fn find_position(&mut self, size: usize)
        requires
            size >= 1,
            old(self).map@.contains(0usize),
        ensures
            final(self).map@ == old(self).map@,
            final(self).cost@ == old(self).cost@,
            final(self).movement == old(self).movement,
            final(self).h == old(self).h && final(self).g == old(self).g,
            final(self).f == old(self).f && final(self).t == old(self).t,
            final(self).pos.x < size,
            final(self).pos.index_spec(size as int) < old(self).map@.len(),
            old(self).map@[final(self).pos.index_spec(size as int)] == 0,
            forall|j: int|
                0 <= j < final(self).pos.index_spec(size as int) ==> old(self).map@[j] != 0,
    {
        let len = self.map.len();
        let mut index: usize = 0;
        while index < len && self.map[index] != 0
            invariant
                len == self.map@.len(),
                index <= len,
                self.map@.contains(0usize),
                forall|j: int| 0 <= j < index ==> self.map@[j] != 0,
            decreases len - index,
        {
            index = index + 1;
        }
        proof {
            if index == len {
                let w = choose|w: int| 0 <= w < len && self.map@[w] == 0usize;
                assert(self.map@[w] != 0);
            }
        }
        self.pos.x = index % size;
        self.pos.y = index / size;
        proof {
            vstd::arithmetic::div_mod::lemma_fundamental_div_mod(index as int, size as int);
            assert(self.pos.index_spec(size as int) == index) by (nonlinear_arith)
                requires
                    self.pos.x == index % size,
                    self.pos.y == index / size,
                    index == size * (index / size) + index % size,
            ;
        }
    }

    /// The children of the node, one for each move that the grid's edges allow, in the
    /// order Left, Right, Up, Down. Each has the swapped tiles, the new blank, the move,
    /// one more step, and a copy of this node's cost vector and estimate, to be updated.
    pub fn generate_moves(&self, size: usize) -> (r: Vec<Node>)
        requires
            self.well_formed(size as int),
            self.g < MAX_DEPTH,
        ensures
            r@.len() == legal_moves(self.pos, size as int).len(),
            forall|k: int|
                0 <= k < r@.len() ==> {
                    let c = #[trigger] r@[k];
                    &&& c.movement == legal_moves(self.pos, size as int)[k]
                    &&& c.is_child(size as int)
                    &&& c.parent_map(size as int) == self.map@
                    &&& c.pos == self.pos.update_spec(c.movement)
                    &&& c.pos.moved_spec(c.movement) == self.pos
                    &&& c.cost@ == self.cost@
                    &&& c.g == self.g + 1
                    &&& c.h == self.h
                },
    {
        let ghost n = size as int;
        proof {
            assert(n * n <= 10000) by (nonlinear_arith)
                requires
                    1 <= n <= 100,
            ;
        }
        let possible = self.pos.possible_moves(size);
        let mut moves: Vec<Node> = Vec::new();
        let mut k: usize = 0;
        while k < 4
            invariant
                self.well_formed(n),
                self.g < MAX_DEPTH,
                n == size,
                n * n <= 10000,
                0 <= k <= 4,
                possible@ == possible_moves_spec(self.pos, n),
                moves@.len() == legal_moves_upto(self.pos, n, k as int).len(),
                forall|i: int|
                    0 <= i < moves@.len() ==> {
                        let c = #[trigger] moves@[i];
                        &&& c.movement == legal_moves_upto(self.pos, n, k as int)[i]
                        &&& c.is_child(n)
                        &&& c.parent_map(n) == self.map@
                        &&& c.pos == self.pos.update_spec(c.movement)
                        &&& c.pos.moved_spec(c.movement) == self.pos
                        &&& c.cost@ == self.cost@
                        &&& c.g == self.g + 1
                        &&& c.h == self.h
                    },
            decreases 4 - k,
        {
            let movement = possible[k];
            if movement != Move::No {
                let ghost b = self.pos.index_spec(n);
                let q = self.pos.update(&movement);
                proof {
                    lemma_step_cells(self.pos, movement, n);
                }
                let map = movement.do_move(self.map.clone(), &self.pos, size);
                let mut node = Node::new(map);
                node.cost = self.cost.clone();
                node.pos = q;
                node.movement = movement;
                node.g = self.g + 1;
                node.h = self.h;
                proof {
                    let c = node.map@;
                    let m = q.index_spec(n);
                    assert(c == swap_spec(self.map@, b, m));
                    assert(q.moved_spec(movement) == self.pos);
                    assert(node.moved_index(n) == b);
                    assert(c[m] == 0);
                    assert forall|i: int, j: int|
                        0 <= i < c.len() && 0 <= j < c.len() && i != j implies c[i] != c[j] by {
                        let si = if i == b { m } else if i == m { b } else { i };
                        let sj = if j == b { m } else if j == m { b } else { j };
                        assert(c[i] == self.map@[si]);
                        assert(c[j] == self.map@[sj]);
                    }
                    assert(node.parent_map(n) =~= self.map@);
                }
                moves.push(node);
            }
            proof {
                assert(legal_moves_upto(self.pos, n, k + 1) == if possible_moves_spec(self.pos, n)[k as int]
                    != Move::No {
                    legal_moves_upto(self.pos, n, k as int).push(possible_moves_spec(self.pos, n)[k as int])
                } else {
                    legal_moves_upto(self.pos, n, k as int)
                });
            }
            k = k + 1;
        }
        moves
    }
}

/// The four candidate moves from `p`, `No` where an edge forbids one.
pub open spec fn possible_moves_spec(p: Position, n: int) -> Seq<Move> {
    seq![
        if p.x > 0 { Move::Left(-1i64) } else { Move::No },
        if p.x + 1 < n { Move::Right(1i64) } else { Move::No },
        if p.y > 0 { Move::Up((-n) as i64) } else { Move::No },
        if p.y + 1 < n { Move::Down(n as i64) } else { Move::No },
    ]
}

/// The moves allowed among the first `k` candidates.
pub open spec fn legal_moves_upto(p: Position, n: int, k: int) -> Seq<Move>
    decreases k,
{
    if k <= 0 {
        Seq::empty()
    } else if possible_moves_spec(p, n)[k - 1] != Move::No {
        legal_moves_upto(p, n, k - 1).push(possible_moves_spec(p, n)[k - 1])
    } else {
        legal_moves_upto(p, n, k - 1)
    }
}

/// The moves allowed from `p`, in the order Left, Right, Up, Down.
pub open spec fn legal_moves(p: Position, n: int) -> Seq<Move> {
    legal_moves_upto(p, n, 4)
}

/// A candidate move from a cell of the grid lands on a cell of the grid, one step away.
pub proof fn lemma_step_cells(p: Position, m: Move, n: int)
    requires
        1 <= n <= 1000,
        p.inside(n),
        m != Move::No,
        possible_moves_spec(p, n).contains(m),
    ensures
        m.is_step(n),
        m.legal_at(p, n),
        p.update_spec(m).inside(n),
        p.update_spec(m).index_spec(n) == p.index_spec(n) + m.offset(),
        p.update_spec(m).moved_spec(m) == p,
        p.update_spec(m).moved_spec(m).update_spec(m) == p.update_spec(m),
        p.update_spec(m) != p,
        0 <= p.index_spec(n) < n * n,
        0 <= p.update_spec(m).index_spec(n) < n * n,
{
    let q = p.update_spec(m);
    let i = choose|i: int| 0 <= i < 4 && possible_moves_spec(p, n)[i] == m;
    assert(0 <= p.y * n + p.x < n * n) by (nonlinear_arith)
        requires
            p.x < n,
            p.y < n,
    ;
    assert(0 <= q.y * n + q.x < n * n) by (nonlinear_arith)
        requires
            q.x < n,
            q.y < n,
    ;
    assert((p.y - 1) * n == p.y * n - n) by (nonlinear_arith);
    assert((p.y + 1) * n == p.y * n + n) by (nonlinear_arith);
}

} // verus!