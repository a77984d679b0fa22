//! Coordinates, moves of the blank, and arrangements of tiles.

use vstd::prelude::*;
use vstd::string::StringSliceAdditionalSpecFns;

verus! {

/// Largest grid side the search engine accepts; it keeps every cost within 32 bits.
pub const MAX_SIZE: usize = 100;

/// Every tile of `s` names a cell of a grid with `t` cells.
pub open spec fn tiles_in_range(s: Seq<usize>, t: int) -> bool {
    &&& s.len() == t
    &&& forall|i: int| 0 <= i < s.len() ==> (#[trigger] s[i]) < t
}

/// No tile occurs twice.
pub open spec fn distinct(s: Seq<usize>) -> bool {
    forall|i: int, j: int| 0 <= i < s.len() && 0 <= j < s.len() && i != j ==> s[i] != s[j]
}

/// A valid arrangement of an `n` by `n` grid: each of the ids `0 .. n*n` exactly once.
pub open spec fn is_arrangement(s: Seq<usize>, n: int) -> bool {
    tiles_in_range(s, n * n) && distinct(s)
}

/// `end` maps each tile id to the index that `goal` gives it.
pub open spec fn is_inverse(end: Seq<usize>, goal: Seq<usize>) -> bool {
    &&& end.len() == goal.len()
    &&& tiles_in_range(end, goal.len() as int)
    &&& forall|i: int| 0 <= i < goal.len() ==> end[#[trigger] goal[i] as int] == i
}

/// `s` with the entries at `i` and `j` exchanged.
pub open spec fn swap_spec(s: Seq<usize>, i: int, j: int) -> Seq<usize> {
    s.update(i, s[j]).update(j, s[i])
}

/// Index of a cell from its column `x` and row `y`.
pub open spec fn index_of(x: int, y: int, n: int) -> int {
    y * n + x
}

/// Sizes the engine works with.
pub open spec fn size_ok(n: int) -> bool {
    1 <= n <= MAX_SIZE
}

/// What `swap_indexes` builds: for each id the last index that holds it, 0 for an absent id.
pub open spec fn inverse_entry_ok(s: Seq<usize>, r: Seq<usize>, k: int) -> bool {
    if exists|i: int| 0 <= i < s.len() && s[i] == k {
        &&& r[k] < s.len()
        &&& s[r[k] as int] == k
        &&& forall|j: int| r[k] < j < s.len() ==> s[j] != k
    } else {
        r[k] == 0
    }
}

/// Id `k` stands somewhere in `s`.
pub open spec fn occurs(s: Seq<usize>, k: int) -> bool {
    exists|i: int| 0 <= i < s.len() && s[i] == k
}

/// Each id below `t` occurs in an arrangement of `t` distinct ids below `t`.
pub proof fn lemma_arrangement_onto(s: Seq<usize>, t: int)
    requires
        tiles_in_range(s, t),
        distinct(s),
    ensures
        forall|k: int| 0 <= k < t ==> #[trigger] occurs(s, k),
{
    let cells = vstd::set_lib::set_int_range(0, t);
    let f = |i: int| s[i] as int;
    let ids = cells.map(f);
    vstd::set_lib::lemma_int_range(0, t);
    assert(vstd::relations::injective_on(f, cells));
    vstd::set_lib::lemma_map_size(cells, ids, f);
    assert(ids.subset_of(cells)) by {
        assert forall|k: int| #[trigger] ids.contains(k) implies cells.contains(k) by {
            let i = choose|i: int| cells.contains(i) && f(i) == k;
        }
    }
    vstd::set_lib::lemma_subset_equality(ids, cells);
    assert forall|k: int| 0 <= k < t implies #[trigger] occurs(s, k) by {
        assert(cells.contains(k));
        assert(ids.contains(k));
        let i = choose|i: int| cells.contains(i) && f(i) == k;
        assert(0 <= i < s.len() && s[i] == k);
    }
}

/// Whether `map` is an arrangement of a grid of side `size`.
pub fn is_valid_arrangement(map: &Vec<usize>, size: usize) -> (r: bool)
    requires
        size <= 1000,
    ensures
        r == is_arrangement(map@, size as int),
{
    proof {
        assert(size * size <= 1_000_000) by (nonlinear_arith)
            requires
                size <= 1000,
        ;
    }
    let t = size * size;
    if map.len() != t {
        return false;
    }
    let mut seen: Vec<bool> = Vec::new();
    let mut z: usize = 0;
    while z < t
        invariant
            z <= t,
            seen@.len() == z,
            forall|k: int| 0 <= k < z ==> !seen@[k],
        decreases t - z,
    {
        seen.push(false);
        z = z + 1;
    }
    let mut i: usize = 0;
    while i < t
        invariant
            t == size * size,
            map@.len() == t,
            i <= t,
            seen@.len() == t,
            forall|k: int| 0 <= k < i ==> map@[k] < t,
            forall|v: int| 0 <= v < t ==> seen@[v] == exists|k: int| 0 <= k < i && map@[k] == v,
            forall|a: int, b: int| 0 <= a < i && 0 <= b < i && a != b ==> map@[a] != map@[b],
        decreases t - i,
    {
        let v = map[i];
        if v >= t {
            return false;
        }
        if seen[v] {
            proof {
                let k = choose|k: int| 0 <= k < i && map@[k] == v;
                assert(map@[k] == map@[i as int]);
            }
            return false;
        }
        seen.set(v, true);
        proof {
            assert forall|w: int| 0 <= w < t implies seen@[w] == exists|k: int|
                0 <= k < i + 1 && map@[k] == w by {
                if w == v {
                    assert(map@[i as int] == w);
                } else if seen@[w] {
                    let k = choose|k: int| 0 <= k < i && map@[k] == w;
                    assert(0 <= k < i + 1 && map@[k] == w);
                }
            }
        }
        i = i + 1;
    }
    true
}

/// Builds the inverse lookup of `vec`: entry `vec[i]` of the result is `i`.
pub fn swap_indexes(vec: Vec<usize>) -> (r: Vec<usize>)
    requires
        tiles_in_range(vec@, vec@.len() as int),
    ensures
        r@.len() == vec@.len(),
        forall|k: int| 0 <= k < vec@.len() ==> inverse_entry_ok(vec@, r@, k),
        distinct(vec@) ==> is_inverse(r@, vec@),
{
    let len = vec.len();
    let mut acc: Vec<usize> = Vec::new();
    let mut z: usize = 0;
    while z < len
        invariant
            z <= len,
            acc@.len() == z,
            forall|k: int| 0 <= k < z ==> acc@[k] == 0,
        decreases len - z,
    {
        acc.push(0);
        z = z + 1;
    }
    let mut i: usize = 0;
    while i < len
        invariant
            len == vec@.len(),
            tiles_in_range(vec@, len as int),
            i <= len,
            acc@.len() == len,
            forall|k: int|
                0 <= k < len ==> inverse_entry_ok(vec@.subrange(0, i as int), acc@, k),
        decreases len - i,
    {
        let x = vec[i];
        let ghost prev = acc@;
        acc.set(x, i);
        proof {
            let s0 = vec@.subrange(0, i as int);
            let s1 = vec@.subrange(0, i + 1);
            assert forall|k: int| 0 <= k < len implies inverse_entry_ok(s1, acc@, k) by {
                assert(s1[i as int] == x);
                if k == x {
                    assert(s1[i as int] == k);
                } else {
                    assert(inverse_entry_ok(s0, prev, k));
                    if exists|j: int| 0 <= j < s0.len() && s0[j] == k {
                        let j = choose|j: int| 0 <= j < s0.len() && s0[j] == k;
                        assert(s1[j] == k);
                    }
                    if exists|j: int| 0 <= j < s1.len() && s1[j] == k {
                        let j = choose|j: int| 0 <= j < s1.len() && s1[j] == k;
                        assert(s0[j] == k);
                    }
                }
            }
        }
        i = i + 1;
    }
    proof {
        assert(vec@.subrange(0, len as int) =~= vec@);
        if distinct(vec@) {
            assert forall|i: int| 0 <= i < len implies acc@[#[trigger] vec@[i] as int] == i by {
                assert(inverse_entry_ok(vec@, acc@, vec@[i] as int));
            }
            assert forall|k: int| 0 <= k < len implies (#[trigger] acc@[k]) < len by {
                assert(inverse_entry_ok(vec@, acc@, k));
            }
        }
    }
    acc
}

/// Whether two arrangements hold the same tiles in the same cells.
pub fn same_tiles(a: &Vec<usize>, b: &Vec<usize>) -> (r: bool)
    ensures
        r == (a@ == b@),
{
    if a.len() != b.len() {
        return false;
    }
    let mut i: usize = 0;
    while i < a.len()
        invariant
            a@.len() == b@.len(),
            i <= a@.len(),
            forall|k: int| 0 <= k < i ==> a@[k] == b@[k],
        decreases a@.len() - i,
    {
        if a[i] != b[i] {
            return false;
        }
        i = i + 1;
    }
    proof {
        assert(a@ =~= b@);
    }
    true
}

/// Whether two strings hold the same characters.
pub fn same_text(a: &str, b: &str) -> (r: bool)
    ensures
        r == (a@ == b@),
{
    let x = a.as_bytes();
    let y = b.as_bytes();
    proof {
        vstd::utf8::encode_utf8_decode_utf8(a@);
        vstd::utf8::encode_utf8_decode_utf8(b@);
    }
    let (lx, ly) = (x.len(), y.len());
    if lx != ly {
        proof {
            if a@ == b@ {
                assert(a.spec_bytes() == b.spec_bytes());
                assert(x@.len() == y@.len());
            }
        }
        return false;
    }
    let mut i: usize = 0;
    while i < x.len()
        invariant
            x@ == a.spec_bytes(),
            y@ == b.spec_bytes(),
            x@.len() == y@.len(),
            i <= x@.len(),
            forall|k: int| 0 <= k < i ==> x@[k] == y@[k],
        decreases x@.len() - i,
    {
        if x[i] != y[i] {
            proof {
                if a@ == b@ {
                    assert(a.spec_bytes() == b.spec_bytes());
                }
            }
            return false;
        }
        i = i + 1;
    }
    proof {
        assert(x@ =~= y@);
    }
    true
}

/// A cell of the grid: column `x`, row `y`.
#[derive(Debug, Clone, Copy, PartialEq, Eq, Structural)]
pub struct Position {
    pub x: usize,
    pub y: usize,
}

/// A slide of the blank, with the change of linear index that it makes.
#[derive(Debug, Clone, Copy, PartialEq, Eq, Structural)]
pub enum Move {
    Up(i64),
    Down(i64),
    Left(i64),
    Right(i64),
    No,
}

impl Move {
    /// The offset that the move carries (0 for `No`).
    pub open spec fn offset(self) -> int {
        match self {
            Move::Up(x) => x as int,
            Move::Down(x) => x as int,
            Move::Left(x) => x as int,
            Move::Right(x) => x as int,
            Move::No => 0,
        }
    }

    /// The move carries the offset that its direction has on an `n` by `n` grid.
    pub open spec fn is_step(self, n: int) -> bool {
        match self {
            Move::Up(x) => x == -n,
            Move::Down(x) => x == n,
            Move::Left(x) => x == -1,
            Move::Right(x) => x == 1,
            Move::No => true,
        }
    }

    /// The direction that undoes this one, with the offset negated.
    pub open spec fn opposite_spec(self) -> Move {
        match self {
            Move::Left(x) => Move::Right((-x) as i64),
            Move::Right(x) => Move::Left((-x) as i64),
            Move::Up(x) => Move::Down((-x) as i64),
            Move::Down(x) => Move::Up((-x) as i64),
            Move::No => Move::No,
        }
    }

    /// Whether the blank at `p` may make this move on an `n` by `n` grid.
    pub open spec fn legal_at(self, p: Position, n: int) -> bool {
        match self {
            Move::Left(_) => p.x > 0,
            Move::Right(_) => p.x + 1 < n,
            Move::Up(_) => p.y > 0,
            Move::Down(_) => p.y + 1 < n,
            Move::No => true,
        }
    }

    /// Exchanges the blank at `pos` with the tile `offset` cells away.
    pub fn do_move(&self, map: Vec<usize>, pos: &Position, size: usize) -> (r: Vec<usize>)
        requires
            map@.len() <= i64::MAX,
            pos.index_spec(size as int) < map@.len(),
            0 <= pos.index_spec(size as int) + self.offset() < map@.len(),
        ensures
            r@ == swap_spec(
                map@,
                pos.index_spec(size as int),
                pos.index_spec(size as int) + self.offset(),
            ),
    {
        let mut map = map;
        let _len = map.len();
        assert(pos.y * size + pos.x == pos.index_spec(size as int));
        let p = pos.as_index(size);
        let offset = self.get_offset();
        let new_pos = (p as i64 + offset) as usize;
        let tmp = map[new_pos];
        let moving = map[p];
        map.set(new_pos, moving);
        map.set(p, tmp);
        map
    }

    /// The offset that the move carries.
    pub fn get_offset(&self) -> (r: i64)
        ensures
            r == self.offset(),
    {
        match self {
            Move::Up(x) | Move::Down(x) | Move::Left(x) | Move::Right(x) => *x,
            Move::No => 0,
        }
    }

    /// The reverse move: Up and Down swap, Left and Right swap, `No` stays.
    pub fn opposite(&self) -> (r: Move)
        requires
            self.offset() != i64::MIN,
        ensures
            r == self.opposite_spec(),
            r.opposite_spec() == *self,
    {
        match self {
            Move::Left(x) => Move::Right(-*x),
            Move::Right(x) => Move::Left(-*x),
            Move::Up(x) => Move::Down(-*x),
            Move::Down(x) => Move::Up(-*x),
            Move::No => Move::No,
        }
    }
}

impl Move {
    /// What a move is called when a solution is shown.
    pub open spec fn name_spec(self) -> Seq<char> {
        match self {
            Move::Left(_) => "Left"@,
            Move::Right(_) => "Right"@,
            Move::Up(_) => "Up"@,
            Move::Down(_) => "Down"@,
            Move::No => "Start State"@,
        }
    }

    /// The name of the move, "Start State" for `No`.
    pub fn name(&self) -> (r: &'static str)
        ensures
            r@ == self.name_spec(),
    {
        match self {
            Move::Left(_) => "Left",
            Move::Right(_) => "Right",
            Move::Up(_) => "Up",
            Move::Down(_) => "Down",
            Move::No => "Start State",
        }
    }
}

/// Taking the opposite twice gives the move back.
pub proof fn lemma_opposite_involution(m: Move)
    requires
        m.offset() != i64::MIN,
    ensures
        m.opposite_spec().opposite_spec() == m,
        m.opposite_spec().offset() == -m.offset(),
{
}

impl Position {
    /// Linear index of the cell on an `n` by `n` grid.
    pub open spec fn index_spec(self, n: int) -> int {
        index_of(self.x as int, self.y as int, n)
    }

    /// Where the blank stands after `m`.
    pub open spec fn update_spec(self, m: Move) -> Position {
        match m {
            Move::Left(d) => Position { x: (self.x + d) as usize, y: self.y },
            Move::Right(d) => Position { x: (self.x + d) as usize, y: self.y },
            Move::Up(_) => Position { x: self.x, y: (self.y - 1) as usize },
            Move::Down(_) => Position { x: self.x, y: (self.y + 1) as usize },
            Move::No => self,
        }
    }

    /// Where the tile that `m` moved now stands, the blank being at `self`.
    pub open spec fn moved_spec(self, m: Move) -> Position {
        match m {
            Move::Left(_) => Position { x: (self.x + 1) as usize, y: self.y },
            Move::Right(_) => Position { x: (self.x - 1) as usize, y: self.y },
            Move::Up(_) => Position { x: self.x, y: (self.y + 1) as usize },
            Move::Down(_) => Position { x: self.x, y: (self.y - 1) as usize },
            Move::No => self,
        }
    }

    /// The cell is on an `n` by `n` grid.
    pub open spec fn inside(self, n: int) -> bool {
        self.x < n && self.y < n
    }

    /// Linear index `y * size + x`.
    pub fn as_index(&self, size: usize) -> (r: usize)
        requires
            self.index_spec(size as int) <= usize::MAX,
        ensures
            r == self.index_spec(size as int),
    {
        self.y * size + self.x
    }

    /// The position of the blank after `movement`.
    pub fn update(&self, movement: &Move) -> (r: Position)
        requires
            match *movement {
                Move::Left(d) => 0 <= self.x + d <= i64::MAX,
                Move::Right(d) => 0 <= self.x + d <= i64::MAX,
                Move::Up(_) => self.y >= 1,
                Move::Down(_) => self.y < usize::MAX,
                Move::No => true,
            },
            self.x <= i64::MAX,
        ensures
            r == self.update_spec(*movement),
    {
        match movement {
            Move::Left(x) | Move::Right(x) => Position { x: (self.x as i64 + *x) as usize, y: self.y },
            Move::Up(_) => Position { x: self.x, y: self.y - 1 },
            Move::Down(_) => Position { x: self.x, y: self.y + 1 },
            Move::No => Position { x: self.x, y: self.y },
        }
    }

    /// The position of the tile that `movement` slid into the old blank cell.
    pub fn moved_element(&self, movement: &Move) -> (r: Position)
        requires
            match *movement {
                Move::Left(_) => self.x < usize::MAX,
                Move::Right(_) => self.x >= 1,
                Move::Up(_) => self.y < usize::MAX,
                Move::Down(_) => self.y >= 1,
                Move::No => true,
            },
        ensures
            r == self.moved_spec(*movement),
    {
        match movement {
            Move::Left(_) => Position { x: self.x + 1, y: self.y },
            Move::Right(_) => Position { x: self.x - 1, y: self.y },
            Move::Up(_) => Position { x: self.x, y: self.y + 1 },
            Move::Down(_) => Position { x: self.x, y: self.y - 1 },
            Move::No => Position { x: self.x, y: self.y },
        }
    }

    /// The four candidate moves in the order Left, Right, Up, Down; `No` where the
    /// grid's edge forbids one.
    pub fn possible_moves(&self, size: usize) -> (r: Vec<Move>)
        requires
            1 <= size <= i64::MAX,
        ensures
            r@ == seq![
                if self.x > 0 { Move::Left(-1i64) } else { Move::No },
                if self.x + 1 < size { Move::Right(1i64) } else { Move::No },
                if self.y > 0 { Move::Up((-size) as i64) } else { Move::No },
                if self.y + 1 < size { Move::Down(size as i64) } else { Move::No },
            ],
    {
        let mut r: Vec<Move> = Vec::new();
        r.push(if self.x > 0 { Move::Left(-1) } else { Move::No });
        r.push(if self.x < size - 1 { Move::Right(1) } else { Move::No });
        r.push(if self.y > 0 { Move::Up(-(size as i64)) } else { Move::No });
        r.push(if self.y < size - 1 { Move::Down(size as i64) } else { Move::No });
        proof {
            assert(r@ =~= seq![
                if self.x > 0 { Move::Left(-1i64) } else { Move::No },
                if self.x + 1 < size { Move::Right(1i64) } else { Move::No },
                if self.y > 0 { Move::Up((-size) as i64) } else { Move::No },
                if self.y + 1 < size { Move::Down(size as i64) } else { Move::No },
            ]);
        }
        r
    }
}

/// A grid: its tiles row by row, and its side.
pub struct Container(pub Vec<usize>, pub usize);

impl Container {
    /// The inverse lookup of the tiles: entry `self.0[i]` is `i`.
    pub fn swap_indexes(&self) -> (r: Vec<usize>)
        requires
            tiles_in_range(self.0@, self.0@.len() as int),
        ensures
            r@.len() == self.0@.len(),
            forall|k: int| 0 <= k < self.0@.len() ==> inverse_entry_ok(self.0@, r@, k),
            distinct(self.0@) ==> is_inverse(r@, self.0@),
    {
        swap_indexes(self.0.clone())
    }
}

/// Options of a run: what to print and which cost policy to use.
#[derive(Debug, Clone, Copy)]
pub struct Flag {
    pub verbosity: bool,
    pub debug: bool,
    pub greedy: bool,
    pub uniform: bool,
}

} // verus!
