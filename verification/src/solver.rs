//! The board a puzzle is played on, with what is computed from it once:
//! dead squares, rooms with their goal counts, and the Zobrist keys.

use vstd::prelude::*;
use crate::bits::BitSet;
use crate::lists::{BoxVec, RoomCounts};
use crate::point::{opposite, Point};

verus! {

/// What a cell of the board is. Boxes and the player are not part of it.
#[derive(Clone, Copy, PartialEq, Eq, Structural, Debug)]
pub enum Cell {
    Floor,
    Wall,
    Goal,
}

/// The room label of a wall cell.
pub const NO_ROOM: u32 = 0xFFFF_FFFF;

/// The most goals a board can have.
pub const MAX_GOALS: usize = 64;

/// The most rows, and the most columns, a board can have.
pub const MAX_SIDE: usize = 32767;

/// The number of boxes among `points` that stand on a cell labelled `room`,
/// on a board `width` cells wide.
pub open spec fn count_labelled(points: Seq<Point>, labels: Seq<u32>, width: int, room: int) -> nat
    decreases points.len(),
{
    if points.len() == 0 {
        0
    } else {
        let p = points.last();
        let rest = count_labelled(points.drop_last(), labels, width, room);
        if labels[p.row * width + p.col] == room {
            rest + 1
        } else {
            rest
        }
    }
}

/// A board with its static analyses.
pub struct SokobanSolver {
    /// Columns of the board.
    pub width: i16,
    /// Rows of the board.
    pub height: i16,
    /// The cells, row by row.
    pub map: Vec<Cell>,
    /// The goal cells in reading order.
    pub goals: BoxVec,
    /// The goal cells as a set of cell indices.
    pub goal_grid: BitSet,
    /// The dead squares as a set of cell indices.
    pub dead_squares: BitSet,
    /// The room of each cell, `NO_ROOM` for a wall.
    pub room_ids: Vec<u32>,
    /// The number of goal cells in each room.
    pub goal_counts_by_room: RoomCounts,
    /// For each cell the key of the player and the key of a box on it.
    pub zobrist_table: Vec<[u64; 2]>,
}

impl SokobanSolver {
    /// The number of cells.
    pub open spec fn cells(&self) -> int {
        self.width * self.height
    }

    /// Whether `p` lies on the board.
    pub open spec fn in_bounds(&self, p: Point) -> bool {
        0 <= p.row < self.height && 0 <= p.col < self.width
    }

    /// The place of `p` in the row-by-row arrays.
    pub open spec fn index_of(&self, p: Point) -> int {
        p.row * self.width + p.col
    }

    /// The cell at `p`.
    pub open spec fn cell(&self, p: Point) -> Cell {
        self.map@[self.index_of(p)]
    }

    /// Whether `p` is on the board and no wall.
    pub open spec fn walkable(&self, p: Point) -> bool {
        self.in_bounds(p) && self.cell(p) != Cell::Wall
    }

    /// Whether `p` is a goal cell.
    pub open spec fn goal_at(&self, p: Point) -> bool {
        self.in_bounds(p) && self.cell(p) == Cell::Goal
    }

    /// Whether a box at `from` can be pushed one step in direction `dir`
    /// as far as walls go: the cell behind it, where the player stands, and the
    /// cell before it are on the board and no walls.
    pub open spec fn pushable(&self, from: Point, dir: int) -> bool {
        &&& self.walkable(from)
        &&& self.walkable(from.stepped(dir))
        &&& self.walkable(from.stepped(opposite(dir)))
    }

    /// Whether a box at `p` can be brought to a goal in at most `n` pushes,
    /// no other box being in the way.
    pub open spec fn live_within(&self, p: Point, n: nat) -> bool
        decreases n,
    {
        self.goal_at(p) || (n > 0 && {
            let m = (n - 1) as nat;
            ||| self.pushable(p, 0) && self.live_within(p.stepped(0), m)
            ||| self.pushable(p, 1) && self.live_within(p.stepped(1), m)
            ||| self.pushable(p, 2) && self.live_within(p.stepped(2), m)
            ||| self.pushable(p, 3) && self.live_within(p.stepped(3), m)
        })
    }

    /// Whether a box at `p` can be brought to a goal at all, alone on the board.
    pub open spec fn live(&self, p: Point) -> bool {
        exists|n: nat| self.live_within(p, n)
    }

    /// A dead square: no wall, and a box on it can never reach a goal.
    pub open spec fn dead(&self, p: Point) -> bool {
        self.walkable(p) && !self.live(p)
    }

    /// Whether `b` can be reached from `a` in at most `n` steps over cells
    /// that are no walls.
    pub open spec fn connected_within(&self, a: Point, b: Point, n: nat) -> bool
        decreases n,
    {
        self.walkable(a) && (a == b || (n > 0 && {
            let m = (n - 1) as nat;
            ||| self.connected_within(a.stepped(0), b, m)
            ||| self.connected_within(a.stepped(1), b, m)
            ||| self.connected_within(a.stepped(2), b, m)
            ||| self.connected_within(a.stepped(3), b, m)
        }))
    }

    /// Whether `a` and `b` lie in one room.
    pub open spec fn connected(&self, a: Point, b: Point) -> bool {
        exists|n: nat| self.connected_within(a, b, n)
    }

    /// The room label of the cell at `p`.
    pub open spec fn room_of(&self, p: Point) -> int {
        self.room_ids@[self.index_of(p)] as int
    }

    /// The number of rooms.
    pub open spec fn rooms(&self) -> int {
        self.goal_counts_by_room@.len() as int
    }

    /// How many of `points` stand in `room`.
    pub open spec fn count_in_room(&self, points: Seq<Point>, room: int) -> nat {
        count_labelled(points, self.room_ids@, self.width as int, room)
    }

    /// Whether some room holds more of `boxes` than it has goals.
    pub open spec fn room_overfull(&self, boxes: Seq<Point>) -> bool {
        exists|room: int|
            0 <= room < self.rooms() && #[trigger] self.count_in_room(boxes, room)
                > self.goal_counts_by_room@[room]
    }

    /// The grid and the two forms of the goal set agree.
    pub open spec fn grid_wf(&self) -> bool {
        &&& 0 <= self.width
        &&& 0 <= self.height
        &&& self.map@.len() == self.cells()
        &&& self.goal_grid.wf()
        &&& self.goal_grid.bits == self.cells()
        &&& forall|p: Point|
            self.in_bounds(p) ==> (#[trigger] self.goal_grid.has(self.index_of(p)) <==> self.goal_at(p))
        &&& self.goals@.len() <= MAX_GOALS
        &&& self.goals@.no_duplicates()
        &&& forall|i: int| 0 <= i < self.goals@.len() ==> self.goal_at(#[trigger] self.goals@[i])
        &&& forall|p: Point| #[trigger] self.goal_at(p) ==> self.goals@.contains(p)
    }

    /// The dead-square set holds exactly the dead squares.
    pub open spec fn dead_wf(&self) -> bool {
        &&& self.dead_squares.wf()
        &&& self.dead_squares.bits == self.cells()
        &&& forall|p: Point|
            self.in_bounds(p) ==> (#[trigger] self.dead_squares.has(self.index_of(p)) <==> self.dead(
                p,
            ))
    }

    /// The labels split the cells that are no walls into their rooms, which
    /// are numbered by their first cells in reading order, and each room's
    /// counter is its number of goal cells.
    pub open spec fn rooms_wf(&self) -> bool {
        &&& self.room_ids@.len() == self.cells()
        &&& self.rooms() <= self.cells()
        &&& self.partitioned(self.room_ids@, self.rooms())
        &&& forall|p: Point|
            self.in_bounds(p) ==> (#[trigger] self.room_of(p) == NO_ROOM <==> !self.walkable(p))
        &&& forall|p: Point| #[trigger] self.walkable(p) ==> 0 <= self.room_of(p) < self.rooms()
        &&& forall|a: Point, b: Point|
            self.walkable(a) && self.walkable(b) ==> (#[trigger] self.room_of(a)
                == #[trigger] self.room_of(b) <==> self.connected(a, b))
        &&& forall|room: int|
            0 <= room < self.rooms() ==> #[trigger] self.goal_counts_by_room@[room]
                == self.count_in_room(self.goals@, room)
    }

    /// There is a pair of keys for each cell.
    pub open spec fn keys_wf(&self) -> bool {
        self.zobrist_table@.len() == self.cells()
    }

    /// The whole solver is consistent.
    pub open spec fn wf(&self) -> bool {
        &&& self.grid_wf()
        &&& self.dead_wf()
        &&& self.rooms_wf()
        &&& self.keys_wf()
    }

    /// Whether every box of `boxes` is on the board and no two share a cell.
    pub open spec fn placed(&self, boxes: Seq<Point>) -> bool {
        &&& boxes.no_duplicates()
        &&& forall|i: int| 0 <= i < boxes.len() ==> self.in_bounds(#[trigger] boxes[i])
    }

    /// Whether every box of `boxes` stands on a goal.
    pub open spec fn solved(&self, boxes: Seq<Point>) -> bool {
        forall|i: int| 0 <= i < boxes.len() ==> self.goal_at(#[trigger] boxes[i])
    }
}

impl SokobanSolver {
    /// Whether (`row`, `col`) lies on the board.
    pub fn is_valid(&self, row: i16, col: i16) -> (b: bool)
        ensures
            b == self.in_bounds(Point { row, col }),
    {
        row >= 0 && row < self.height && col >= 0 && col < self.width
    }

    /// The place of (`row`, `col`) in the row-by-row arrays.
    pub fn to_idx(&self, row: i16, col: i16) -> (idx: usize)
        requires
            self.in_bounds(Point { row, col }),
        ensures
            idx == self.index_of(Point { row, col }),
            idx < self.cells(),
    {
        proof {
            lemma_index_in_range(self, Point { row, col });
        }
        (row as usize) * (self.width as usize) + (col as usize)
    }

    /// Whether the cell at `p` is a wall.
    pub fn is_wall(&self, p: Point) -> (b: bool)
        requires
            self.in_bounds(p),
            self.map@.len() == self.cells(),
        ensures
            b == !self.walkable(p),
    {
        let idx = self.to_idx(p.row, p.col);
        match self.map[idx] {
            Cell::Wall => true,
            _ => false,
        }
    }

    /// Whether the cell at `p` is a goal.
    pub fn is_goal(&self, p: Point) -> (b: bool)
        requires
            self.in_bounds(p),
            self.grid_wf(),
        ensures
            b == self.goal_at(p),
    {
        let idx = self.to_idx(p.row, p.col);
        self.goal_grid.contains(idx)
    }

    /// Whether the cell at `p` is a dead square.
    pub fn is_dead(&self, p: Point) -> (b: bool)
        requires
            self.in_bounds(p),
            self.dead_wf(),
        ensures
            b == self.dead(p),
    {
        let idx = self.to_idx(p.row, p.col);
        self.dead_squares.contains(idx)
    }

    /// The neighbour of `p` in direction `dir`, if it lies on the board.
    pub fn neighbor(&self, p: Point, dir: u8) -> (q: Option<Point>)
        requires
            self.in_bounds(p),
            dir < 4,
        ensures
            q == (if self.in_bounds(p.stepped(dir as int)) {
                Some(p.stepped(dir as int))
            } else {
                None
            }),
    {
        let q = p.step(dir);
        if self.is_valid(q.row, q.col) {
            Some(q)
        } else {
            None
        }
    }

    /// Whether one of `boxes` stands on `p`.
    pub fn has_box(boxes: &[Point], p: Point) -> (b: bool)
        ensures
            b == boxes@.contains(p),
    {
        let mut i: usize = 0;
        while i < boxes.len()
            invariant
                i <= boxes@.len(),
                forall|j: int| 0 <= j < i ==> boxes@[j] != p,
            decreases boxes@.len() - i,
        {
            if boxes[i].row == p.row && boxes[i].col == p.col {
                return true;
            }
            i += 1;
        }
        false
    }

    /// Whether every box stands on a goal.
    pub fn is_solved_boxes(&self, boxes: &[Point]) -> (b: bool)
        requires
            self.grid_wf(),
            forall|i: int| 0 <= i < boxes@.len() ==> self.in_bounds(#[trigger] boxes@[i]),
        ensures
            b == self.solved(boxes@),
    {
        let mut i: usize = 0;
        while i < boxes.len()
            invariant
                i <= boxes@.len(),
                self.grid_wf(),
                forall|j: int| 0 <= j < boxes@.len() ==> self.in_bounds(#[trigger] boxes@[j]),
                forall|j: int| 0 <= j < i ==> self.goal_at(#[trigger] boxes@[j]),
            decreases boxes@.len() - i,
        {
            if !self.is_goal(boxes[i]) {
                return false;
            }
            i += 1;
        }
        true
    }
}

impl SokobanSolver {
    /// Whether two solvers hold the same board: size, cells and goals.
    pub open spec fn same_board(&self, other: &SokobanSolver) -> bool {
        &&& self.width == other.width
        &&& self.height == other.height
        &&& self.map@ == other.map@
        &&& self.goals@ == other.goals@
        &&& self.goal_grid.words@ == other.goal_grid.words@
        &&& self.goal_grid.bits == other.goal_grid.bits
    }

    /// Whether two solvers hold boards of one size with the same cells.
    pub open spec fn alike(&self, other: &SokobanSolver) -> bool {
        &&& self.width == other.width
        &&& self.height == other.height
        &&& forall|p: Point| self.in_bounds(p) ==> #[trigger] self.cell(p) == other.cell(p)
    }
}

/// Whether a box reaches a goal depends on the cells alone.
pub proof fn lemma_live_within_same(a: &SokobanSolver, b: &SokobanSolver, p: Point, n: nat)
    requires
        a.alike(b),
    ensures
        a.live_within(p, n) == b.live_within(p, n),
    decreases n,
{
    assert(a.in_bounds(p) ==> a.cell(p) == b.cell(p));
    assert(a.in_bounds(p.stepped(0)) ==> a.cell(p.stepped(0)) == b.cell(p.stepped(0)));
    assert(a.in_bounds(p.stepped(1)) ==> a.cell(p.stepped(1)) == b.cell(p.stepped(1)));
    assert(a.in_bounds(p.stepped(2)) ==> a.cell(p.stepped(2)) == b.cell(p.stepped(2)));
    assert(a.in_bounds(p.stepped(3)) ==> a.cell(p.stepped(3)) == b.cell(p.stepped(3)));
    if n > 0 {
        let m = (n - 1) as nat;
        lemma_live_within_same(a, b, p.stepped(0), m);
        lemma_live_within_same(a, b, p.stepped(1), m);
        lemma_live_within_same(a, b, p.stepped(2), m);
        lemma_live_within_same(a, b, p.stepped(3), m);
    }
}

/// Whether two cells are connected depends on the cells alone.
pub proof fn lemma_connected_within_same(
    a: &SokobanSolver,
    b: &SokobanSolver,
    x: Point,
    y: Point,
    n: nat,
)
    requires
        a.alike(b),
    ensures
        a.connected_within(x, y, n) == b.connected_within(x, y, n),
    decreases n,
{
    assert(a.in_bounds(x) ==> a.cell(x) == b.cell(x));
    if n > 0 {
        let m = (n - 1) as nat;
        lemma_connected_within_same(a, b, x.stepped(0), y, m);
        lemma_connected_within_same(a, b, x.stepped(1), y, m);
        lemma_connected_within_same(a, b, x.stepped(2), y, m);
        lemma_connected_within_same(a, b, x.stepped(3), y, m);
    }
}

/// Boards of one size with the same cells have the same live and dead
/// squares and the same connected cells.
pub proof fn lemma_alike(a: &SokobanSolver, b: &SokobanSolver)
    requires
        a.alike(b),
    ensures
        forall|p: Point| #[trigger] a.live(p) == b.live(p),
        forall|p: Point| #[trigger] a.dead(p) == b.dead(p),
        forall|x: Point, y: Point| #[trigger] a.connected(x, y) == b.connected(x, y),
{
    assert forall|p: Point| #[trigger] a.live(p) == b.live(p) by {
        if a.live(p) {
            let n = choose|n: nat| a.live_within(p, n);
            lemma_live_within_same(a, b, p, n);
        }
        if b.live(p) {
            let n = choose|n: nat| b.live_within(p, n);
            lemma_live_within_same(a, b, p, n);
        }
    }
    assert forall|x: Point, y: Point| #[trigger] a.connected(x, y) == b.connected(x, y) by {
        if a.connected(x, y) {
            let n = choose|n: nat| a.connected_within(x, y, n);
            lemma_connected_within_same(a, b, x, y, n);
        }
        if b.connected(x, y) {
            let n = choose|n: nat| b.connected_within(x, y, n);
            lemma_connected_within_same(a, b, x, y, n);
        }
    }
    assert forall|p: Point| #[trigger] a.dead(p) == b.dead(p) by {
        assert(a.live(p) == b.live(p));
        assert(a.in_bounds(p) ==> a.cell(p) == b.cell(p));
    }
}

/// Solvers that hold the same board have the same live and dead squares and
/// the same rooms.
pub proof fn lemma_same_board(a: &SokobanSolver, b: &SokobanSolver)
    requires
        a.same_board(b),
    ensures
        a.grid_wf() == b.grid_wf(),
        forall|p: Point| #[trigger] a.live(p) == b.live(p),
        forall|p: Point| #[trigger] a.dead(p) == b.dead(p),
        forall|x: Point, y: Point| #[trigger] a.connected(x, y) == b.connected(x, y),
{
    lemma_alike(a, b);
    if a.grid_wf() {
        assert forall|p: Point| b.in_bounds(p) implies (#[trigger] b.goal_grid.has(b.index_of(p))
            <==> b.goal_at(p)) by {
            assert(a.goal_grid.has(a.index_of(p)) <==> a.goal_at(p));
        }
        assert forall|i: int| 0 <= i < b.goals@.len() implies b.goal_at(#[trigger] b.goals@[i]) by {
            assert(a.goal_at(a.goals@[i]));
        }
        assert forall|p: Point| #[trigger] b.goal_at(p) implies b.goals@.contains(p) by {
            assert(a.goal_at(p));
        }
    }
    if b.grid_wf() {
        assert forall|p: Point| a.in_bounds(p) implies (#[trigger] a.goal_grid.has(a.index_of(p))
            <==> a.goal_at(p)) by {
            assert(b.goal_grid.has(b.index_of(p)) <==> b.goal_at(p));
        }
        assert forall|i: int| 0 <= i < a.goals@.len() implies a.goal_at(#[trigger] a.goals@[i]) by {
            assert(b.goal_at(b.goals@[i]));
        }
        assert forall|p: Point| #[trigger] a.goal_at(p) implies a.goals@.contains(p) by {
            assert(b.goal_at(p));
        }
    }
}

/// A board has at most `MAX_SIDE` times `MAX_SIDE` cells, counted by rows or
/// by columns.
pub proof fn lemma_cells_bounded(width: int, height: int)
    requires
        0 <= width <= MAX_SIDE,
        0 <= height <= MAX_SIDE,
    ensures
        0 <= width * height <= MAX_SIDE * MAX_SIDE,
        width * height == height * width,
{
    assert(0 <= width * height <= 32767 * 32767 && width * height == height * width)
        by (nonlinear_arith)
        requires
            0 <= width <= 32767,
            0 <= height <= 32767,
    ;
}

/// The cells of a board lie row by row: the index of a cell is its row's
/// first index and its column, and below the number of cells.
pub proof fn lemma_grid_index(width: int, height: int, row: int, col: int)
    requires
        0 <= row < height,
        0 <= col < width,
    ensures
        0 <= row * width <= row * width + col < width * height,
{
    assert(0 <= row * width && row * width + col < width * height) by (nonlinear_arith)
        requires
            0 <= row < height,
            0 <= col < width,
    ;
}

/// Two cells of a board with one index are one cell.
pub proof fn lemma_grid_index_injective(width: int, r1: int, c1: int, r2: int, c2: int)
    requires
        0 <= c1 < width,
        0 <= c2 < width,
        r1 * width + c1 == r2 * width + c2,
    ensures
        r1 == r2,
        c1 == c2,
{
    assert(r1 == r2) by (nonlinear_arith)
        requires
            0 <= c1 < width,
            0 <= c2 < width,
            r1 * width + c1 == r2 * width + c2,
    ;
}

/// The index of a point of the board is below the number of cells.
pub proof fn lemma_index_in_range(s: &SokobanSolver, p: Point)
    requires
        s.in_bounds(p),
    ensures
        0 <= s.index_of(p) < s.cells(),
        s.cells() <= MAX_SIDE * MAX_SIDE,
{
    lemma_grid_index(s.width as int, s.height as int, p.row as int, p.col as int);
    lemma_cells_bounded(s.width as int, s.height as int);
}

/// Two points of the board with one index are one point.
pub proof fn lemma_index_injective(s: &SokobanSolver, p: Point, q: Point)
    requires
        s.in_bounds(p),
        s.in_bounds(q),
        s.index_of(p) == s.index_of(q),
    ensures
        p == q,
{
    lemma_grid_index_injective(
        s.width as int,
        p.row as int,
        p.col as int,
        q.row as int,
        q.col as int,
    );
}

} // verus!
