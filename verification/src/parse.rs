//! Reading a puzzle from its text: the lines, the cells, and where the
//! goals, the boxes and the player are.

use vstd::prelude::*;
use crate::bits::BitSet;
use crate::lists::{BoxVec, RoomCounts};
use crate::point::Point;
use crate::moves::Position;
use crate::solver::{
    lemma_alike, lemma_cells_bounded, lemma_grid_index, lemma_grid_index_injective, lemma_same_board,
    Cell, SokobanSolver, MAX_GOALS, MAX_SIDE,
};

verus! {

/// What a character of the puzzle text can mark on the board.
#[derive(Clone, Copy, PartialEq, Eq, Structural, Debug)]
pub enum Mark {
    Goal,
    Crate,
    Player,
}

/// Whether the character `c` marks a `kind`: a goal is `.`, `+` or `*`, a
/// box is `$` or `*`, the player is `@` or `+`.
pub open spec fn marks(c: char, kind: Mark) -> bool {
    match kind {
        Mark::Goal => c == '.' || c == '+' || c == '*',
        Mark::Crate => c == '$' || c == '*',
        Mark::Player => c == '@' || c == '+',
    }
}

/// The cell that the character `c` stands for: `#` a wall, a goal mark a
/// goal, anything else floor.
pub open spec fn cell_for(c: char) -> Cell {
    if c == '#' {
        Cell::Wall
    } else if marks(c, Mark::Goal) {
        Cell::Goal
    } else {
        Cell::Floor
    }
}

/// `line` without the carriage return at its end, if it has one.
pub open spec fn without_return(line: Seq<char>) -> Seq<char> {
    if line.len() > 0 && line.last() == '\r' {
        line.drop_last()
    } else {
        line
    }
}

/// The characters of `text` behind its last line feed.
pub open spec fn open_line(text: Seq<char>) -> Seq<char>
    decreases text.len(),
{
    if text.len() == 0 {
        Seq::empty()
    } else if text.last() == '\n' {
        Seq::empty()
    } else {
        open_line(text.drop_last()).push(text.last())
    }
}

/// The lines of `text` that a line feed ends, each without that line feed
/// and without a carriage return before it.
pub open spec fn closed_lines(text: Seq<char>) -> Seq<Seq<char>>
    decreases text.len(),
{
    if text.len() == 0 {
        Seq::empty()
    } else if text.last() == '\n' {
        closed_lines(text.drop_last()).push(without_return(open_line(text.drop_last())))
    } else {
        closed_lines(text.drop_last())
    }
}

/// The lines of `text`: those that a line feed ends, and what stands behind
/// the last line feed if anything does.
pub open spec fn lines_of(text: Seq<char>) -> Seq<Seq<char>> {
    if open_line(text).len() > 0 {
        closed_lines(text).push(open_line(text))
    } else {
        closed_lines(text)
    }
}

/// The length of the longest of `lines`, 0 if there is none.
pub open spec fn longest(lines: Seq<Seq<char>>) -> nat
    decreases lines.len(),
{
    if lines.len() == 0 {
        0
    } else {
        let rest = longest(lines.drop_last());
        if lines.last().len() > rest {
            lines.last().len()
        } else {
            rest
        }
    }
}

/// The cell at (`row`, `col`) of the board that `lines` describe: what the
/// character there stands for, and floor behind the end of a line.
pub open spec fn cell_in(lines: Seq<Seq<char>>, row: int, col: int) -> Cell {
    if 0 <= row < lines.len() && 0 <= col < lines[row].len() {
        cell_for(lines[row][col])
    } else {
        Cell::Floor
    }
}

/// The places of the first `upto` characters of `line` that mark a `kind`,
/// from left to right, as points of row `row`.
pub open spec fn row_marks(line: Seq<char>, row: int, kind: Mark, upto: int) -> Seq<Point>
    decreases upto,
{
    if upto <= 0 {
        Seq::empty()
    } else {
        let rest = row_marks(line, row, kind, upto - 1);
        if marks(line[upto - 1], kind) {
            rest.push(Point { row: row as i16, col: (upto - 1) as i16 })
        } else {
            rest
        }
    }
}

/// The places in the first `upto` of `lines` that mark a `kind`, in
/// reading order.
pub open spec fn grid_marks(lines: Seq<Seq<char>>, kind: Mark, upto: int) -> Seq<Point>
    decreases upto,
{
    if upto <= 0 {
        Seq::empty()
    } else {
        grid_marks(lines, kind, upto - 1) + row_marks(
            lines[upto - 1],
            upto - 1,
            kind,
            lines[upto - 1].len() as int,
        )
    }
}

/// All places in `lines` that mark a `kind`, in reading order.
pub open spec fn all_marks(lines: Seq<Seq<char>>, kind: Mark) -> Seq<Point> {
    grid_marks(lines, kind, lines.len() as int)
}

/// Where the player starts: the last place marked for the player, the
/// first cell where none is.
pub open spec fn player_in(lines: Seq<Seq<char>>) -> Point {
    let found = all_marks(lines, Mark::Player);
    if found.len() > 0 {
        found.last()
    } else {
        Point { row: 0, col: 0 }
    }
}

/// Whether the puzzle of `text` fits a board: no more rows and no more
/// columns than a coordinate can count, and no more goals than the matching
/// of boxes to goals can hold.
pub open spec fn fits(text: Seq<char>) -> bool {
    let lines = lines_of(text);
    &&& lines.len() <= MAX_SIDE
    &&& longest(lines) <= MAX_SIDE
    &&& all_marks(lines, Mark::Goal).len() <= MAX_GOALS
}

/// No line is longer than the longest.
pub proof fn lemma_longest(lines: Seq<Seq<char>>, i: int)
    requires
        0 <= i < lines.len(),
    ensures
        lines[i].len() <= longest(lines),
    decreases lines.len(),
{
    if i < lines.len() - 1 {
        lemma_longest(lines.drop_last(), i);
    }
}

/// The marks of a row are the marked places of that row, each once.
pub proof fn lemma_row_marks(line: Seq<char>, row: int, kind: Mark, upto: int)
    requires
        0 <= row <= MAX_SIDE,
        0 <= upto <= line.len(),
        upto <= MAX_SIDE,
    ensures
        row_marks(line, row, kind, upto).no_duplicates(),
        row_marks(line, row, kind, upto).len() <= upto,
        forall|p: Point| #[trigger]
            row_marks(line, row, kind, upto).contains(p) <==> p.row == row && 0 <= p.col < upto
                && marks(line[p.col as int], kind),
    decreases upto,
{
    if upto > 0 {
        lemma_row_marks(line, row, kind, upto - 1);
        let rest = row_marks(line, row, kind, upto - 1);
        let all = row_marks(line, row, kind, upto);
        let here = Point { row: row as i16, col: (upto - 1) as i16 };
        if marks(line[upto - 1], kind) {
            assert(!rest.contains(here));
            assert forall|p: Point| #[trigger] all.contains(p) <==> p.row == row && 0 <= p.col < upto
                && marks(line[p.col as int], kind) by {
                if all.contains(p) {
                    let k = choose|k: int| 0 <= k < all.len() && all[k] == p;
                    if k < rest.len() {
                        assert(rest[k] == p);
                        assert(rest.contains(p));
                    }
                }
                if p.row == row && 0 <= p.col < upto && marks(line[p.col as int], kind) {
                    if p.col < upto - 1 {
                        assert(rest.contains(p));
                        let k = choose|k: int| 0 <= k < rest.len() && rest[k] == p;
                        assert(all[k] == p);
                    } else {
                        assert(all[rest.len() as int] == p);
                    }
                }
            }
            assert forall|a: int, b: int| 0 <= a < all.len() && 0 <= b < all.len() && a != b implies all[a]
                != all[b] by {
                if a < rest.len() && b < rest.len() {
                    assert(rest[a] != rest[b]);
                } else if a < rest.len() {
                    assert(rest.contains(rest[a]));
                } else {
                    assert(rest.contains(rest[b]));
                }
            }
        }
    }
}

/// The marks of a grid are its marked places, each once.
pub proof fn lemma_grid_marks(lines: Seq<Seq<char>>, kind: Mark, upto: int)
    requires
        0 <= upto <= lines.len(),
        lines.len() <= MAX_SIDE,
        longest(lines) <= MAX_SIDE,
    ensures
        grid_marks(lines, kind, upto).no_duplicates(),
        forall|p: Point| #[trigger]
            grid_marks(lines, kind, upto).contains(p) <==> 0 <= p.row < upto && 0 <= p.col
                < lines[p.row as int].len() && marks(lines[p.row as int][p.col as int], kind),
    decreases upto,
{
    if upto > 0 {
        let row = upto - 1;
        let line = lines[row];
        lemma_grid_marks(lines, kind, row);
        lemma_longest(lines, row);
        lemma_row_marks(line, row, kind, line.len() as int);
        let above = grid_marks(lines, kind, row);
        let here = row_marks(line, row, kind, line.len() as int);
        let all = grid_marks(lines, kind, upto);
        assert(all == above + here);
        assert forall|p: Point| #[trigger] all.contains(p) <==> 0 <= p.row < upto && 0 <= p.col
            < lines[p.row as int].len() && marks(lines[p.row as int][p.col as int], kind) by {
            if all.contains(p) {
                let k = choose|k: int| 0 <= k < all.len() && all[k] == p;
                if k < above.len() {
                    assert(above[k] == p);
                    assert(above.contains(p));
                } else {
                    assert(here[k - above.len()] == p);
                    assert(here.contains(p));
                }
            }
            if 0 <= p.row < upto && 0 <= p.col < lines[p.row as int].len() && marks(
                lines[p.row as int][p.col as int],
                kind,
            ) {
                if p.row < row {
                    assert(above.contains(p));
                    let k = choose|k: int| 0 <= k < above.len() && above[k] == p;
                    assert(all[k] == p);
                } else {
                    assert(here.contains(p));
                    let k = choose|k: int| 0 <= k < here.len() && here[k] == p;
                    assert(all[above.len() + k] == p);
                }
            }
        }
        assert forall|a: int, b: int| 0 <= a < all.len() && 0 <= b < all.len() && a != b implies all[a]
            != all[b] by {
            if a < above.len() && b < above.len() {
                assert(above[a] != above[b]);
            } else if a >= above.len() && b >= above.len() {
                assert(here[a - above.len()] != here[b - above.len()]);
            } else if a < above.len() {
                assert(above.contains(above[a]));
                assert(here.contains(here[b - above.len()]));
            } else {
                assert(above.contains(above[b]));
                assert(here.contains(here[a - above.len()]));
            }
        }
    }
}

/// The character sequences of `rows`.
pub open spec fn texts(rows: Seq<Vec<char>>) -> Seq<Seq<char>> {
    rows.map_values(|row: Vec<char>| row@)
}

/// The cell of `map` at `p`, on a board `width` cells wide.
pub open spec fn at(map: Seq<Cell>, width: int, p: Point) -> Cell {
    map[p.row * width + p.col]
}

/// Whether `p` comes before (`row`, `col`) in reading order.
pub open spec fn read_before(p: Point, row: int, col: int) -> bool {
    p.row < row || (p.row == row && p.col < col)
}

/// The characters of `text`, in order.
pub fn chars_of(text: &str) -> (chars: Vec<char>)
    ensures
        chars@ == text@,
{
    let mut chars: Vec<char> = Vec::new();
    for c in it: text.chars()
        invariant
            chars@ == it.seq().take(it.index() as int),
            it.seq() == text@,
    {
        chars.push(c);
    }
    chars
}

/// Splits `chars` into its lines.
pub fn split_lines(chars: &Vec<char>) -> (rows: Vec<Vec<char>>)
    ensures
        texts(rows@) == lines_of(chars@),
{
    let mut rows: Vec<Vec<char>> = Vec::new();
    let mut current: Vec<char> = Vec::new();
    let mut i: usize = 0;
    proof {
        assert(texts(rows@) =~= closed_lines(chars@.take(0)));
    }
    while i < chars.len()
        invariant
            i <= chars@.len(),
            texts(rows@) == closed_lines(chars@.take(i as int)),
            current@ == open_line(chars@.take(i as int)),
        decreases chars@.len() - i,
    {
        let c = chars[i];
        proof {
            assert(chars@.take(i + 1).drop_last() =~= chars@.take(i as int));
            assert(chars@.take(i + 1).last() == c);
        }
        if c == '\n' {
            let n = current.len();
            if n > 0 && current[n - 1] == '\r' {
                current.pop();
                assert(current@ =~= without_return(open_line(chars@.take(i as int))));
            }
            let ghost before = rows@;
            rows.push(current);
            proof {
                assert(texts(rows@) =~= texts(before).push(current@));
            }
            current = Vec::new();
        } else {
            current.push(c);
        }
        i += 1;
    }
    proof {
        assert(chars@.take(chars@.len() as int) =~= chars@);
    }
    if current.len() > 0 {
        let ghost before = rows@;
        rows.push(current);
        proof {
            assert(texts(rows@) =~= texts(before).push(current@));
        }
    }
    rows
}

/// The length of the longest of `rows`.
pub fn longest_row(rows: &Vec<Vec<char>>) -> (width: usize)
    ensures
        width == longest(texts(rows@)),
{
    let mut width: usize = 0;
    let mut i: usize = 0;
    while i < rows.len()
        invariant
            i <= rows@.len(),
            width == longest(texts(rows@).take(i as int)),
        decreases rows@.len() - i,
    {
        proof {
            assert(texts(rows@).take(i + 1).drop_last() =~= texts(rows@).take(i as int));
            assert(texts(rows@).take(i + 1).last() == rows@[i as int]@);
        }
        if rows[i].len() > width {
            width = rows[i].len();
        }
        i += 1;
    }
    proof {
        assert(texts(rows@).take(rows@.len() as int) =~= texts(rows@));
    }
    width
}

/// Whether `c` marks a `kind`.
pub fn is_mark(c: char, kind: Mark) -> (b: bool)
    ensures
        b == marks(c, kind),
{
    match kind {
        Mark::Goal => c == '.' || c == '+' || c == '*',
        Mark::Crate => c == '$' || c == '*',
        Mark::Player => c == '@' || c == '+',
    }
}

/// The places in `rows` that mark a `kind`, in reading order.
pub fn find_marks(rows: &Vec<Vec<char>>, kind: Mark) -> (found: BoxVec)
    requires
        rows@.len() <= MAX_SIDE,
        longest(texts(rows@)) <= MAX_SIDE,
    ensures
        found@ == all_marks(texts(rows@), kind),
{
    let ghost lines = texts(rows@);
    let mut found = BoxVec::empty();
    let mut row: usize = 0;
    while row < rows.len()
        invariant
            row <= rows@.len(),
            lines == texts(rows@),
            rows@.len() <= MAX_SIDE,
            longest(lines) <= MAX_SIDE,
            found@ == grid_marks(lines, kind, row as int),
        decreases rows@.len() - row,
    {
        let line = &rows[row];
        proof {
            lemma_longest(lines, row as int);
            assert(lines[row as int] == line@);
            assert(found@ =~= grid_marks(lines, kind, row as int) + row_marks(
                line@,
                row as int,
                kind,
                0,
            ));
        }
        let mut col: usize = 0;
        while col < line.len()
            invariant
                col <= line@.len(),
                row < rows@.len(),
                rows@.len() <= MAX_SIDE,
                line@.len() <= MAX_SIDE,
                found@ == grid_marks(lines, kind, row as int) + row_marks(
                    line@,
                    row as int,
                    kind,
                    col as int,
                ),
            decreases line@.len() - col,
        {
            if is_mark(line[col], kind) {
                let ghost before = found@;
                found.append(Point::new(row as i16, col as i16));
                proof {
                    assert(found@ =~= grid_marks(lines, kind, row as int) + row_marks(
                        line@,
                        row as int,
                        kind,
                        col + 1,
                    ));
                }
            }
            col += 1;
        }
        row += 1;
    }
    found
}

/// The cell that the character `c` stands for.
pub fn cell_of_char(c: char) -> (cell: Cell)
    ensures
        cell == cell_for(c),
{
    if c == '#' {
        Cell::Wall
    } else if is_mark(c, Mark::Goal) {
        Cell::Goal
    } else {
        Cell::Floor
    }
}

impl SokobanSolver {
    /// Whether the board is the one that `lines` describe: as many rows as
    /// lines, as many columns as the longest line has characters, each cell
    /// what its character stands for, and the goals in reading order.
    pub open spec fn depicts(&self, lines: Seq<Seq<char>>) -> bool {
        &&& self.height == lines.len()
        &&& self.width == longest(lines)
        &&& forall|p: Point|
            self.in_bounds(p) ==> #[trigger] self.cell(p) == cell_in(lines, p.row as int, p.col as int)
        &&& self.goals@ == all_marks(lines, Mark::Goal)
    }

    /// The board that `rows` describe, without keys and before any analysis.
    fn board(rows: &Vec<Vec<char>>) -> (solver: Self)
        requires
            rows@.len() <= MAX_SIDE,
            longest(texts(rows@)) <= MAX_SIDE,
            all_marks(texts(rows@), Mark::Goal).len() <= MAX_GOALS,
        ensures
            solver.grid_wf(),
            solver.depicts(texts(rows@)),
    {
        let ghost lines = texts(rows@);
        let height: usize = rows.len();
        let width: usize = longest_row(rows);
        let ghost w = width as int;
        let ghost h = height as int;
        proof {
            lemma_cells_bounded(w, h);
        }
        let size: usize = width * height;
        let mut map: Vec<Cell> = vec![Cell::Floor; size];
        proof {
            assert forall|p: Point| 0 <= p.row < h && 0 <= p.col < w implies #[trigger] at(map@, w, p)
                == Cell::Floor by {
                lemma_grid_index(w, h, p.row as int, p.col as int);
            }
        }
        let mut row: usize = 0;
        while row < height
            invariant
                row <= height,
                height == rows@.len(),
                lines == texts(rows@),
                w == width,
                h == height,
                w == longest(lines),
                w <= MAX_SIDE,
                h <= MAX_SIDE,
                map@.len() == w * h,
                w * h <= 32767 * 32767,
                forall|p: Point|
                    0 <= p.row < h && 0 <= p.col < w ==> #[trigger] at(map@, w, p) == (if p.row < row {
                        cell_in(lines, p.row as int, p.col as int)
                    } else {
                        Cell::Floor
                    }),
            decreases height - row,
        {
            let line = &rows[row];
            proof {
                lemma_longest(lines, row as int);
                assert(lines[row as int] == line@);
            }
            let mut col: usize = 0;
            while col < line.len()
                invariant
                    col <= line@.len(),
                    row < height,
                    height == rows@.len(),
                    lines == texts(rows@),
                    lines[row as int] == line@,
                    line@.len() <= w,
                    w == width,
                    h == height,
                    w <= MAX_SIDE,
                    h <= MAX_SIDE,
                    map@.len() == w * h,
                    w * h <= 32767 * 32767,
                    forall|p: Point|
                        0 <= p.row < h && 0 <= p.col < w ==> #[trigger] at(map@, w, p) == (
                        if read_before(p, row as int, col as int) {
                            cell_in(lines, p.row as int, p.col as int)
                        } else {
                            Cell::Floor
                        }),
                decreases line@.len() - col,
            {
                proof {
                    lemma_grid_index(w, h, row as int, col as int);
                }
                let idx: usize = row * width + col;
                let ghost before = map@;
                map[idx] = cell_of_char(line[col]);
                proof {
                    assert forall|p: Point| 0 <= p.row < h && 0 <= p.col < w implies #[trigger] at(
                        map@,
                        w,
                        p,
                    ) == (if read_before(p, row as int, col + 1) {
                        cell_in(lines, p.row as int, p.col as int)
                    } else {
                        Cell::Floor
                    }) by {
                        lemma_grid_index(w, h, p.row as int, p.col as int);
                        if p.row * w + p.col == idx {
                            lemma_grid_index_injective(
                                w,
                                p.row as int,
                                p.col as int,
                                row as int,
                                col as int,
                            );
                        } else {
                            assert(at(map@, w, p) == at(before, w, p));
                        }
                    }
                }
                col += 1;
            }
            row += 1;
        }
        let goals = find_marks(rows, Mark::Goal);
        let mut goal_grid = BitSet::new(size);
        proof {
            lemma_grid_marks(lines, Mark::Goal, lines.len() as int);
        }
        let listed = goals.as_slice();
        let mut i: usize = 0;
        while i < listed.len()
            invariant
                i <= listed@.len(),
                listed@ == all_marks(lines, Mark::Goal),
                lines == texts(rows@),
                lines.len() == h,
                w == longest(lines),
                w == width,
                w <= MAX_SIDE,
                h <= MAX_SIDE,
                goal_grid.wf(),
                goal_grid.bits == w * h,
                forall|p: Point| #[trigger]
                    listed@.contains(p) <==> 0 <= p.row < h && 0 <= p.col < lines[p.row as int].len()
                        && marks(lines[p.row as int][p.col as int], Mark::Goal),
                forall|p: Point|
                    0 <= p.row < h && 0 <= p.col < w ==> (#[trigger] goal_grid.has(p.row * w + p.col)
                        <==> listed@.take(i as int).contains(p)),
            decreases listed@.len() - i,
        {
            let goal = listed[i];
            proof {
                assert(listed@.contains(goal));
                lemma_longest(lines, goal.row as int);
                lemma_grid_index(w, h, goal.row as int, goal.col as int);
            }
            let idx: usize = (goal.row as usize) * width + (goal.col as usize);
            let ghost before = goal_grid;
            goal_grid.insert(idx);
            proof {
                let seen = listed@.take(i as int);
                assert(listed@.take(i + 1) =~= seen.push(goal));
                assert forall|p: Point| 0 <= p.row < h && 0 <= p.col < w implies (
                #[trigger] goal_grid.has(p.row * w + p.col) <==> listed@.take(i + 1).contains(p)) by {
                    if p == goal {
                        assert(seen.push(goal)[i as int] == goal);
                    } else {
                        if p.row * w + p.col == idx {
                            lemma_grid_index_injective(
                                w,
                                p.row as int,
                                p.col as int,
                                goal.row as int,
                                goal.col as int,
                            );
                        }
                        assert(goal_grid.has(p.row * w + p.col) == before.has(p.row * w + p.col));
                        if seen.contains(p) {
                            let k = choose|k: int| 0 <= k < seen.len() && seen[k] == p;
                            assert(seen.push(goal)[k] == p);
                        }
                        if seen.push(goal).contains(p) {
                            let k = choose|k: int|
                                0 <= k < seen.push(goal).len() && seen.push(goal)[k] == p;
                            assert(seen[k] == p);
                        }
                    }
                }
            }
            i += 1;
        }
        proof {
            assert(listed@.take(listed@.len() as int) =~= listed@);
        }
        let solver = SokobanSolver {
            width: width as i16,
            height: height as i16,
            map,
            goals,
            goal_grid,
            dead_squares: BitSet::new(0),
            room_ids: Vec::new(),
            goal_counts_by_room: RoomCounts::empty(),
            zobrist_table: Vec::new(),
        };
        proof {
            assert forall|p: Point| solver.in_bounds(p) implies #[trigger] solver.cell(p) == cell_in(
                lines,
                p.row as int,
                p.col as int,
            ) by {
                assert(solver.cell(p) == at(solver.map@, w, p));
            }
            assert forall|p: Point| solver.in_bounds(p) implies (#[trigger] solver.goal_grid.has(
                solver.index_of(p),
            ) <==> solver.goal_at(p)) by {
                assert(solver.goal_grid.has(p.row * w + p.col) <==> listed@.contains(p));
                assert(solver.cell(p) == cell_in(lines, p.row as int, p.col as int));
            }
            assert forall|i: int| 0 <= i < solver.goals@.len() implies solver.goal_at(
                #[trigger] solver.goals@[i],
            ) by {
                let p = solver.goals@[i];
                assert(listed@.contains(p));
                lemma_longest(lines, p.row as int);
                assert(solver.cell(p) == cell_in(lines, p.row as int, p.col as int));
            }
            assert forall|p: Point| #[trigger] solver.goal_at(p) implies solver.goals@.contains(p) by {
                assert(solver.cell(p) == cell_in(lines, p.row as int, p.col as int));
            }
        }
        solver
    }

    /// The solver for the puzzle of `puzzle`, with random keys.
    pub fn new(puzzle: &str) -> (solver: Self)
        requires
            fits(puzzle@),
        ensures
            solver.wf(),
            solver.depicts(lines_of(puzzle@)),
    {
        let chars = chars_of(puzzle);
        let rows = split_lines(&chars);
        let mut solver = Self::board(&rows);
        let ghost drawn = solver;
        solver.initialize_zobrist();
        proof {
            lemma_same_board(&solver, &drawn);
        }
        solver.analyze();
        proof {
            lemma_same_board(&solver, &drawn);
            assert forall|p: Point| solver.in_bounds(p) implies #[trigger] solver.cell(p) == cell_in(
                lines_of(puzzle@),
                p.row as int,
                p.col as int,
            ) by {
                assert(solver.cell(p) == drawn.cell(p));
            }
        }
        solver
    }

    /// The solver for the puzzle of `puzzle`, with the keys of `keys`: for
    /// each cell, row by row, the key of the player and the key of a box. There
    /// is none where `keys` has not one pair for each cell.
    pub fn with_keys(puzzle: &str, keys: Vec<[u64; 2]>) -> (made: Option<Self>)
        requires
            fits(puzzle@),
        ensures
            made is Some <==> keys@.len() == lines_of(puzzle@).len() * longest(lines_of(puzzle@)),
            made is Some ==> made->0.wf() && made->0.depicts(lines_of(puzzle@))
                && made->0.zobrist_table == keys,
    {
        let chars = chars_of(puzzle);
        let rows = split_lines(&chars);
        let mut solver = Self::board(&rows);
        let ghost drawn = solver;
        proof {
            lemma_cells_bounded(solver.width as int, solver.height as int);
        }
        if keys.len() != (solver.width as usize) * (solver.height as usize) {
            return None;
        }
        solver.zobrist_table = keys;
        proof {
            lemma_same_board(&solver, &drawn);
        }
        solver.analyze();
        proof {
            lemma_same_board(&solver, &drawn);
            assert forall|p: Point| solver.in_bounds(p) implies #[trigger] solver.cell(p) == cell_in(
                lines_of(puzzle@),
                p.row as int,
                p.col as int,
            ) by {
                assert(solver.cell(p) == drawn.cell(p));
            }
        }
        Some(solver)
    }

    /// Computes the dead squares and the rooms of a board that has its keys.
    fn analyze(&mut self)
        requires
            old(self).grid_wf(),
            old(self).keys_wf(),
        ensures
            final(self).wf(),
            final(self).same_board(old(self)),
            final(self).zobrist_table == old(self).zobrist_table,
    {
        let ghost drawn = *self;
        self.precompute_static_deadlocks();
        let ghost marked = *self;
        self.precompute_rooms();
        proof {
            lemma_same_board(self, &marked);
            assert forall|p: Point| self.in_bounds(p) implies (#[trigger] self.dead_squares.has(
                self.index_of(p),
            ) <==> self.dead(p)) by {
                assert(marked.dead_squares.has(marked.index_of(p)) <==> marked.dead(p));
            }
        }
    }
}

/// Two solvers for one puzzle agree on its goals, its dead squares, its
/// rooms and their goal counts, whatever their keys are.
pub proof fn lemma_analysis_is_determined(a: &SokobanSolver, b: &SokobanSolver, lines: Seq<Seq<char>>)
    requires
        a.wf(),
        b.wf(),
        a.depicts(lines),
        b.depicts(lines),
    ensures
        a.goals@ == b.goals@,
        forall|p: Point|
            a.in_bounds(p) ==> #[trigger] a.goal_grid.has(a.index_of(p)) == b.goal_grid.has(
                b.index_of(p),
            ),
        forall|p: Point|
            a.in_bounds(p) ==> #[trigger] a.dead_squares.has(a.index_of(p)) == b.dead_squares.has(
                b.index_of(p),
            ),
        forall|p: Point| a.in_bounds(p) ==> #[trigger] a.room_of(p) == b.room_of(p),
        a.goal_counts_by_room@ == b.goal_counts_by_room@,
{
    assert(a.alike(b));
    lemma_alike(a, b);
    assert forall|p: Point| a.in_bounds(p) implies #[trigger] a.goal_grid.has(a.index_of(p))
        == b.goal_grid.has(b.index_of(p)) by {
        assert(a.cell(p) == b.cell(p));
    }
    assert forall|p: Point| a.in_bounds(p) implies #[trigger] a.dead_squares.has(a.index_of(p))
        == b.dead_squares.has(b.index_of(p)) by {
        assert(a.dead(p) == b.dead(p));
    }
    let seeds = choose|seeds: Seq<Point>|
        seeds.len() == b.rooms() && #[trigger] b.labelled(b.room_ids@, seeds);
    lemma_alike(b, a);
    crate::rooms::lemma_labelled_alike(b, a, b.room_ids@, seeds);
    assert(a.partitioned(b.room_ids@, b.rooms()));
    assert forall|p: Point| #[trigger] a.walkable(p) implies a.label_in(a.room_ids@, p)
        != crate::solver::NO_ROOM by {
        assert(a.room_of(p) == a.label_in(a.room_ids@, p));
    }
    assert forall|p: Point| #[trigger] a.walkable(p) implies a.label_in(b.room_ids@, p)
        != crate::solver::NO_ROOM by {
        assert(a.cell(p) == b.cell(p));
        assert(b.walkable(p));
        assert(b.room_of(p) == a.label_in(b.room_ids@, p));
    }
    crate::rooms::lemma_labels_agree(a, a.room_ids@, b.room_ids@, a.rooms(), b.rooms());
    assert forall|p: Point| a.in_bounds(p) implies #[trigger] a.room_of(p) == b.room_of(p) by {
        assert(a.label_in(a.room_ids@, p) == a.label_in(b.room_ids@, p));
    }
    assert forall|room: int| 0 <= room < a.rooms() implies a.goal_counts_by_room@[room]
        == b.goal_counts_by_room@[room] by {
        assert forall|i: int| 0 <= i < a.goals@.len() implies (a.room_ids@[(
        #[trigger] a.goals@[i]).row * a.width + a.goals@[i].col] == room) == (b.room_ids@[a.goals@[i].row
            * a.width + a.goals@[i].col] == room) by {
            let g = a.goals@[i];
            assert(a.goal_at(g));
            assert(a.room_of(g) == b.room_of(g));
        }
        crate::rooms::lemma_count_same(a.goals@, a.room_ids@, b.room_ids@, a.width as int, room);
    }
    assert(a.goal_counts_by_room@ =~= b.goal_counts_by_room@);
}

/// Whether the puzzle of `puzzle` fits a board.
pub fn puzzle_fits(puzzle: &str) -> (b: bool)
    ensures
        b == fits(puzzle@),
{
    let chars = chars_of(puzzle);
    let rows = split_lines(&chars);
    if rows.len() > MAX_SIDE {
        return false;
    }
    if longest_row(&rows) > MAX_SIDE {
        return false;
    }
    let goals = find_marks(&rows, Mark::Goal);
    goals.as_slice().len() <= MAX_GOALS
}

/// Reads a puzzle: where the player starts, where the boxes start, and the
/// solver for its board.
pub fn parse_puzzle(puzzle: &str) -> (parsed: (Point, BoxVec, SokobanSolver))
    requires
        fits(puzzle@),
    ensures
        parsed.0 == player_in(lines_of(puzzle@)),
        parsed.1@ == all_marks(lines_of(puzzle@), Mark::Crate),
        parsed.2.wf(),
        parsed.2.depicts(lines_of(puzzle@)),
        parsed.2.placed(parsed.1@),
        parsed.2.on_floor(parsed.1@),
        parsed.1@.len() > 0 ==> parsed.2.in_bounds(parsed.0),
        all_marks(lines_of(puzzle@), Mark::Player).len() > 0 ==> parsed.2.walkable(parsed.0),
{
    let chars = chars_of(puzzle);
    let rows = split_lines(&chars);
    let ghost lines = lines_of(puzzle@);
    let players = find_marks(&rows, Mark::Player);
    let seen = players.as_slice();
    let player = if seen.len() > 0 {
        seen[seen.len() - 1]
    } else {
        Point::new(0, 0)
    };
    let boxes = find_marks(&rows, Mark::Crate);
    let solver = SokobanSolver::new(puzzle);
    proof {
        lemma_grid_marks(lines, Mark::Crate, lines.len() as int);
        lemma_grid_marks(lines, Mark::Player, lines.len() as int);
        assert forall|i: int| 0 <= i < boxes@.len() implies solver.in_bounds(#[trigger] boxes@[i])
            && solver.walkable(boxes@[i]) by {
            let b = boxes@[i];
            assert(boxes@.contains(b));
            lemma_longest(lines, b.row as int);
            assert(solver.cell(b) == cell_in(lines, b.row as int, b.col as int));
        }
        if boxes@.len() > 0 {
            assert(solver.in_bounds(boxes@[0]));
        }
        if seen@.len() > 0 {
            assert(seen@.contains(player));
            lemma_longest(lines, player.row as int);
            assert(solver.cell(player) == cell_in(lines, player.row as int, player.col as int));
        }
    }
    (player, boxes, solver)
}

/// Solves the puzzle of `puzzle`, if it fits a board.
///
/// The answer is that of `solve` on the puzzle's solver, boxes and player:
/// moves that solve the puzzle and come by no layout twice, or no moves
/// where it is solved already or has no solution (or where two positions of
/// the search share a hash). A puzzle without a single cell has nothing to
/// move and is solved by no moves.
pub fn solve_puzzle(puzzle: &str) -> (answer: Option<String>)
    ensures
        answer is Some <==> fits(puzzle@),
        answer is Some ==> exists|solver: SokobanSolver|
            {
                let start = Position {
                    player: player_in(lines_of(puzzle@)),
                    boxes: all_marks(lines_of(puzzle@), Mark::Crate),
                };
                &&& solver.wf()
                &&& #[trigger] solver.depicts(lines_of(puzzle@))
                &&& answer->0@.len() > 0 ==> solver.solves(start, answer->0@)
                &&& solver.never_back(start, answer->0@)
                &&& solver.solved(start.boxes) ==> answer->0@.len() == 0
                &&& answer->0@.len() == 0 ==> solver.solved(start.boxes) || !solver.hashes_apart(start)
                    || solver.unsolvable(start)
            },
{
    if !puzzle_fits(puzzle) {
        return None;
    }
    let (player, boxes, solver) = parse_puzzle(puzzle);
    let ghost start = Position { player, boxes: boxes@ };
    if !solver.is_valid(player.row, player.col) {
        let out = String::new();
        proof {
            assert(solver.solved(start.boxes));
            assert(solver.depicts(lines_of(puzzle@)));
            assert(solver.never_back(start, out@));
        }
        return Some(out);
    }
    let out = solver.solve(player, boxes);
    proof {
        assert(solver.depicts(lines_of(puzzle@)));
        assert(solver.on_floor(start.boxes));
    }
    Some(out)
}

} // verus!
