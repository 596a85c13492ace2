//! Board coordinates.

use vstd::prelude::*;

verus! {

/// A cell position as a (row, column) pair.
#[derive(Clone, Copy, PartialEq, Eq, Structural, Hash, Debug)]
pub struct Point {
    pub row: i16,
    pub col: i16,
}

/// The number of move directions. A direction is a code below it: 0 up,
/// 1 down, 2 left, 3 right.
pub const DIRECTIONS: u8 = 4;

/// The change of row that one step in direction `dir` makes.
pub open spec fn row_step(dir: int) -> int {
    if dir == 0 {
        -1
    } else if dir == 1 {
        1
    } else {
        0
    }
}

/// The change of column that one step in direction `dir` makes.
pub open spec fn col_step(dir: int) -> int {
    if dir == 2 {
        -1
    } else if dir == 3 {
        1
    } else {
        0
    }
}

/// The direction that undoes a step in direction `dir`.
pub open spec fn opposite(dir: int) -> int {
    if dir == 0 {
        1
    } else if dir == 1 {
        0
    } else if dir == 2 {
        3
    } else {
        2
    }
}

/// The character that stands for direction `dir` in a move string.
pub open spec fn move_char(dir: int) -> char {
    if dir == 0 {
        'u'
    } else if dir == 1 {
        'd'
    } else if dir == 2 {
        'l'
    } else {
        'r'
    }
}

/// Whether `a` comes before `b` in reading order: in a row above, or
/// further left in the same row.
pub open spec fn earlier(a: Point, b: Point) -> bool {
    a.row < b.row || (a.row == b.row && a.col < b.col)
}

/// The value of `x` read as an unsigned 16-bit number (two's complement).
pub open spec fn low16(x: i16) -> int {
    if x >= 0 {
        x as int
    } else {
        x + 0x1_0000
    }
}

/// The value of the 16-bit pattern `v` read as a signed number.
pub open spec fn signed16(v: int) -> int {
    if v < 0x8000 {
        v
    } else {
        v - 0x1_0000
    }
}

impl Point {
    /// The packed form of a point: the row's 16 bits above the column's.
    pub open spec fn packed(self) -> int {
        low16(self.row) * 0x1_0000 + low16(self.col)
    }

    /// The point one step from this one in direction `dir`.
    pub open spec fn stepped(self, dir: int) -> Point {
        Point { row: (self.row + row_step(dir)) as i16, col: (self.col + col_step(dir)) as i16 }
    }

    /// The sum of the row distance and the column distance to `other`.
    pub open spec fn manhattan(self, other: Point) -> int {
        (if self.row >= other.row {
            self.row - other.row
        } else {
            other.row - self.row
        }) + (if self.col >= other.col {
            self.col - other.col
        } else {
            other.col - self.col
        })
    }

    /// Builds the point at `row`, `col`.
    pub fn new(row: i16, col: i16) -> (p: Point)
        ensures
            p.row == row,
            p.col == col,
    {
        Point { row, col }
    }

    /// The point one step from this one in direction `dir`. The row and the
    /// column stay one short of the ends of their type, so the step fits.
    pub fn step(self, dir: u8) -> (p: Point)
        requires
            dir < DIRECTIONS,
            i16::MIN < self.row < i16::MAX,
            i16::MIN < self.col < i16::MAX,
        ensures
            p == self.stepped(dir as int),
    {
        if dir == 0 {
            Point { row: self.row - 1, col: self.col }
        } else if dir == 1 {
            Point { row: self.row + 1, col: self.col }
        } else if dir == 2 {
            Point { row: self.row, col: self.col - 1 }
        } else {
            Point { row: self.row, col: self.col + 1 }
        }
    }

    /// The Manhattan distance to `other`.
    pub fn distance(self, other: Point) -> (d: u64)
        ensures
            d == self.manhattan(other),
    {
        let rows: i32 = if self.row >= other.row {
            self.row as i32 - other.row as i32
        } else {
            other.row as i32 - self.row as i32
        };
        let cols: i32 = if self.col >= other.col {
            self.col as i32 - other.col as i32
        } else {
            other.col as i32 - self.col as i32
        };
        (rows + cols) as u64
    }

    /// Packs both coordinates into one 32-bit word.
    pub fn pack(self) -> (word: u32)
        ensures
            word as int == self.packed(),
    {
        let r: i16 = self.row;
        let c: i16 = self.col;
        let word: u32 = ((#[verifier::truncate] (r as u32)) << 16) | ((#[verifier::truncate] (c as u32)) & 0xFFFF);
        assert(word as int == (if r >= 0 { r as int } else { r + 0x1_0000 }) * 0x1_0000
            + (if c >= 0 { c as int } else { c + 0x1_0000 })) by (bit_vector)
            requires
                word == ((r as u32) << 16) | ((c as u32) & 0xFFFF),
        ;
        word
    }

    /// Reads a point back from its packed form.
    pub fn unpack(word: u32) -> (p: Point)
        ensures
            p.row as int == signed16(word as int / 0x1_0000),
            p.col as int == signed16(word as int % 0x1_0000),
    {
        let r: i16 = #[verifier::truncate] ((word >> 16) as i16);
        let c: i16 = #[verifier::truncate] ((word & 0xFFFF) as i16);
        assert(r as int == (if word / 0x1_0000 < 0x8000 { (word / 0x1_0000) as int } else { word / 0x1_0000 - 0x1_0000 })) by (bit_vector)
            requires
                r == (word >> 16) as i16,
        ;
        assert(c as int == (if word % 0x1_0000 < 0x8000 { (word % 0x1_0000) as int } else { word % 0x1_0000 - 0x1_0000 })) by (bit_vector)
            requires
                c == (word & 0xFFFF) as i16,
        ;
        Point { row: r, col: c }
    }
}

/// Unpacking a packed point gives the point back.
pub proof fn lemma_unpack_pack(p: Point)
    ensures
        signed16(p.packed() / 0x1_0000) == p.row,
        signed16(p.packed() % 0x1_0000) == p.col,
        0 <= p.packed() <= u32::MAX,
{
}

} // verus!
