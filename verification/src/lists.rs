//! The small collections of the solver: point lists, move paths, per-room
//! counters and goal flags, each stored inline up to a fixed length.
//!
//! The storage comes from the `smallvec` and `arrayvec` crates. What a
//! collection holds is named by a specification function, and the few
//! operations used on it are stated over that name.

use arrayvec::ArrayVec;
use smallvec::SmallVec;
use vstd::prelude::*;
use crate::point::Point;

verus! {

/// A list of points that stays on the stack up to twenty entries.
#[verifier::external_body]
pub struct BoxVec {
    items: SmallVec<[Point; 20]>,
}

/// The points that a point list holds, in order.
pub uninterp spec fn points_of(v: BoxVec) -> Seq<Point>;

impl View for BoxVec {
    type V = Seq<Point>;

    open spec fn view(&self) -> Seq<Point> {
        points_of(*self)
    }
}

impl BoxVec {
    /// `SmallVec::new`: the new list holds nothing.
    #[verifier::external_body]
    pub(crate) fn empty() -> (v: BoxVec)
        ensures
            points_of(v) == Seq::<Point>::empty(),
    {
        BoxVec { items: SmallVec::new() }
    }

    /// `SmallVec::push`: `p` is appended behind the points already held.
    #[verifier::external_body]
    pub(crate) fn append(&mut self, p: Point)
        ensures
            points_of(*final(self)) == points_of(*old(self)).push(p),
    {
        self.items.push(p)
    }

    /// `SmallVec::as_slice`: the held points, in order, as a slice.
    #[verifier::external_body]
    pub(crate) fn as_slice(&self) -> (s: &[Point])
        ensures
            s@ == points_of(*self),
    {
        self.items.as_slice()
    }

    /// `SmallVec`'s `IndexMut`: the entry at `i` becomes `p`, the others stay.
    /// Indexing beyond the length panics, so `i` is below it.
    #[verifier::external_body]
    pub(crate) fn put(&mut self, i: usize, p: Point)
        requires
            i < points_of(*old(self)).len(),
        ensures
            points_of(*final(self)) == points_of(*old(self)).update(i as int, p),
    {
        self.items[i] = p;
    }

    /// `SmallVec`'s `Clone`: the copy holds the same points in the same order.
    #[verifier::external_body]
    pub(crate) fn duplicate(&self) -> (v: BoxVec)
        ensures
            points_of(v) == points_of(*self),
    {
        BoxVec { items: self.items.clone() }
    }

    /// The list that holds the points of `points`, in order.
    pub fn from_slice(points: &[Point]) -> (v: BoxVec)
        ensures
            v@ == points@,
    {
        let mut v = BoxVec::empty();
        let mut i: usize = 0;
        while i < points.len()
            invariant
                i <= points@.len(),
                v@ == points@.take(i as int),
            decreases points@.len() - i,
        {
            v.append(points[i]);
            assert(points@.take(i as int).push(points@[i as int]) =~= points@.take(i + 1));
            i += 1;
        }
        assert(points@.take(points@.len() as int) =~= points@);
        v
    }

    /// The points that the list holds, in order.
    pub fn to_vec(&self) -> (points: Vec<Point>)
        ensures
            points@ == self@,
    {
        let held = self.as_slice();
        let mut points: Vec<Point> = Vec::new();
        let mut i: usize = 0;
        while i < held.len()
            invariant
                i <= held@.len(),
                held@ == self@,
                points@ == held@.take(i as int),
            decreases held@.len() - i,
        {
            points.push(held[i]);
            assert(held@.take(i as int).push(held@[i as int]) =~= held@.take(i + 1));
            i += 1;
        }
        assert(held@.take(held@.len() as int) =~= held@);
        points
    }
}

/// A sequence of move codes that stays on the stack up to 256 entries.
#[verifier::external_body]
pub struct MovePath {
    items: SmallVec<[u8; 256]>,
}

/// The move codes that a path holds, first move first.
pub uninterp spec fn moves_of(p: MovePath) -> Seq<u8>;

impl View for MovePath {
    type V = Seq<u8>;

    open spec fn view(&self) -> Seq<u8> {
        moves_of(*self)
    }
}

impl MovePath {
    /// `SmallVec::new`: the new path holds no move.
    #[verifier::external_body]
    pub(crate) fn empty() -> (p: MovePath)
        ensures
            moves_of(p) == Seq::<u8>::empty(),
    {
        MovePath { items: SmallVec::new() }
    }

    /// `SmallVec::push`: `code` is appended behind the moves already held.
    #[verifier::external_body]
    pub(crate) fn append(&mut self, code: u8)
        ensures
            moves_of(*final(self)) == moves_of(*old(self)).push(code),
    {
        self.items.push(code)
    }

    /// `SmallVec::as_slice`: the held moves, in order, as a slice.
    #[verifier::external_body]
    pub(crate) fn as_slice(&self) -> (s: &[u8])
        ensures
            s@ == moves_of(*self),
    {
        self.items.as_slice()
    }

    /// `SmallVec`'s `Clone`: the copy holds the same moves in the same order.
    #[verifier::external_body]
    pub(crate) fn duplicate(&self) -> (p: MovePath)
        ensures
            moves_of(p) == moves_of(*self),
    {
        MovePath { items: self.items.clone() }
    }

    /// The path that holds the move codes of `codes`, in order.
    pub fn from_slice(codes: &[u8]) -> (p: MovePath)
        ensures
            p@ == codes@,
    {
        let mut p = MovePath::empty();
        let mut i: usize = 0;
        while i < codes.len()
            invariant
                i <= codes@.len(),
                p@ == codes@.take(i as int),
            decreases codes@.len() - i,
        {
            p.append(codes[i]);
            assert(codes@.take(i as int).push(codes@[i as int]) =~= codes@.take(i + 1));
            i += 1;
        }
        assert(codes@.take(codes@.len() as int) =~= codes@);
        p
    }

    /// The move codes that the path holds, in order.
    pub fn to_vec(&self) -> (codes: Vec<u8>)
        ensures
            codes@ == self@,
    {
        let held = self.as_slice();
        let mut codes: Vec<u8> = Vec::new();
        let mut i: usize = 0;
        while i < held.len()
            invariant
                i <= held@.len(),
                held@ == self@,
                codes@ == held@.take(i as int),
            decreases held@.len() - i,
        {
            codes.push(held[i]);
            assert(held@.take(i as int).push(held@[i as int]) =~= held@.take(i + 1));
            i += 1;
        }
        assert(held@.take(held@.len() as int) =~= held@);
        codes
    }
}

/// One counter per room, stored on the stack up to eight rooms.
#[verifier::external_body]
pub struct RoomCounts {
    items: SmallVec<[i32; 8]>,
}

/// The counters that a counter list holds, by room id.
pub uninterp spec fn counts_of(c: RoomCounts) -> Seq<i32>;

impl View for RoomCounts {
    type V = Seq<i32>;

    open spec fn view(&self) -> Seq<i32> {
        counts_of(*self)
    }
}

impl RoomCounts {
    /// `SmallVec::new`: the new list holds no counter.
    #[verifier::external_body]
    pub(crate) fn empty() -> (c: RoomCounts)
        ensures
            counts_of(c) == Seq::<i32>::empty(),
    {
        RoomCounts { items: SmallVec::new() }
    }

    /// `SmallVec::push`: `n` is appended behind the counters already held.
    #[verifier::external_body]
    pub(crate) fn append(&mut self, n: i32)
        ensures
            counts_of(*final(self)) == counts_of(*old(self)).push(n),
    {
        self.items.push(n)
    }

    /// `SmallVec::resize`, on an empty list only: it then holds `len` copies
    /// of `n`.
    #[verifier::external_body]
    pub(crate) fn fill(&mut self, len: usize, n: i32)
        requires
            counts_of(*old(self)).len() == 0,
        ensures
            counts_of(*final(self)) == Seq::new(len as nat, |i: int| n),
    {
        self.items.resize(len, n)
    }

    /// `SmallVec::as_slice`: the held counters, in order, as a slice.
    #[verifier::external_body]
    pub(crate) fn as_slice(&self) -> (s: &[i32])
        ensures
            s@ == counts_of(*self),
    {
        self.items.as_slice()
    }

    /// `SmallVec`'s `IndexMut`: the counter at `i` becomes `n`, the others
    /// stay. Indexing beyond the length panics, so `i` is below it.
    #[verifier::external_body]
    pub(crate) fn put(&mut self, i: usize, n: i32)
        requires
            i < counts_of(*old(self)).len(),
        ensures
            counts_of(*final(self)) == counts_of(*old(self)).update(i as int, n),
    {
        self.items[i] = n;
    }

    /// The counters that the list holds, by room id.
    pub fn to_vec(&self) -> (counts: Vec<i32>)
        ensures
            counts@ == self@,
    {
        let held = self.as_slice();
        let mut counts: Vec<i32> = Vec::new();
        let mut i: usize = 0;
        while i < held.len()
            invariant
                i <= held@.len(),
                held@ == self@,
                counts@ == held@.take(i as int),
            decreases held@.len() - i,
        {
            counts.push(held[i]);
            assert(held@.take(i as int).push(held@[i as int]) =~= held@.take(i + 1));
            i += 1;
        }
        assert(held@.take(held@.len() as int) =~= held@);
        counts
    }
}

/// The array-backed vector of the `arrayvec` crate, held opaque.
#[verifier::external_type_specification]
#[verifier::external_body]
#[verifier::reject_recursive_types(T)]
pub struct ExArrayVec<T, const CAP: usize>(ArrayVec<T, CAP>);

/// The flags that a flag vector holds, by goal index.
pub uninterp spec fn flags_of(v: ArrayVec<bool, 64>) -> Seq<bool>;

/// `ArrayVec::new`: the new vector holds no flag.
#[verifier::external_body]
pub(crate) fn flags_new() -> (v: ArrayVec<bool, 64>)
    ensures
        flags_of(v) == Seq::<bool>::empty(),
{
    ArrayVec::new()
}

/// `ArrayVec::push`: `flag` is appended behind the flags already held. The
/// call panics on a full vector, so fewer than 64 flags are held before it.
#[verifier::external_body]
pub(crate) fn flags_push(v: &mut ArrayVec<bool, 64>, flag: bool)
    requires
        flags_of(*old(v)).len() < 64,
    ensures
        flags_of(*final(v)) == flags_of(*old(v)).push(flag),
{
    v.push(flag)
}

/// `ArrayVec::as_slice`: the held flags, in order, as a slice.
#[verifier::external_body]
pub(crate) fn flags_slice(v: &ArrayVec<bool, 64>) -> (s: &[bool])
    ensures
        s@ == flags_of(*v),
{
    v.as_slice()
}

/// `ArrayVec`'s `IndexMut`: the flag at `i` becomes `flag`, the others stay.
/// Indexing beyond the length panics, so `i` is below it.
#[verifier::external_body]
pub(crate) fn flags_put(v: &mut ArrayVec<bool, 64>, i: usize, flag: bool)
    requires
        i < flags_of(*old(v)).len(),
    ensures
        flags_of(*final(v)) == flags_of(*old(v)).update(i as int, flag),
{
    v[i] = flag;
}

} // verus!
