//! Zobrist hashing of search states: one random key per cell for the player,
//! one per cell for a box, combined by exclusive or.

use std::collections::hash_map::DefaultHasher;
use std::hash::{BuildHasher, Hash, Hasher, RandomState};
use vstd::prelude::*;
use crate::point::Point;
use crate::solver::{lemma_cells_bounded, SokobanSolver};

verus! {

/// `RandomState::new`: a source of hashers whose keys are drawn at random
/// for each call. Nothing is claimed of it.
#[verifier::external_body]
fn random_source() -> RandomState {
    RandomState::new()
}

/// `BuildHasher::build_hasher` of a `RandomState`: a hasher that carries the
/// random keys of `source`. Nothing is claimed of it.
#[verifier::external_body]
fn hasher_from(source: &RandomState) -> DefaultHasher {
    source.build_hasher()
}

/// `Hash::hash` of the pair (`cell`, `role`): feeds both into `hasher`.
/// Nothing is claimed of the hasher afterwards.
#[verifier::external_body]
fn feed(hasher: &mut DefaultHasher, cell: usize, role: u8) {
    (cell, role).hash(hasher)
}

/// A table of `cells` key pairs drawn from a fresh random source. Of the
/// keys themselves nothing is known.
pub fn random_keys(cells: usize) -> (table: Vec<[u64; 2]>)
    ensures
        table@.len() == cells,
{
    let source = random_source();
    let mut table: Vec<[u64; 2]> = Vec::new();
    let mut i: usize = 0;
    while i < cells
        invariant
            i <= cells,
            table@.len() == i,
        decreases cells - i,
    {
        let mut first = hasher_from(&source);
        feed(&mut first, i, 0);
        let player_key: u64 = first.finish();
        let mut second = hasher_from(&source);
        feed(&mut second, i, 1);
        let box_key: u64 = second.finish();
        table.push([player_key, box_key]);
        i += 1;
    }
    table
}

proof fn lemma_xor_laws(a: u64, b: u64, c: u64)
    ensures
        (a ^ b) ^ c == a ^ (b ^ c),
        a ^ b == b ^ a,
        a ^ a == 0,
        a ^ 0 == a,
        0 ^ a == a,
{
    assert((a ^ b) ^ c == a ^ (b ^ c)) by (bit_vector);
    assert(a ^ b == b ^ a) by (bit_vector);
    assert(a ^ a == 0) by (bit_vector);
    assert(a ^ 0 == a) by (bit_vector);
    assert(0 ^ a == a) by (bit_vector);
}

impl SokobanSolver {
    /// The key of the player standing at `p`.
    pub open spec fn player_key(&self, p: Point) -> u64 {
        self.zobrist_table@[self.index_of(p)][0]
    }

    /// The key of a box standing at `p`.
    pub open spec fn box_key(&self, p: Point) -> u64 {
        self.zobrist_table@[self.index_of(p)][1]
    }

    /// The exclusive or of the box keys of `boxes`.
    pub open spec fn boxes_key(&self, boxes: Seq<Point>) -> u64
        decreases boxes.len(),
    {
        if boxes.len() == 0 {
            0
        } else {
            self.boxes_key(boxes.drop_last()) ^ self.box_key(boxes.last())
        }
    }

    /// The hash of a state: the player's key combined with every box's key.
    pub open spec fn zobrist(&self, player: Point, boxes: Seq<Point>) -> u64 {
        self.player_key(player) ^ self.boxes_key(boxes)
    }

    /// The key of the box at `at`, or 0 where there is none.
    pub open spec fn optional_box_key(&self, at: Option<Point>) -> u64 {
        match at {
            Some(p) => self.box_key(p),
            None => 0,
        }
    }

    /// The hash after one move, from the hash before it: the player's old key
    /// out and new key in, and the same for the box that was pushed.
    pub open spec fn rehashed(
        &self,
        old_hash: u64,
        old_player: Point,
        new_player: Point,
        old_box: Option<Point>,
        new_box: Option<Point>,
    ) -> u64 {
        old_hash ^ self.player_key(old_player) ^ self.player_key(new_player)
            ^ self.optional_box_key(old_box) ^ self.optional_box_key(new_box)
    }

    /// Draws a fresh pair of random keys for every cell.
    pub fn initialize_zobrist(&mut self)
        requires
            0 <= old(self).width,
            0 <= old(self).height,
        ensures
            final(self).keys_wf(),
            final(self).width == old(self).width,
            final(self).height == old(self).height,
            final(self).map == old(self).map,
            final(self).goals == old(self).goals,
            final(self).goal_grid == old(self).goal_grid,
            final(self).dead_squares == old(self).dead_squares,
            final(self).room_ids == old(self).room_ids,
            final(self).goal_counts_by_room == old(self).goal_counts_by_room,
    {
        proof {
            lemma_cells_bounded(self.width as int, self.height as int);
        }
        let size: usize = (self.width as usize) * (self.height as usize);
        self.zobrist_table = random_keys(size);
    }

    /// The exclusive or of the box keys of `boxes`.
    pub fn boxes_zobrist_key(&self, boxes: &[Point]) -> (key: u64)
        requires
            self.keys_wf(),
            forall|i: int| 0 <= i < boxes@.len() ==> self.in_bounds(#[trigger] boxes@[i]),
        ensures
            key == self.boxes_key(boxes@),
    {
        let mut key: u64 = 0;
        let mut i: usize = 0;
        while i < boxes.len()
            invariant
                i <= boxes@.len(),
                self.keys_wf(),
                forall|j: int| 0 <= j < boxes@.len() ==> self.in_bounds(#[trigger] boxes@[j]),
                key == self.boxes_key(boxes@.take(i as int)),
            decreases boxes@.len() - i,
        {
            let b = boxes[i];
            let idx = self.to_idx(b.row, b.col);
            key = key ^ self.zobrist_table[idx][1];
            assert(boxes@.take(i + 1).drop_last() =~= boxes@.take(i as int));
            i += 1;
        }
        assert(boxes@.take(boxes@.len() as int) =~= boxes@);
        key
    }

    /// The hash of the state with the player at `player` and boxes at `boxes`.
    pub fn calculate_zobrist_hash(&self, player: &Point, boxes: &[Point]) -> (hash: u64)
        requires
            self.keys_wf(),
            self.in_bounds(*player),
            forall|i: int| 0 <= i < boxes@.len() ==> self.in_bounds(#[trigger] boxes@[i]),
        ensures
            hash == self.zobrist(*player, boxes@),
    {
        let p_idx = self.to_idx(player.row, player.col);
        let mut hash: u64 = self.zobrist_table[p_idx][0];
        let mut i: usize = 0;
        proof {
            lemma_xor_laws(hash, 0, 0);
        }
        while i < boxes.len()
            invariant
                i <= boxes@.len(),
                self.keys_wf(),
                forall|j: int| 0 <= j < boxes@.len() ==> self.in_bounds(#[trigger] boxes@[j]),
                hash == self.zobrist(*player, boxes@.take(i as int)),
            decreases boxes@.len() - i,
        {
            let b = boxes[i];
            let b_idx = self.to_idx(b.row, b.col);
            proof {
                assert(boxes@.take(i + 1).drop_last() =~= boxes@.take(i as int));
                lemma_xor_laws(
                    self.player_key(*player),
                    self.boxes_key(boxes@.take(i as int)),
                    self.box_key(b),
                );
            }
            hash = hash ^ self.zobrist_table[b_idx][1];
            i += 1;
        }
        assert(boxes@.take(boxes@.len() as int) =~= boxes@);
        hash
    }

    /// The hash after one move, computed from the hash before it.
    pub fn calculate_zobrist_hash_incremental(
        &self,
        old_hash: u64,
        old_player: Point,
        new_player: Point,
        old_box: Option<Point>,
        new_box: Option<Point>,
    ) -> (hash: u64)
        requires
            self.keys_wf(),
            self.in_bounds(old_player),
            self.in_bounds(new_player),
            old_box is Some ==> self.in_bounds(old_box->0),
            new_box is Some ==> self.in_bounds(new_box->0),
        ensures
            hash == self.rehashed(old_hash, old_player, new_player, old_box, new_box),
    {
        let mut hash: u64 = old_hash;
        let old_p_idx = self.to_idx(old_player.row, old_player.col);
        hash = hash ^ self.zobrist_table[old_p_idx][0];
        let new_p_idx = self.to_idx(new_player.row, new_player.col);
        hash = hash ^ self.zobrist_table[new_p_idx][0];
        if let Some(old_b) = old_box {
            let old_b_idx = self.to_idx(old_b.row, old_b.col);
            hash = hash ^ self.zobrist_table[old_b_idx][1];
        } else {
            proof {
                lemma_xor_laws(hash, 0, 0);
            }
        }
        if let Some(new_b) = new_box {
            let new_b_idx = self.to_idx(new_b.row, new_b.col);
            hash = hash ^ self.zobrist_table[new_b_idx][1];
        } else {
            proof {
                lemma_xor_laws(hash, 0, 0);
            }
        }
        hash
    }
}

/// Moving one box changes the combined box key by that box's old and new key.
pub proof fn lemma_boxes_key_update(s: &SokobanSolver, boxes: Seq<Point>, i: int, to: Point)
    requires
        0 <= i < boxes.len(),
    ensures
        s.boxes_key(boxes.update(i, to)) == s.boxes_key(boxes) ^ s.box_key(boxes[i]) ^ s.box_key(to),
    decreases boxes.len(),
{
    let rest = boxes.drop_last();
    let last = boxes.last();
    let moved = boxes.update(i, to);
    let k = s.boxes_key(rest);
    let l = s.box_key(last);
    let b = s.box_key(to);
    assert(s.boxes_key(boxes) == k ^ l);
    if i == boxes.len() - 1 {
        assert(moved.drop_last() =~= rest);
        assert(moved.last() == to);
        assert(s.boxes_key(moved) == k ^ b);
        assert(k ^ b == ((k ^ l) ^ l) ^ b) by (bit_vector);
    } else {
        assert(moved.drop_last() =~= rest.update(i, to));
        assert(moved.last() == last);
        lemma_boxes_key_update(s, rest, i, to);
        let a = s.box_key(boxes[i]);
        assert(rest[i] == boxes[i]);
        assert(s.boxes_key(moved) == ((k ^ a) ^ b) ^ l);
        assert(((k ^ a) ^ b) ^ l == ((k ^ l) ^ a) ^ b) by (bit_vector);
    }
}

/// Taking one box out of a list takes its key out of the combined key.
pub proof fn lemma_boxes_key_remove(s: &SokobanSolver, boxes: Seq<Point>, i: int)
    requires
        0 <= i < boxes.len(),
    ensures
        s.boxes_key(boxes) == s.boxes_key(boxes.remove(i)) ^ s.box_key(boxes[i]),
    decreases boxes.len(),
{
    let rest = boxes.drop_last();
    let last = s.box_key(boxes.last());
    if i == boxes.len() - 1 {
        assert(boxes.remove(i) =~= rest);
    } else {
        let fewer = boxes.remove(i);
        assert(fewer.drop_last() =~= rest.remove(i));
        assert(fewer.last() == boxes.last());
        lemma_boxes_key_remove(s, rest, i);
        let k = s.boxes_key(rest.remove(i));
        let a = s.box_key(boxes[i]);
        assert(rest[i] == boxes[i]);
        assert((k ^ a) ^ last == (k ^ last) ^ a) by (bit_vector);
    }
}

/// The combined key of a list of boxes on distinct cells depends on the
/// cells alone, not on their order.
pub proof fn lemma_boxes_key_by_cells(s: &SokobanSolver, a: Seq<Point>, b: Seq<Point>)
    requires
        a.no_duplicates(),
        b.no_duplicates(),
        a.to_set() == b.to_set(),
    ensures
        s.boxes_key(a) == s.boxes_key(b),
    decreases a.len(),
{
    a.unique_seq_to_set();
    b.unique_seq_to_set();
    if a.len() > 0 {
        let x = a.last();
        let rest = a.drop_last();
        assert(a.to_set().contains(x)) by {
            assert(a[a.len() - 1] == x);
        }
        let i = choose|i: int| 0 <= i < b.len() && b[i] == x;
        let fewer = b.remove(i);
        assert forall|p: Point| rest.to_set().contains(p) <==> fewer.to_set().contains(p) by {
            if rest.to_set().contains(p) {
                let k = choose|k: int| 0 <= k < rest.len() && rest[k] == p;
                assert(a[k] == p);
                assert(p != x);
                assert(b.to_set().contains(p));
                let j = choose|j: int| 0 <= j < b.len() && b[j] == p;
                if j < i {
                    assert(fewer[j] == p);
                } else {
                    assert(fewer[j - 1] == p);
                }
            }
            if fewer.to_set().contains(p) {
                let j = choose|j: int| 0 <= j < fewer.len() && fewer[j] == p;
                if j < i {
                    assert(b[j] == p);
                } else {
                    assert(b[j + 1] == p);
                }
                assert(p != x);
                assert(a.to_set().contains(p));
                let k = choose|k: int| 0 <= k < a.len() && a[k] == p;
                assert(rest[k] == p);
            }
        }
        assert(rest.to_set() =~= fewer.to_set());
        assert(fewer.no_duplicates()) by {
            assert forall|m: int, n: int|
                0 <= m < fewer.len() && 0 <= n < fewer.len() && m != n implies fewer[m]
                != fewer[n] by {
                let mm = if m < i { m } else { m + 1 };
                let nn = if n < i { n } else { n + 1 };
                assert(fewer[m] == b[mm]);
                assert(fewer[n] == b[nn]);
            }
        }
        lemma_boxes_key_by_cells(s, rest, fewer);
        lemma_boxes_key_remove(s, b, i);
    }
}

/// A walk: the hash updated for the player's step alone is the hash of the
/// state after the step.
pub proof fn lemma_rehash_walk(s: &SokobanSolver, player: Point, to: Point, boxes: Seq<Point>)
    ensures
        s.rehashed(s.zobrist(player, boxes), player, to, None, None) == s.zobrist(to, boxes),
{
    let p = s.player_key(player);
    let q = s.player_key(to);
    let k = s.boxes_key(boxes);
    assert(((((p ^ k) ^ p) ^ q) ^ 0) ^ 0 == q ^ k) by (bit_vector);
}

/// A push: the hash updated for the player's step and the box's step is the
/// hash of the state after the push.
pub proof fn lemma_rehash_push(
    s: &SokobanSolver,
    player: Point,
    to: Point,
    boxes: Seq<Point>,
    i: int,
    box_to: Point,
)
    requires
        0 <= i < boxes.len(),
    ensures
        s.rehashed(s.zobrist(player, boxes), player, to, Some(boxes[i]), Some(box_to)) == s.zobrist(
            to,
            boxes.update(i, box_to),
        ),
{
    lemma_boxes_key_update(s, boxes, i, box_to);
    let p = s.player_key(player);
    let q = s.player_key(to);
    let k = s.boxes_key(boxes);
    let a = s.box_key(boxes[i]);
    let b = s.box_key(box_to);
    assert(((((p ^ k) ^ p) ^ q) ^ a) ^ b == q ^ ((k ^ a) ^ b)) by (bit_vector);
}

} // verus!
