//! The best-first search for a solution.

use rustc_hash::FxHashSet;
use vstd::prelude::*;
use vstd::set_lib::{lemma_int_range, lemma_len_subset, lemma_map_size, set_int_range};
use vstd::string::StringExecFns;
use crate::heap::{OpenHeap, State};
use crate::heuristic::{find_point, lemma_position};
use crate::layout::same_layout;
use crate::lists::{BoxVec, MovePath};
use crate::moves::{direction_of, lemma_moved_sound, lemma_text_push, text_of, Position};
use crate::point::{move_char, Point};
use crate::solver::SokobanSolver;
use crate::zobrist::{lemma_boxes_key_by_cells, lemma_rehash_push, lemma_rehash_walk};

verus! {

/// The hasher factory of the `rustc_hash` crate, held opaque.
#[verifier::external_type_specification]
#[verifier::external_body]
pub struct ExFxBuildHasher(rustc_hash::FxBuildHasher);

/// `HashSet::with_capacity_and_hasher` with the Fx hasher: an empty set.
#[verifier::external_body]
fn visited_with_capacity(capacity: usize) -> (set: FxHashSet<u64>)
    ensures
        set@ == Set::<u64>::empty(),
{
    FxHashSet::with_capacity_and_hasher(capacity, Default::default())
}

/// `HashSet::insert`: the set gains `hash`; the result says whether it was new.
#[verifier::external_body]
fn visited_insert(set: &mut FxHashSet<u64>, hash: u64) -> (fresh: bool)
    ensures
        final(set)@ == old(set)@.insert(hash),
        fresh == !old(set)@.contains(hash),
{
    set.insert(hash)
}

/// `HashSet::contains`: whether the set holds `hash`.
#[verifier::external_body]
fn visited_contains(set: &FxHashSet<u64>, hash: u64) -> (found: bool)
    ensures
        found == set@.contains(hash),
{
    set.contains(&hash)
}

/// The number of 64-bit hashes.
pub open spec fn hash_count() -> int {
    0x1_0000_0000_0000_0000
}

/// A finite set of hashes has at most as many members as there are hashes.
proof fn lemma_hashes_bounded(set: Set<u64>)
    requires
        set.finite(),
    ensures
        set.len() <= hash_count(),
{
    let f = |h: u64| h as int;
    let image = set.map(f);
    let range = set_int_range(0, hash_count());
    lemma_int_range(0, hash_count());
    assert(image.subset_of(range));
    lemma_len_subset(image, range);
    assert(vstd::relations::injective_on(f, set));
    lemma_map_size(set, image, f);
}

/// Whether some state of `heap` stands at `pos`.
pub open spec fn pending(heap: Seq<State>, pos: Position) -> bool {
    exists|k: int| 0 <= k < heap.len() && (#[trigger] heap[k]).position() == pos
}

/// What one move of the search leads to.
pub struct Step {
    pub player: Point,
    pub boxes: BoxVec,
    pub hash: u64,
}

impl SokobanSolver {
    /// The position after playing `moves` from `pos` as the search does: every
    /// move legal, no push onto a dead square, none that overfills a room.
    pub open spec fn search_replay(&self, pos: Position, moves: Seq<char>) -> Option<Position>
        decreases moves.len(),
    {
        if moves.len() == 0 {
            Some(pos)
        } else {
            match self.search_replay(pos, moves.drop_last()) {
                Some(before) => self.searched(before, direction_of(moves.last())),
                None => None,
            }
        }
    }

    /// The hash of a position.
    pub open spec fn hash_of(&self, pos: Position) -> u64 {
        self.zobrist(pos.player, pos.boxes)
    }

    /// Whether the search needs no new state for `pos`: its hash was seen, or
    /// a state at `pos` waits in the heap.
    pub open spec fn covered(&self, seen: Set<u64>, heap: Seq<State>, pos: Position) -> bool {
        seen.contains(self.hash_of(pos)) || pending(heap, pos)
    }

    /// Whether the position that `text` leads to was expanded: it is not
    /// solved, its hash was seen, and what the first `dirs` directions lead to
    /// is covered.
    pub open spec fn expanded(
        &self,
        start: Position,
        text: Seq<char>,
        seen: Set<u64>,
        heap: Seq<State>,
        dirs: int,
    ) -> bool {
        match self.search_replay(start, text) {
            Some(pos) => {
                &&& seen.contains(self.hash_of(pos))
                &&& !self.solved(pos.boxes)
                &&& forall|dir: int|
                    0 <= dir < dirs ==> match #[trigger] self.searched(pos, dir) {
                        Some(next) => self.covered(seen, heap, next),
                        None => true,
                    }
            },
            None => false,
        }
    }

    /// Whether every hash of `seen` is the hash of a position that one of
    /// `done` leads to.
    pub open spec fn accounted(&self, start: Position, done: Seq<Seq<char>>, seen: Set<u64>) -> bool {
        forall|h: u64| #[trigger]
            seen.contains(h) ==> exists|i: int|
                0 <= i < done.len() && self.search_replay(start, #[trigger] done[i]) is Some
                    && self.hash_of(self.search_replay(start, done[i])->0) == h
    }

    /// Whether hashes tell the positions of the search apart: two positions
    /// that the search can reach from `start` and that share a hash have the
    /// player on one cell and the boxes on the same cells.
    pub open spec fn hashes_apart(&self, start: Position) -> bool {
        forall|a: Seq<char>, b: Seq<char>|
            ({
                let p = #[trigger] self.search_replay(start, a);
                let q = #[trigger] self.search_replay(start, b);
                p is Some && q is Some && self.hash_of(p->0) == self.hash_of(q->0) ==> same_layout(
                    p->0,
                    q->0,
                )
            })
    }

    /// Whether no moves that the search takes lead from `start` to a solved
    /// position.
    pub open spec fn hopeless(&self, start: Position) -> bool {
        forall|moves: Seq<char>|
            match #[trigger] self.search_replay(start, moves) {
                Some(end) => !self.solved(end.boxes),
                None => true,
            }
    }

    /// The hash of the position that the first `i` of `moves` lead to.
    pub open spec fn hash_at(&self, start: Position, moves: Seq<char>, i: int) -> u64 {
        self.hash_of(self.search_replay(start, moves.take(i))->0)
    }

    /// Whether the positions that `moves` pass all differ in their hashes,
    /// and all but the last have hashes in `seen`.
    pub open spec fn trail_ok(&self, start: Position, moves: Seq<char>, seen: Set<u64>) -> bool {
        &&& forall|i: int| 0 <= i < moves.len() ==> seen.contains(#[trigger] self.hash_at(start, moves, i))
        &&& forall|i: int, j: int|
            0 <= i < j <= moves.len() ==> #[trigger] self.hash_at(start, moves, i)
                != #[trigger] self.hash_at(start, moves, j)
    }

    /// Whether playing `moves` from `pos` comes by no layout twice: the
    /// player and the boxes never stand as they stood before.
    pub open spec fn never_back(&self, pos: Position, moves: Seq<char>) -> bool {
        forall|i: int, j: int|
            0 <= i < j <= moves.len() ==> !same_layout(
                (#[trigger] self.replay(pos, moves.take(i)))->0,
                (#[trigger] self.replay(pos, moves.take(j)))->0,
            )
    }

    /// What holds of every state that the search creates from `start`: its
    /// path leads from `start` to its position by moves that the search takes,
    /// and its hash and heuristic are those of its position.
    pub open spec fn node_ok(&self, start: Position, state: State) -> bool {
        &&& self.sound(state.position())
        &&& state.boxes@.len() == start.boxes.len()
        &&& state.hash == self.zobrist(state.player, state.boxes@)
        &&& state.heuristic == self.heuristic_of(state.boxes@)
        &&& forall|i: int| 0 <= i < state.path@.len() ==> #[trigger] state.path@[i] < 4
        &&& self.search_replay(start, text_of(state.path@)) == Some(state.position())
    }

    /// The move string of `path`.
    pub fn path_string(path: &MovePath) -> (out: String)
        requires
            forall|i: int| 0 <= i < path@.len() ==> #[trigger] path@[i] < 4,
        ensures
            out@ == text_of(path@),
    {
        let codes = path.as_slice();
        let mut out = String::new();
        let mut i: usize = 0;
        proof {
            reveal_strlit("u");
            reveal_strlit("d");
            reveal_strlit("l");
            reveal_strlit("r");
            assert(text_of(codes@.take(0)) =~= Seq::<char>::empty());
        }
        while i < codes.len()
            invariant
                i <= codes@.len(),
                codes@ == path@,
                forall|j: int| 0 <= j < codes@.len() ==> #[trigger] codes@[j] < 4,
                out@ == text_of(codes@.take(i as int)),
                "u"@ == seq!['u'],
                "d"@ == seq!['d'],
                "l"@ == seq!['l'],
                "r"@ == seq!['r'],
            decreases codes@.len() - i,
        {
            let code = codes[i];
            if code == 0 {
                out.append("u");
            } else if code == 1 {
                out.append("d");
            } else if code == 2 {
                out.append("l");
            } else {
                out.append("r");
            }
            proof {
                assert(codes@.take(i + 1) =~= codes@.take(i as int).push(code));
                lemma_text_push(codes@.take(i as int), code);
                assert(out@ =~= text_of(codes@.take(i as int)).push(move_char(code as int)));
            }
            i += 1;
        }
        assert(codes@.take(codes@.len() as int) =~= codes@);
        out
    }

    /// The successor of `current` in direction `dir`, if the search takes
    /// that move.
    pub fn successor(&self, current: &State, dir: u8) -> (next: Option<Step>)
        requires
            self.wf(),
            dir < 4,
            self.sound(current.position()),
            current.hash == self.zobrist(current.player, current.boxes@),
        ensures
            match self.searched(current.position(), dir as int) {
                Some(pos) => next is Some && next->0.player == pos.player && next->0.boxes@
                    == pos.boxes && next->0.hash == self.zobrist(pos.player, pos.boxes),
                None => next is None,
            },
    {
        let new_player = match self.neighbor(current.player, dir) {
            Some(p) => p,
            None => {
                return None;
            },
        };
        if self.is_wall(new_player) {
            return None;
        }
        let boxes = current.boxes.as_slice();
        let box_idx = find_point(boxes, new_player);
        let mut new_boxes = current.boxes.duplicate();
        let mut old_box: Option<Point> = None;
        let mut pushed_box: Option<Point> = None;
        proof {
            lemma_position(boxes@, new_player);
            if self.moved(current.position(), dir as int) is Some {
                lemma_moved_sound(self, current.position(), dir as int);
            }
        }
        if let Some(idx) = box_idx {
            let push_pos = match self.neighbor(new_player, dir) {
                Some(p) => p,
                None => {
                    return None;
                },
            };
            if self.is_wall(push_pos) {
                return None;
            }
            if Self::has_box(boxes, push_pos) {
                return None;
            }
            if self.is_dead(push_pos) {
                return None;
            }
            old_box = Some(boxes[idx]);
            new_boxes.put(idx, push_pos);
            pushed_box = Some(push_pos);
            if self.is_room_deadlock(new_boxes.as_slice()) {
                return None;
            }
            proof {
                lemma_rehash_push(self, current.player, new_player, boxes@, idx as int, push_pos);
            }
        } else {
            proof {
                lemma_rehash_walk(self, current.player, new_player, boxes@);
            }
        }
        let new_hash = self.calculate_zobrist_hash_incremental(
            current.hash,
            current.player,
            new_player,
            old_box,
            pushed_box,
        );
        Some(Step { player: new_player, boxes: new_boxes, hash: new_hash })
    }
}


/// Where the search takes a string of moves it takes each of its beginnings.
pub proof fn lemma_search_prefix(s: &SokobanSolver, start: Position, moves: Seq<char>, i: int)
    requires
        s.search_replay(start, moves) is Some,
        0 <= i <= moves.len(),
    ensures
        s.search_replay(start, moves.take(i)) is Some,
    decreases moves.len(),
{
    if i == moves.len() {
        assert(moves.take(i) =~= moves);
    } else {
        assert(moves.take(i) =~= moves.drop_last().take(i));
        lemma_search_prefix(s, start, moves.drop_last(), i);
    }
}

/// Positions of one layout have one hash.
pub proof fn lemma_layout_hash(s: &SokobanSolver, a: Position, b: Position)
    requires
        same_layout(a, b),
        a.boxes.no_duplicates(),
        b.boxes.no_duplicates(),
    ensures
        s.hash_of(a) == s.hash_of(b),
{
    lemma_boxes_key_by_cells(s, a.boxes, b.boxes);
}

/// A trail stays good when more hashes are seen.
proof fn lemma_trail_grows(
    s: &SokobanSolver,
    start: Position,
    moves: Seq<char>,
    seen: Set<u64>,
    more: Set<u64>,
)
    requires
        s.trail_ok(start, moves, seen),
        seen.subset_of(more),
    ensures
        s.trail_ok(start, moves, more),
{
    assert forall|i: int| 0 <= i < moves.len() implies more.contains(
        #[trigger] s.hash_at(start, moves, i),
    ) by {
        assert(seen.contains(s.hash_at(start, moves, i)));
    }
}

/// A good trail whose end is seen stays good with one more move, if that
/// move leads to a hash that is not seen.
proof fn lemma_trail_step(
    s: &SokobanSolver,
    start: Position,
    moves: Seq<char>,
    c: char,
    seen: Set<u64>,
)
    requires
        s.trail_ok(start, moves, seen),
        seen.contains(s.hash_of(s.search_replay(start, moves)->0)),
        !seen.contains(s.hash_of(s.search_replay(start, moves.push(c))->0)),
    ensures
        s.trail_ok(start, moves.push(c), seen),
{
    let longer = moves.push(c);
    let n = moves.len() as int;
    assert(moves.take(n) =~= moves);
    assert(longer.take(n + 1) =~= longer);
    assert forall|i: int| 0 <= i <= n implies s.hash_at(start, longer, i) == s.hash_at(
        start,
        moves,
        i,
    ) by {
        assert(longer.take(i) =~= moves.take(i));
    }
    assert forall|i: int| 0 <= i < longer.len() implies seen.contains(
        #[trigger] s.hash_at(start, longer, i),
    ) by {
        if i < n {
            assert(seen.contains(s.hash_at(start, moves, i)));
        }
    }
    assert forall|i: int, j: int| 0 <= i < j <= longer.len() implies #[trigger] s.hash_at(
        start,
        longer,
        i,
    ) != #[trigger] s.hash_at(start, longer, j) by {
        if j <= n {
            assert(s.hash_at(start, moves, i) != s.hash_at(start, moves, j));
        } else {
            assert(seen.contains(s.hash_at(start, longer, i)));
        }
    }
}

/// Moves that the search takes and that pass no hash twice come by no
/// layout twice.
pub proof fn lemma_never_back(s: &SokobanSolver, start: Position, moves: Seq<char>, seen: Set<u64>)
    requires
        s.sound(start),
        s.search_replay(start, moves) is Some,
        s.trail_ok(start, moves, seen),
    ensures
        s.never_back(start, moves),
{
    assert forall|i: int, j: int| 0 <= i < j <= moves.len() implies !same_layout(
        (#[trigger] s.replay(start, moves.take(i)))->0,
        (#[trigger] s.replay(start, moves.take(j)))->0,
    ) by {
        lemma_search_prefix(s, start, moves, i);
        lemma_search_prefix(s, start, moves, j);
        lemma_search_replay_sound(s, start, moves.take(i));
        lemma_search_replay_sound(s, start, moves.take(j));
        let a = s.replay(start, moves.take(i))->0;
        let b = s.replay(start, moves.take(j))->0;
        assert(s.hash_at(start, moves, i) != s.hash_at(start, moves, j));
        if same_layout(a, b) {
            lemma_layout_hash(s, a, b);
        }
    }
}

/// An expanded position stays expanded when a state is taken from the heap
/// whose hash is seen afterwards.
proof fn lemma_expanded_after_pop(
    s: &SokobanSolver,
    start: Position,
    text: Seq<char>,
    seen: Set<u64>,
    more: Set<u64>,
    before: Seq<State>,
    after: Seq<State>,
    taken: State,
)
    requires
        s.expanded(start, text, seen, before, 4),
        before.to_multiset() == after.to_multiset().insert(taken),
        seen.subset_of(more),
        more.contains(s.hash_of(taken.position())),
    ensures
        s.expanded(start, text, more, after, 4),
{
    let pos = s.search_replay(start, text)->0;
    assert forall|dir: int| 0 <= dir < 4 implies match #[trigger] s.searched(pos, dir) {
        Some(next) => s.covered(more, after, next),
        None => true,
    } by {
        if s.searched(pos, dir) is Some {
            let next = s.searched(pos, dir)->0;
            assert(s.covered(seen, before, next));
            if pending(before, next) {
                lemma_pending_after_pop(before, after, taken, next);
            }
        }
    }
}

/// A covered position stays covered when a state is taken from the heap
/// whose hash is seen afterwards.
proof fn lemma_covered_after_pop(
    s: &SokobanSolver,
    pos: Position,
    seen: Set<u64>,
    more: Set<u64>,
    before: Seq<State>,
    after: Seq<State>,
    taken: State,
)
    requires
        s.covered(seen, before, pos),
        before.to_multiset() == after.to_multiset().insert(taken),
        seen.subset_of(more),
        more.contains(s.hash_of(taken.position())),
    ensures
        s.covered(more, after, pos),
{
    if pending(before, pos) {
        lemma_pending_after_pop(before, after, taken, pos);
    }
}

/// What the search plays is legal play, and keeps positions sound.
pub proof fn lemma_search_replay_sound(s: &SokobanSolver, start: Position, moves: Seq<char>)
    requires
        s.sound(start),
        s.search_replay(start, moves) is Some,
    ensures
        s.replay(start, moves) == s.search_replay(start, moves),
        s.sound(s.search_replay(start, moves)->0),
        s.search_replay(start, moves)->0.boxes.len() == start.boxes.len(),
    decreases moves.len(),
{
    if moves.len() > 0 {
        lemma_search_replay_sound(s, start, moves.drop_last());
        let before = s.search_replay(start, moves.drop_last())->0;
        lemma_moved_sound(s, before, direction_of(moves.last()));
    }
}

/// Boxes on distinct cells that are all goals are at most as many as the goals.
pub proof fn lemma_solved_fit(s: &SokobanSolver, boxes: Seq<Point>)
    requires
        s.grid_wf(),
        boxes.no_duplicates(),
        s.solved(boxes),
    ensures
        boxes.len() <= s.goals@.len(),
{
    boxes.unique_seq_to_set();
    s.goals@.unique_seq_to_set();
    vstd::seq_lib::seq_to_set_is_finite(s.goals@);
    assert(boxes.to_set().subset_of(s.goals@.to_set())) by {
        assert forall|p: Point| boxes.to_set().contains(p) implies s.goals@.to_set().contains(
            p,
        ) by {
            let k = choose|k: int| 0 <= k < boxes.len() && boxes[k] == p;
            assert(s.goal_at(boxes[k]));
        }
    }
    lemma_len_subset(boxes.to_set(), s.goals@.to_set());
}

/// A state that stays in the heap when another is taken out was in it before.
proof fn lemma_after_pop(before: Seq<State>, after: Seq<State>, taken: State, k: int)
    requires
        before.to_multiset() == after.to_multiset().insert(taken),
        0 <= k < after.len(),
    ensures
        before.contains(after[k]),
{
    broadcast use vstd::multiset::group_multiset_axioms;

    before.to_multiset_ensures();
    after.to_multiset_ensures();
    let state = after[k];
    assert(after.contains(state));
    assert(after.to_multiset().count(state) > 0);
    assert(after.to_multiset().insert(taken).count(state) > 0);
    assert(before.to_multiset().count(state) > 0);
}

/// A state in the heap after one was added is that one or was in it before.
proof fn lemma_after_push(before: Seq<State>, after: Seq<State>, added: State, k: int)
    requires
        after.to_multiset() == before.to_multiset().insert(added),
        0 <= k < after.len(),
    ensures
        after[k] == added || before.contains(after[k]),
{
    broadcast use vstd::multiset::group_multiset_axioms;

    before.to_multiset_ensures();
    after.to_multiset_ensures();
    let state = after[k];
    assert(after.contains(state));
    assert(after.to_multiset().count(state) > 0);
    assert(before.to_multiset().insert(added).count(state) > 0);
    if state != added {
        assert(before.to_multiset().count(state) > 0);
    }
}

/// A position that waited in the heap still waits after a state was taken
/// out, unless that state stood at it.
proof fn lemma_pending_after_pop(before: Seq<State>, after: Seq<State>, taken: State, pos: Position)
    requires
        before.to_multiset() == after.to_multiset().insert(taken),
        pending(before, pos),
    ensures
        pending(after, pos) || taken.position() == pos,
{
    broadcast use vstd::multiset::group_multiset_axioms;

    before.to_multiset_ensures();
    after.to_multiset_ensures();
    let k = choose|k: int| 0 <= k < before.len() && (#[trigger] before[k]).position() == pos;
    let state = before[k];
    assert(before.contains(state));
    assert(before.to_multiset().count(state) > 0);
    assert(after.to_multiset().insert(taken).count(state) > 0);
    if state != taken {
        assert(after.to_multiset().count(state) > 0);
        assert(after.contains(state));
        let j = choose|j: int| 0 <= j < after.len() && after[j] == state;
        assert(after[j].position() == pos);
    }
}

/// A position that waits in the heap still waits after a state was added,
/// and so does the position of that state.
proof fn lemma_pending_after_push(before: Seq<State>, after: Seq<State>, added: State, pos: Position)
    requires
        after.to_multiset() == before.to_multiset().insert(added),
        pending(before, pos) || added.position() == pos,
    ensures
        pending(after, pos),
{
    broadcast use vstd::multiset::group_multiset_axioms;

    before.to_multiset_ensures();
    after.to_multiset_ensures();
    if added.position() == pos {
        assert(before.to_multiset().insert(added).count(added) > 0);
        assert(after.to_multiset().count(added) > 0);
        assert(after.contains(added));
        let j = choose|j: int| 0 <= j < after.len() && after[j] == added;
        assert(after[j].position() == pos);
    } else {
        let k = choose|k: int| 0 <= k < before.len() && (#[trigger] before[k]).position() == pos;
        let state = before[k];
        assert(before.contains(state));
        assert(before.to_multiset().count(state) > 0);
        assert(before.to_multiset().insert(added).count(state) > 0);
        assert(after.to_multiset().count(state) > 0);
        assert(after.contains(state));
        let j = choose|j: int| 0 <= j < after.len() && after[j] == state;
        assert(after[j].position() == pos);
    }
}

/// Once the heap is empty, every position that the search can reach has the
/// layout of one that was expanded, if hashes tell positions apart.
pub proof fn lemma_reached_was_expanded(
    s: &SokobanSolver,
    start: Position,
    done: Seq<Seq<char>>,
    seen: Set<u64>,
    moves: Seq<char>,
) -> (i: int)
    requires
        s.sound(start),
        s.hashes_apart(start),
        s.accounted(start, done, seen),
        s.covered(seen, Seq::<State>::empty(), start),
        forall|i: int|
            0 <= i < done.len() ==> s.expanded(start, #[trigger] done[i], seen, Seq::<State>::empty(), 4),
        s.search_replay(start, moves) is Some,
    ensures
        0 <= i < done.len(),
        s.search_replay(start, done[i]) is Some,
        same_layout(s.search_replay(start, done[i])->0, s.search_replay(start, moves)->0),
    decreases moves.len(),
{
    let none = Seq::<State>::empty();
    if moves.len() == 0 {
        assert(seen.contains(s.hash_of(start)));
        let i = choose|i: int|
            0 <= i < done.len() && s.search_replay(start, #[trigger] done[i]) is Some && s.hash_of(
                s.search_replay(start, done[i])->0,
            ) == s.hash_of(start);
        assert(s.search_replay(start, moves) == Some(start));
        i
    } else {
        let j = lemma_reached_was_expanded(s, start, done, seen, moves.drop_last());
        let before = s.search_replay(start, moves.drop_last())->0;
        let twin = s.search_replay(start, done[j])->0;
        let dir = direction_of(moves.last());
        lemma_search_replay_sound(s, start, moves.drop_last());
        lemma_search_replay_sound(s, start, done[j]);
        s.lemma_searched_by_layout(before, twin, dir);
        let next = s.searched(twin, dir)->0;
        assert(s.expanded(start, done[j], seen, none, 4));
        assert(s.covered(seen, none, next));
        assert(seen.contains(s.hash_of(next)));
        let i = choose|i: int|
            0 <= i < done.len() && s.search_replay(start, #[trigger] done[i]) is Some && s.hash_of(
                s.search_replay(start, done[i])->0,
            ) == s.hash_of(next);
        let via = done[j].push(move_char(dir));
        assert(via.drop_last() =~= done[j]);
        assert(direction_of(via.last()) == dir);
        assert(s.search_replay(start, via) == Some(next));
        assert(same_layout(s.search_replay(start, done[i])->0, s.search_replay(start, via)->0));
        i
    }
}

/// Once the heap is empty and no state was solved, no moves that the search
/// takes solve the puzzle, if hashes tell positions apart.
pub proof fn lemma_exhausted(s: &SokobanSolver, start: Position, done: Seq<Seq<char>>, seen: Set<u64>)
    requires
        s.sound(start),
        s.hashes_apart(start),
        s.accounted(start, done, seen),
        s.covered(seen, Seq::<State>::empty(), start),
        forall|i: int|
            0 <= i < done.len() ==> s.expanded(start, #[trigger] done[i], seen, Seq::<State>::empty(), 4),
    ensures
        s.hopeless(start),
{
    assert forall|moves: Seq<char>| s.search_replay(start, moves) is Some implies !s.solved(
        (#[trigger] s.search_replay(start, moves))->0.boxes,
    ) by {
        let i = lemma_reached_was_expanded(s, start, done, seen, moves);
        let twin = s.search_replay(start, done[i])->0;
        let end = s.search_replay(start, moves)->0;
        assert(s.expanded(start, done[i], seen, Seq::<State>::empty(), 4));
        if s.solved(end.boxes) {
            s.lemma_solved_by_cells(end.boxes, twin.boxes);
        }
    }
}


impl SokobanSolver {
    /// Searches for moves that bring every box onto a goal, best state first.
    ///
    /// The answer is a move string over `u`, `d`, `l`, `r`. A string that is
    /// not empty is a solution: played from the start it is legal and ends with
    /// every box on a goal. It holds only moves that the search takes, and it
    /// comes by no layout twice.
    ///
    /// The empty string is given for a start that is solved already, and else
    /// when the open heap has run empty; then no moves that the search takes
    /// lead to a solved position, unless two positions with different layouts
    /// share a hash. With no box on a wall at the start, the puzzle then has no
    /// solution at all.
    ///
    /// Two cases always end with the empty string. One is a start with more
    /// boxes than goals; with fewer boxes than goals the puzzle counts as solved
    /// as soon as every box stands on a goal. The other is a start with a box on
    /// a dead square and the player on a cell that is no wall; a player that
    /// starts on a wall can still push such a box off its square.
    pub fn solve(&self, start_player: Point, start_boxes: BoxVec) -> (out: String)
        requires
            self.wf(),
            self.sound(Position { player: start_player, boxes: start_boxes@ }),
        ensures
            out@.len() > 0 ==> self.solves(Position { player: start_player, boxes: start_boxes@ }, out@),
            out@.len() > 0 ==> self.search_replay(
                Position { player: start_player, boxes: start_boxes@ },
                out@,
            ) is Some,
            self.never_back(Position { player: start_player, boxes: start_boxes@ }, out@),
            self.solved(start_boxes@) ==> out@.len() == 0,
            out@.len() == 0 ==> self.solved(start_boxes@) || !self.hashes_apart(
                Position { player: start_player, boxes: start_boxes@ },
            ) || self.hopeless(Position { player: start_player, boxes: start_boxes@ }),
            out@.len() == 0 && self.on_floor(start_boxes@) ==> self.solved(start_boxes@)
                || !self.hashes_apart(Position { player: start_player, boxes: start_boxes@ })
                || self.unsolvable(Position { player: start_player, boxes: start_boxes@ }),
            start_boxes@.len() > self.goals@.len() ==> out@.len() == 0,
            self.walkable(start_player) && (exists|i: int|
                0 <= i < start_boxes@.len() && self.dead(#[trigger] start_boxes@[i])) ==> out@.len()
                == 0,
    {
        let ghost start = Position { player: start_player, boxes: start_boxes@ };
        let start_hash = self.calculate_zobrist_hash(&start_player, start_boxes.as_slice());
        let start_heuristic = self.calculate_heuristic(start_boxes.as_slice());
        let start_state = State {
            boxes: start_boxes,
            player: start_player,
            path: MovePath::empty(),
            heuristic: start_heuristic,
            hash: start_hash,
        };
        let mut open_set = OpenHeap::with_capacity(10000);
        let mut visited = visited_with_capacity(200000);
        let ghost mut done: Seq<Seq<char>> = Seq::empty();
        proof {
            assert(text_of(start_state.path@) =~= Seq::<char>::empty());
            assert(self.node_ok(start, start_state));
            assert(self.trail_ok(start, text_of(start_state.path@), visited@));
        }
        let ghost empty_heap = open_set@;
        open_set.push(start_state);
        proof {
            assert forall|k: int| 0 <= k < open_set@.len() implies self.node_ok(
                start,
                #[trigger] open_set@[k],
            ) && open_set@[k].path@.len() == 0 && self.trail_ok(
                start,
                text_of(open_set@[k].path@),
                visited@,
            ) by {
                lemma_after_push(empty_heap, open_set@, start_state, k);
            }
            lemma_pending_after_push(empty_heap, open_set@, start_state, start);
        }
        while open_set.len() > 0
            invariant
                self.wf(),
                self.sound(start),
                start == (Position { player: start_player, boxes: start_boxes@ }),
                open_set.wf(),
                visited@.finite(),
                forall|k: int| 0 <= k < open_set@.len() ==> self.node_ok(start, #[trigger] open_set@[k]),
                forall|k: int|
                    0 <= k < open_set@.len() ==> self.trail_ok(
                        start,
                        text_of((#[trigger] open_set@[k]).path@),
                        visited@,
                    ),
                self.solved(start.boxes) ==> forall|k: int|
                    0 <= k < open_set@.len() ==> (#[trigger] open_set@[k]).path@.len() == 0,
                forall|i: int|
                    0 <= i < done.len() ==> self.expanded(start, #[trigger] done[i], visited@, open_set@, 4),
                self.accounted(start, done, visited@),
                self.covered(visited@, open_set@, start),
            decreases 5 * (hash_count() - visited@.len()) + open_set@.len(),
        {
            proof {
                lemma_hashes_bounded(visited@);
            }
            let ghost heap_before = open_set@;
            let ghost seen_before = visited@;
            let current = open_set.pop().unwrap();
            proof {
                heap_before.to_multiset_ensures();
                assert(heap_before.to_multiset().count(current) > 0) by {
                    broadcast use vstd::multiset::group_multiset_axioms;

                    assert(open_set@.to_multiset().insert(current).count(current) > 0);
                }
                assert(heap_before.contains(current));
                assert(self.node_ok(start, current));
                assert(self.trail_ok(start, text_of(current.path@), seen_before));
                assert forall|k: int| 0 <= k < open_set@.len() implies self.node_ok(
                    start,
                    #[trigger] open_set@[k],
                ) && (self.solved(start.boxes) ==> open_set@[k].path@.len() == 0) && self.trail_ok(
                    start,
                    text_of(open_set@[k].path@),
                    seen_before,
                ) by {
                    lemma_after_pop(heap_before, open_set@, current, k);
                }
                lemma_search_replay_sound(self, start, text_of(current.path@));
            }
            if self.is_solved_boxes(current.boxes.as_slice()) {
                let out = Self::path_string(&current.path);
                proof {
                    lemma_solved_fit(self, current.boxes@);
                    lemma_never_back(self, start, out@, seen_before);
                    if self.solved(start.boxes) {
                        assert(current.path@.len() == 0);
                        assert(out@.len() == 0);
                    }
                    if self.walkable(start_player) && (exists|i: int|
                        0 <= i < start.boxes.len() && self.dead(#[trigger] start.boxes[i])) {
                        let i = choose|i: int|
                            0 <= i < start.boxes.len() && self.dead(#[trigger] start.boxes[i]);
                        crate::moves::lemma_dead_box_stays(self, start, out@, i);
                    }
                }
                return out;
            }
            proof {
                if self.solved(start.boxes) {
                    assert(current.path@.len() == 0);
                    assert(text_of(current.path@) =~= Seq::<char>::empty());
                    assert(current.position() == start);
                }
            }
            if visited_insert(&mut visited, current.hash) {
                let ghost done_before = done;
                proof {
                    broadcast use vstd::set::group_set_axioms;

                    assert(visited@.len() == seen_before.len() + 1);
                    done = done.push(text_of(current.path@));
                    assert forall|i: int| 0 <= i < done.len() - 1 implies self.expanded(
                        start,
                        #[trigger] done[i],
                        visited@,
                        open_set@,
                        4,
                    ) by {
                        assert(done[i] == done_before[i]);
                        lemma_expanded_after_pop(
                            self,
                            start,
                            done[i],
                            seen_before,
                            visited@,
                            heap_before,
                            open_set@,
                            current,
                        );
                    }
                    assert forall|k: int| 0 <= k < open_set@.len() implies self.trail_ok(
                        start,
                        text_of((#[trigger] open_set@[k]).path@),
                        visited@,
                    ) by {
                        lemma_trail_grows(
                            self,
                            start,
                            text_of(open_set@[k].path@),
                            seen_before,
                            visited@,
                        );
                    }
                    lemma_trail_grows(self, start, text_of(current.path@), seen_before, visited@);
                    assert(self.expanded(start, done[done.len() - 1], visited@, open_set@, 0));
                    assert(self.accounted(start, done, visited@)) by {
                        assert forall|h: u64| #[trigger] visited@.contains(h) implies exists|i: int|
                            0 <= i < done.len() && self.search_replay(start, #[trigger] done[i])
                                is Some && self.hash_of(self.search_replay(start, done[i])->0)
                                == h by {
                            if seen_before.contains(h) {
                                let i = choose|i: int|
                                    0 <= i < done_before.len() && self.search_replay(
                                        start,
                                        #[trigger] done_before[i],
                                    ) is Some && self.hash_of(
                                        self.search_replay(start, done_before[i])->0,
                                    ) == h;
                                assert(done[i] == done_before[i]);
                            } else {
                                assert(self.hash_of(
                                    self.search_replay(start, done[done.len() - 1])->0,
                                ) == h);
                            }
                        }
                    }
                    lemma_covered_after_pop(
                        self,
                        start,
                        seen_before,
                        visited@,
                        heap_before,
                        open_set@,
                        current,
                    );
                }
                let ghost heap_popped = open_set@;
                let mut dir: u8 = 0;
                while dir < 4
                    invariant
                        dir <= 4,
                        self.wf(),
                        self.sound(start),
                        open_set.wf(),
                        visited@.finite(),
                        done.len() > 0,
                        done.last() == text_of(current.path@),
                        self.node_ok(start, current),
                        self.trail_ok(start, text_of(current.path@), visited@),
                        visited@.contains(current.hash),
                        !self.solved(start.boxes),
                        visited@.len() == seen_before.len() + 1,
                        heap_popped.len() == heap_before.len() - 1,
                        open_set@.len() <= heap_popped.len() + dir,
                        forall|k: int|
                            0 <= k < open_set@.len() ==> self.node_ok(start, #[trigger] open_set@[k]),
                        forall|k: int|
                            0 <= k < open_set@.len() ==> self.trail_ok(
                                start,
                                text_of((#[trigger] open_set@[k]).path@),
                                visited@,
                            ),
                        forall|i: int|
                            0 <= i < done.len() - 1 ==> self.expanded(
                                start,
                                #[trigger] done[i],
                                visited@,
                                open_set@,
                                4,
                            ),
                        self.expanded(start, done[done.len() - 1], visited@, open_set@, dir as int),
                        self.accounted(start, done, visited@),
                        self.covered(visited@, open_set@, start),
                    decreases 4 - dir,
                {
                    let ghost heap_now = open_set@;
                    let ghost added: Option<State> = None;
                    match self.successor(&current, dir) {
                        Some(step) => {
                            if !visited_contains(&visited, step.hash) {
                                proof {
                                    crate::moves::lemma_successor_invariants(
                                        self,
                                        current.position(),
                                        dir as int,
                                    );
                                    lemma_moved_sound(self, current.position(), dir as int);
                                }
                                let new_heuristic = self.calculate_heuristic(step.boxes.as_slice());
                                let mut new_path = current.path.duplicate();
                                new_path.append(dir);
                                let next_state = State {
                                    boxes: step.boxes,
                                    player: step.player,
                                    path: new_path,
                                    heuristic: new_heuristic,
                                    hash: step.hash,
                                };
                                proof {
                                    lemma_text_push(current.path@, dir);
                                    assert(self.node_ok(start, next_state));
                                    lemma_trail_step(
                                        self,
                                        start,
                                        text_of(current.path@),
                                        move_char(dir as int),
                                        visited@,
                                    );
                                    added = Some(next_state);
                                }
                                open_set.push(next_state);
                            }
                        },
                        None => {},
                    }
                    proof {
                        assert forall|k: int| 0 <= k < open_set@.len() implies self.node_ok(
                            start,
                            #[trigger] open_set@[k],
                        ) && self.trail_ok(start, text_of(open_set@[k].path@), visited@) by {
                            if added is Some {
                                lemma_after_push(heap_now, open_set@, added->0, k);
                            }
                        }
                        assert forall|pos: Position| pending(heap_now, pos) implies pending(
                            open_set@,
                            pos,
                        ) by {
                            if added is Some {
                                lemma_pending_after_push(heap_now, open_set@, added->0, pos);
                            }
                        }
                        assert forall|i: int| 0 <= i < done.len() - 1 implies self.expanded(
                            start,
                            #[trigger] done[i],
                            visited@,
                            open_set@,
                            4,
                        ) by {
                            assert(self.expanded(start, done[i], visited@, heap_now, 4));
                            let pos = self.search_replay(start, done[i])->0;
                            assert forall|d: int| 0 <= d < 4 implies match #[trigger] self.searched(
                                pos,
                                d,
                            ) {
                                Some(next) => self.covered(visited@, open_set@, next),
                                None => true,
                            } by {
                                if self.searched(pos, d) is Some {
                                    assert(self.covered(visited@, heap_now, self.searched(pos, d)->0));
                                }
                            }
                        }
                        let here = current.position();
                        assert(self.search_replay(start, done[done.len() - 1]) == Some(here));
                        assert forall|d: int| 0 <= d < dir + 1 implies match #[trigger] self.searched(
                            here,
                            d,
                        ) {
                            Some(next) => self.covered(visited@, open_set@, next),
                            None => true,
                        } by {
                            if self.searched(here, d) is Some {
                                let next = self.searched(here, d)->0;
                                if d < dir {
                                    assert(self.covered(visited@, heap_now, next));
                                } else if added is Some {
                                    lemma_pending_after_push(heap_now, open_set@, added->0, next);
                                }
                            }
                        }
                    }
                    dir += 1;
                }
                proof {
                    lemma_hashes_bounded(visited@);
                }
            } else {
                proof {
                    assert(visited@ =~= seen_before);
                    assert forall|i: int| 0 <= i < done.len() implies self.expanded(
                        start,
                        #[trigger] done[i],
                        visited@,
                        open_set@,
                        4,
                    ) by {
                        lemma_expanded_after_pop(
                            self,
                            start,
                            done[i],
                            seen_before,
                            visited@,
                            heap_before,
                            open_set@,
                            current,
                        );
                    }
                    lemma_covered_after_pop(
                        self,
                        start,
                        seen_before,
                        visited@,
                        heap_before,
                        open_set@,
                        current,
                    );
                }
            }
        }
        proof {
            if !self.solved(start.boxes) && self.hashes_apart(start) {
                assert(open_set@ =~= Seq::<State>::empty());
                lemma_exhausted(self, start, done, visited@);
                if self.on_floor(start.boxes) {
                    self.lemma_hopeless_is_unsolvable(start);
                }
            }
        }
        String::new()
    }
}

} // verus!
