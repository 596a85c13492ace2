//! Search states and the open heap that hands out the most promising one.

use vstd::prelude::*;
use vstd::seq_lib::{to_multiset_build, to_multiset_update};
use crate::lists::{BoxVec, MovePath};
use crate::moves::Position;
use crate::point::Point;

verus! {

/// A node of the search: a position, the moves that led to it, and its cached
/// heuristic and hash.
pub struct State {
    pub boxes: BoxVec,
    pub player: Point,
    pub path: MovePath,
    pub heuristic: u64,
    pub hash: u64,
}

impl State {
    /// Where the player and the boxes of this state stand.
    pub open spec fn position(&self) -> Position {
        Position { player: self.player, boxes: self.boxes@ }
    }

    /// Whether this state is to be expanded no later than `other`: it has the
    /// lower heuristic, or the same and a path that is no longer.
    pub open spec fn ranks_before(&self, other: &State) -> bool {
        self.heuristic < other.heuristic || (self.heuristic == other.heuristic && self.path@.len()
            <= other.path@.len())
    }

    /// Whether this state is to be expanded no later than `other`.
    pub fn precedes(&self, other: &State) -> (b: bool)
        ensures
            b == self.ranks_before(other),
    {
        self.heuristic < other.heuristic || (self.heuristic == other.heuristic
            && self.path.as_slice().len() <= other.path.as_slice().len())
    }
}

/// The place above `i` in the heap's tree.
pub open spec fn parent(i: int) -> int {
    (i - 1) / 2
}

/// `slice::swap`: the items at `a` and `b` change places, the others stay.
/// The call panics on an index beyond the length, so both are below it.
#[verifier::external_body]
fn swap_items(items: &mut Vec<State>, a: usize, b: usize)
    requires
        a < old(items)@.len(),
        b < old(items)@.len(),
    ensures
        final(items)@ == old(items)@.update(a as int, old(items)@[b as int]).update(
            b as int,
            old(items)@[a as int],
        ),
{
    items.swap(a, b)
}

/// Two items changing places leaves the same items.
proof fn lemma_swap_keeps_items(items: Seq<State>, a: int, b: int)
    requires
        0 <= a < items.len(),
        0 <= b < items.len(),
    ensures
        items.update(a, items[b]).update(b, items[a]).to_multiset() == items.to_multiset(),
{
    broadcast use vstd::multiset::group_multiset_axioms;

    let mid = items.update(a, items[b]);
    to_multiset_update(items, a, items[b]);
    to_multiset_update(mid, b, items[a]);
    items.to_multiset_ensures();
    assert(items.contains(items[a]));
    assert(items.contains(items[b]));
    assert(mid[b] == items[b]);
    let all = items.to_multiset();
    assert(all.insert(items[b]).remove(items[a]).insert(items[a]).remove(items[b]) =~= all);
}

/// The states waiting to be expanded, as a binary heap: every state ranks
/// before the two below it, so the first ranks before all.
pub struct OpenHeap {
    pub items: Vec<State>,
}

impl View for OpenHeap {
    type V = Seq<State>;

    open spec fn view(&self) -> Seq<State> {
        self.items@
    }
}

impl OpenHeap {
    /// Whether each item but the one at `skip` ranks no earlier than the item
    /// above it.
    pub open spec fn ordered_but(items: Seq<State>, skip: int) -> bool {
        forall|i: int|
            0 < i < items.len() && i != skip ==> (#[trigger] items[parent(i)]).ranks_before(&items[i])
    }

    /// Whether each item whose place above is not `skip` ranks no earlier than
    /// the item above it.
    pub open spec fn ordered_below(items: Seq<State>, skip: int) -> bool {
        forall|i: int|
            0 < i < items.len() && parent(i) != skip ==> (#[trigger] items[parent(i)]).ranks_before(
                &items[i],
            )
    }

    /// Whether the item above `i` ranks before the items below `i`.
    pub open spec fn bridged(items: Seq<State>, i: int) -> bool {
        i > 0 ==> forall|c: int|
            0 < c < items.len() && parent(c) == i ==> (#[trigger] items[parent(parent(c))]).ranks_before(
                &items[c],
            )
    }

    /// The heap order holds throughout.
    pub open spec fn wf(&self) -> bool {
        Self::ordered_but(self.items@, 0)
    }

    /// An empty heap with room for `capacity` states.
    pub fn with_capacity(capacity: usize) -> (heap: OpenHeap)
        ensures
            heap.wf(),
            heap@.len() == 0,
    {
        OpenHeap { items: Vec::with_capacity(capacity) }
    }

    /// The number of states waiting.
    pub fn len(&self) -> (n: usize)
        ensures
            n == self@.len(),
    {
        self.items.len()
    }

    /// Adds `state` to the heap.
    pub fn push(&mut self, state: State)
        requires
            old(self).wf(),
        ensures
            final(self).wf(),
            final(self)@.to_multiset() == old(self)@.to_multiset().insert(state),
            final(self)@.len() == old(self)@.len() + 1,
    {
        proof {
            to_multiset_build(self.items@, state);
        }
        self.items.push(state);
        let ghost pushed = self.items@;
        let mut i: usize = self.items.len() - 1;
        while i > 0
            invariant
                i < self.items@.len(),
                self.items@.len() == pushed.len(),
                self.items@.to_multiset() == pushed.to_multiset(),
                Self::ordered_but(self.items@, i as int),
                Self::bridged(self.items@, i as int),
            ensures
                Self::ordered_but(self.items@, 0),
                self.items@.len() == pushed.len(),
                self.items@.to_multiset() == pushed.to_multiset(),
            decreases i,
        {
            let p: usize = (i - 1) / 2;
            if self.items[p].precedes(&self.items[i]) {
                break;
            }
            let ghost before = self.items@;
            proof {
                lemma_swap_keeps_items(before, i as int, p as int);
            }
            swap_items(&mut self.items, i, p);
            assert forall|j: int| 0 < j < self.items@.len() && j != p implies (
            #[trigger] self.items@[parent(j)]).ranks_before(&self.items@[j]) by {
                if j == i {
                } else if parent(j) == i {
                    assert(before[parent(parent(j))].ranks_before(&before[j]));
                } else if parent(j) == p {
                    assert(before[parent(j)].ranks_before(&before[j]));
                } else {
                    assert(before[parent(j)].ranks_before(&before[j]));
                }
            }
            assert(Self::bridged(self.items@, p as int)) by {
                if p > 0 {
                    assert forall|c: int|
                        0 < c < self.items@.len() && parent(c) == p implies (
                    #[trigger] self.items@[parent(parent(c))]).ranks_before(&self.items@[c]) by {
                        assert(before[parent(p as int)].ranks_before(&before[p as int]));
                        if c != i {
                            assert(before[parent(c)].ranks_before(&before[c]));
                        }
                    }
                }
            }
            i = p;
        }
    }

    /// Takes out a state that ranks before all that stay, if there is any state.
    pub fn pop(&mut self) -> (first: Option<State>)
        requires
            old(self).wf(),
        ensures
            final(self).wf(),
            match first {
                Some(state) => {
                    &&& old(self)@.to_multiset() == final(self)@.to_multiset().insert(state)
                    &&& final(self)@.len() == old(self)@.len() - 1
                    &&& forall|i: int|
                        0 <= i < final(self)@.len() ==> state.ranks_before(&#[trigger] final(self)@[i])
                },
                None => old(self)@.len() == 0 && final(self)@.len() == 0,
            },
    {
        let n: usize = self.items.len();
        if n == 0 {
            return None;
        }
        let ghost full = self.items@;
        proof {
            lemma_swap_keeps_items(full, 0, n - 1);
            assert forall|i: int| 0 <= i < full.len() implies full[0].ranks_before(
                &#[trigger] full[i],
            ) by {
                lemma_first_ranks_first(full, i);
            }
        }
        swap_items(&mut self.items, 0, n - 1);
        let ghost swapped = self.items@;
        let first = self.items.pop().unwrap();
        let ghost rest = self.items@;
        proof {
            assert(swapped =~= rest.push(first));
            to_multiset_build(rest, first);
            assert forall|i: int| 0 <= i < rest.len() implies first.ranks_before(
                &#[trigger] rest[i],
            ) by {
                if i == 0 {
                    assert(rest[0] == full[n - 1]);
                } else {
                    assert(rest[i] == full[i]);
                }
            }
            assert forall|j: int| 0 < j < rest.len() && parent(j) != 0 implies (
            #[trigger] rest[parent(j)]).ranks_before(&rest[j]) by {
                assert(full[parent(j)].ranks_before(&full[j]));
            }
        }
        let len: usize = n - 1;
        let mut i: usize = 0;
        while i < len / 2
            invariant
                len == self.items@.len(),
                len == rest.len(),
                i <= len,
                len < usize::MAX,
                self.items@.to_multiset() == rest.to_multiset(),
                Self::ordered_below(self.items@, i as int),
                Self::bridged(self.items@, i as int),
            ensures
                len == self.items@.len(),
                self.items@.to_multiset() == rest.to_multiset(),
                Self::ordered_but(self.items@, 0),
            decreases len - i,
        {
            let left: usize = 2 * i + 1;
            let right: usize = left + 1;
            let child: usize = if right < len && !self.items[left].precedes(&self.items[right]) {
                right
            } else {
                left
            };
            if self.items[i].precedes(&self.items[child]) {
                assert forall|j: int| 0 < j < self.items@.len() implies (
                #[trigger] self.items@[parent(j)]).ranks_before(&self.items@[j]) by {
                    if parent(j) == i {
                        assert(j == left || j == right);
                    }
                }
                break;
            }
            let ghost before = self.items@;
            proof {
                lemma_swap_keeps_items(before, i as int, child as int);
            }
            swap_items(&mut self.items, i, child);
            assert forall|j: int|
                0 < j < self.items@.len() && parent(j) != child implies (
            #[trigger] self.items@[parent(j)]).ranks_before(&self.items@[j]) by {
                if parent(j) == i {
                    assert(j == left || j == right);
                } else if j == i {
                    assert(parent(child as int) == i);
                    assert(before[parent(parent(child as int))].ranks_before(&before[child as int]));
                } else {
                    assert(before[parent(j)].ranks_before(&before[j]));
                }
            }
            assert(Self::bridged(self.items@, child as int)) by {
                assert forall|c: int|
                    0 < c < self.items@.len() && parent(c) == child implies (
                #[trigger] self.items@[parent(parent(c))]).ranks_before(&self.items@[c]) by {
                    assert(before[parent(c)].ranks_before(&before[c]));
                }
            }
            i = child;
        }
        proof {
            if !(i < len / 2) {
                assert forall|j: int| 0 < j < self.items@.len() implies (
                #[trigger] self.items@[parent(j)]).ranks_before(&self.items@[j]) by {
                    if parent(j) == i {
                        assert(false);
                    }
                }
            }
            assert forall|k: int| 0 <= k < self.items@.len() implies first.ranks_before(
                &#[trigger] self.items@[k],
            ) by {
                let item = self.items@[k];
                self.items@.to_multiset_ensures();
                rest.to_multiset_ensures();
                assert(self.items@.contains(item));
                assert(rest.to_multiset().count(item) > 0);
                assert(rest.contains(item));
                let at = choose|at: int| 0 <= at < rest.len() && rest[at] == item;
                assert(first.ranks_before(&rest[at]));
            }
        }
        Some(first)
    }
}

/// In an ordered heap the first item ranks before every item.
proof fn lemma_first_ranks_first(items: Seq<State>, i: int)
    requires
        OpenHeap::ordered_but(items, 0),
        0 <= i < items.len(),
    ensures
        items[0].ranks_before(&items[i]),
    decreases i,
{
    if i > 0 {
        lemma_first_ranks_first(items, parent(i));
        assert(items[parent(i)].ranks_before(&items[i]));
    }
}

} // verus!
