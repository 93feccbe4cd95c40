//! A heap of message ids with the least id on top.

use vstd::multiset::Multiset;
use vstd::prelude::*;

verus! {

/// `id` is in `ids`, and nothing in `ids` is below it.
pub open spec fn is_least(ids: Multiset<u64>, id: u64) -> bool {
    &&& ids.contains(id)
    &&& forall|other: u64| #[trigger] ids.contains(other) ==> id <= other
}

/// A binary heap in a vector: the children of the item at `i` stand at `2 * i + 1` and
/// `2 * i + 2`, and no item is above one of its children.
#[derive(Debug)]
pub struct IdHeap {
    ids: Vec<u64>,
}

spec fn parent(i: int) -> int {
    (i - 1) / 2
}

spec fn ordered(s: Seq<u64>) -> bool {
    forall|j: int| 0 < j < s.len() ==> s[parent(j)] <= #[trigger] s[j]
}

/// Ordered, but for the item at `k` and its parent.
spec fn ordered_above(s: Seq<u64>, k: int) -> bool {
    &&& forall|j: int| 0 < j < s.len() && j != k ==> s[parent(j)] <= #[trigger] s[j]
    &&& forall|j: int|
        0 < j < s.len() && parent(j) == k && 0 < k ==> s[parent(k)] <= #[trigger] s[j]
}

/// Ordered, but for the item at `k` and its children.
spec fn ordered_below(s: Seq<u64>, k: int) -> bool {
    &&& forall|j: int| 0 < j < s.len() && parent(j) != k ==> s[parent(j)] <= #[trigger] s[j]
    &&& forall|j: int|
        0 < j < s.len() && parent(j) == k && 0 < k ==> s[parent(k)] <= #[trigger] s[j]
}

/// Writing one item exchanges the old item for the new one.
proof fn lemma_update_multiset(s: Seq<u64>, i: int, id: u64)
    requires
        0 <= i < s.len(),
    ensures
        s.update(i, id).to_multiset() == s.to_multiset().remove(s[i]).insert(id),
{
    broadcast use vstd::seq_lib::group_to_multiset_ensures;

    let t = s.update(i, id);
    assert(t.remove(i) =~= s.remove(i));
    assert(t[i] == id);
    assert(t.contains(id));
    assert(t.to_multiset().count(id) > 0);
    assert(t.to_multiset().remove(id) == s.to_multiset().remove(s[i]));
    assert(t.to_multiset() =~= t.to_multiset().remove(id).insert(id));
}

/// Exchanging two items keeps the multiset.
proof fn lemma_swap_multiset(s: Seq<u64>, i: int, j: int)
    requires
        0 <= i < s.len(),
        0 <= j < s.len(),
        i != j,
    ensures
        s.update(i, s[j]).update(j, s[i]).to_multiset() == s.to_multiset(),
{
    broadcast use vstd::seq_lib::group_to_multiset_ensures;

    lemma_update_multiset(s, i, s[j]);
    lemma_update_multiset(s.update(i, s[j]), j, s[i]);
    assert(s.contains(s[i]));
    assert(s.to_multiset().count(s[i]) > 0);
    assert(s.update(i, s[j]).update(j, s[i]).to_multiset() =~= s.to_multiset());
}

/// The item on top is below all others.
proof fn lemma_top_is_least(s: Seq<u64>, j: int)
    requires
        ordered(s),
        0 <= j < s.len(),
    ensures
        s[0] <= s[j],
    decreases j,
{
    if j > 0 {
        lemma_top_is_least(s, parent(j));
    }
}

impl View for IdHeap {
    type V = Multiset<u64>;

    closed spec fn view(&self) -> Multiset<u64> {
        self.ids@.to_multiset()
    }
}

impl IdHeap {
    /// No item is above one of its children.
    pub closed spec fn wf(&self) -> bool {
        ordered(self.ids@)
    }

    proof fn lemma_top(&self)
        requires
            self.wf(),
            self.ids@.len() > 0,
        ensures
            is_least(self@, self.ids@[0]),
    {
        broadcast use vstd::seq_lib::group_to_multiset_ensures;

        assert(self.ids@.contains(self.ids@[0]));
        assert forall|other: u64| #[trigger] self@.contains(other) implies self.ids@[0]
            <= other by {
            assert(self.ids@.contains(other));
            let j = choose|j: int| 0 <= j < self.ids@.len() && self.ids@[j] == other;
            lemma_top_is_least(self.ids@, j);
        }
    }

    /// A heap that holds nothing.
    pub fn new() -> (heap: IdHeap)
        ensures
            heap.wf(),
            heap@ == Multiset::<u64>::empty(),
    {
        let heap = IdHeap { ids: Vec::new() };
        proof {
            broadcast use vstd::seq_lib::group_to_multiset_ensures;

            assert(heap@.len() == 0);
            assert(heap@ =~= Multiset::<u64>::empty());
        }
        heap
    }

    /// The least id, if the heap holds any.
    pub fn peek(&self) -> (top: Option<u64>)
        requires
            self.wf(),
        ensures
            top is None <==> self@ == Multiset::<u64>::empty(),
            top matches Some(id) ==> is_least(self@, id),
    {
        broadcast use vstd::seq_lib::group_to_multiset_ensures;

        if self.ids.len() == 0 {
            assert(self@.len() == 0);
            assert(self@ =~= Multiset::<u64>::empty());
            None
        } else {
            proof {
                self.lemma_top();
                assert(self@.contains(self.ids@[0]));
            }
            Some(self.ids[0])
        }
    }

    /// Adds an id.
    pub fn push(&mut self, id: u64)
        requires
            old(self).wf(),
        ensures
            final(self).wf(),
            final(self)@ == old(self)@.insert(id),
    {
        broadcast use vstd::seq_lib::group_to_multiset_ensures;

        self.ids.push(id);
        let at: usize = self.ids.len() - 1;
        assert(ordered_above(self.ids@, at as int)) by {
            assert forall|j: int| 0 < j < self.ids@.len() && j != at implies self.ids@[parent(j)]
                <= #[trigger] self.ids@[j] by {
                assert(old(self).ids@[j] == self.ids@[j]);
                assert(old(self).ids@[parent(j)] == self.ids@[parent(j)]);
            }
        }
        self.sift_up(at);
    }

    /// Takes the least id out, if the heap holds any.
    pub fn pop(&mut self) -> (top: Option<u64>)
        requires
            old(self).wf(),
        ensures
            final(self).wf(),
            top is None <==> old(self)@ == Multiset::<u64>::empty(),
            top is None ==> final(self)@ == old(self)@,
            top matches Some(id) ==> is_least(old(self)@, id) && final(self)@ == old(self)@.remove(
                id,
            ),
    {
        broadcast use vstd::seq_lib::group_to_multiset_ensures;

        let top = self.peek();
        if top.is_none() {
            return None;
        }
        let ghost before = self.ids@;
        assert(before.len() > 0) by {
            if before.len() == 0 {
                assert(self@ =~= Multiset::<u64>::empty());
            }
        }
        let least = self.ids[0];
        proof {
            self.lemma_top();
        }
        let last = self.ids.pop().unwrap();
        let ghost rest = self.ids@;
        assert(rest =~= before.remove(before.len() - 1));
        assert(rest.to_multiset() == before.to_multiset().remove(last));
        if self.ids.len() > 0 {
            self.ids.set(0, last);
            proof {
                lemma_update_multiset(rest, 0, last);
                assert(before.contains(last));
                assert(before.to_multiset().count(last) > 0);
                assert(rest.contains(least)) by {
                    assert(rest[0] == least);
                }
                assert(rest.to_multiset().count(least) > 0);
                assert(self.ids@.to_multiset() =~= before.to_multiset().remove(least));
                assert(ordered_below(self.ids@, 0)) by {
                    assert forall|j: int|
                        0 < j < self.ids@.len() && parent(j) != 0 implies self.ids@[parent(j)]
                        <= #[trigger] self.ids@[j] by {
                        assert(before[j] == self.ids@[j]);
                        assert(before[parent(j)] == self.ids@[parent(j)]);
                    }
                }
            }
            self.sift_down();
        } else {
            assert(before.len() == 1);
            assert(last == least);
        }
        Some(least)
    }

    /// Moves the item at `start` up until its parent is not above it.
    fn sift_up(&mut self, start: usize)
        requires
            start < old(self).ids@.len(),
            ordered_above(old(self).ids@, start as int),
        ensures
            final(self).wf(),
            final(self)@ == old(self)@,
    {
        let mut at: usize = start;
        while at > 0
            invariant
                at < self.ids@.len(),
                ordered_above(self.ids@, at as int),
                self@ == old(self)@,
            ensures
                ordered(self.ids@),
                self@ == old(self)@,
            decreases at,
        {
            let up: usize = (at - 1) / 2;
            let child = self.ids[at];
            let above = self.ids[up];
            if above <= child {
                break;
            }
            let ghost before = self.ids@;
            self.ids.set(up, child);
            self.ids.set(at, above);
            proof {
                lemma_swap_multiset(before, up as int, at as int);
                assert(parent(at as int) == up);
                assert forall|j: int|
                    0 < j < self.ids@.len() && j != up implies self.ids@[parent(j)]
                    <= #[trigger] self.ids@[j] by {
                    assert(before[parent(j)] <= before[j] || j == at);
                }
                assert forall|j: int|
                    0 < j < self.ids@.len() && parent(j) == up
                        && 0 < up implies self.ids@[parent(up as int)]
                    <= #[trigger] self.ids@[j] by {
                    assert(before[parent(up as int)] <= before[up as int]);
                    assert(before[parent(j)] <= before[j] || j == at);
                }
            }
            at = up;
        }
    }

    /// Moves the item on top down until none of its children is below it.
    fn sift_down(&mut self)
        requires
            old(self).ids@.len() > 0,
            ordered_below(old(self).ids@, 0),
        ensures
            final(self).wf(),
            final(self)@ == old(self)@,
    {
        let len: usize = self.ids.len();
        let mut at: usize = 0;
        while at < len / 2
            invariant
                at < len,
                len == self.ids@.len(),
                ordered_below(self.ids@, at as int),
                self@ == old(self)@,
            ensures
                ordered(self.ids@),
                self@ == old(self)@,
            decreases len - at,
        {
            let mut child: usize = 2 * at + 1;
            if child + 1 < len && self.ids[child + 1] < self.ids[child] {
                child = child + 1;
            }
            assert(parent(child as int) == at);
            assert(forall|j: int| 0 < j < len && parent(j) == at ==> self.ids@[child as int]
                <= #[trigger] self.ids@[j]);
            let item = self.ids[at];
            let below = self.ids[child];
            if item <= below {
                break;
            }
            let ghost before = self.ids@;
            self.ids.set(at, below);
            self.ids.set(child, item);
            proof {
                lemma_swap_multiset(before, at as int, child as int);
                assert forall|j: int|
                    0 < j < self.ids@.len() && parent(j) != child implies self.ids@[parent(j)]
                    <= #[trigger] self.ids@[j] by {
                    if parent(j) == at {
                        assert(before[child as int] <= before[j]);
                    } else {
                        assert(before[parent(j)] <= before[j]);
                        if j == at {
                            assert(parent(child as int) == at);
                            assert(before[parent(at as int)] <= before[child as int]);
                        }
                    }
                }
                assert forall|j: int|
                    0 < j < self.ids@.len() && parent(j) == child
                        && 0 < child implies self.ids@[parent(child as int)]
                    <= #[trigger] self.ids@[j] by {
                    assert(before[parent(j)] <= before[j]);
                }
            }
            at = child;
        }
    }
}

} // verus!
