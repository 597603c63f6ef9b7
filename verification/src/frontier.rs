//! The open set of the search: a binary heap of nodes, the next node to
//! leave at its root.

use vstd::prelude::*;
use vstd::multiset::Multiset;
use vstd::pervasive::VecAdditionalExecFns;
use crate::state::State;

verus! {

/// The nodes of `s` with those at `i` and `j` exchanged.
pub open spec fn swapped(s: Seq<State>, i: int, j: int) -> Seq<State> {
    s.update(i, s[j]).update(j, s[i])
}

/// Whether no node of `s` leaves before the node at the place above it in
/// the heap, the place above `i` being `(i - 1) / 2`.
pub open spec fn heap_ordered(s: Seq<State>) -> bool {
    forall|i: int| 0 < i < s.len() ==> !(#[trigger] s[i]).before(&s[(i - 1) / 2])
}

/// Exchanging two nodes changes nothing in what the sequence holds.
pub proof fn lemma_swapped_holds_same(s: Seq<State>, i: int, j: int)
    requires
        0 <= i < s.len(),
        0 <= j < s.len(),
    ensures
        swapped(s, i, j).to_multiset() == s.to_multiset(),
{
    let mid = s.update(i, s[j]);
    vstd::seq_lib::to_multiset_update(s, i, s[j]);
    vstd::seq_lib::to_multiset_update(mid, j, s[i]);
    vstd::seq_lib::to_multiset_contains(s, s[i]);
}

/// In a heap no node leaves before the root.
pub proof fn lemma_root_first(s: Seq<State>, i: int)
    requires
        heap_ordered(s),
        0 <= i < s.len(),
    ensures
        !s[i].before(&s[0]),
    decreases i,
{
    if i > 0 {
        lemma_root_first(s, (i - 1) / 2);
    }
}

/// Exchanges the nodes at `i` and `j`.
fn swap_at(nodes: &mut Vec<State>, i: usize, j: usize)
    requires
        i < j < old(nodes)@.len(),
    ensures
        final(nodes)@ == swapped(old(nodes)@, i as int, j as int),
{
    let all = nodes.as_mut_slice();
    let (low, high) = all.split_at_mut(j);
    core::mem::swap(&mut low[i], &mut high[0]);
}

/// The nodes that were found and not yet expanded, kept so that the one
/// with the smallest `f` comes out first.
pub struct Frontier {
    nodes: Vec<State>,
}

impl View for Frontier {
    type V = Multiset<State>;

    closed spec fn view(&self) -> Multiset<State> {
        self.nodes@.to_multiset()
    }
}

impl Frontier {
    /// The nodes stand in heap order.
    pub closed spec fn wf(&self) -> bool {
        heap_ordered(self.nodes@)
    }

    /// The number of nodes held.
    pub closed spec fn count(&self) -> nat {
        self.nodes@.len()
    }

    /// The count is the size of the multiset.
    pub proof fn lemma_count(&self)
        ensures
            self.count() == self@.len(),
    {
        vstd::seq_lib::to_multiset_len(self.nodes@);
    }

    /// An empty frontier.
    pub fn new() -> (r: Frontier)
        ensures
            r.wf(),
            r@ == Multiset::<State>::empty(),
            r.count() == 0,
    {
        let r = Frontier { nodes: Vec::new() };
        proof {
            vstd::seq_lib::to_multiset_len(r.nodes@);
        }
        r
    }

    /// The number of nodes held.
    pub fn len(&self) -> (n: usize)
        ensures
            n == self.count(),
            n == self@.len(),
    {
        proof {
            self.lemma_count();
        }
        self.nodes.len()
    }

    /// Adds a node.
    pub fn push(&mut self, state: State)
        requires
            old(self).wf(),
        ensures
            final(self).wf(),
            final(self)@ == old(self)@.insert(state),
            final(self).count() == old(self).count() + 1,
    {
        self.nodes.push(state);
        let ghost pushed = self.nodes@;
        proof {
            vstd::seq_lib::to_multiset_build(old(self).nodes@, state);
        }
        let len = self.nodes.len();
        let mut i: usize = len - 1;
        while i > 0
            invariant_except_break
                // every node but the one at `i` keeps to the order with the node above it,
                // and so do the nodes under `i` with the node above `i`
                forall|j: int|
                    0 < j < len && j != i ==> !(#[trigger] self.nodes@[j]).before(
                        &self.nodes@[(j - 1) / 2],
                    ),
                i > 0 ==> forall|c: int|
                    0 < c < len && (c - 1) / 2 == i ==> !(#[trigger] self.nodes@[c]).before(
                        &self.nodes@[(i - 1) / 2],
                    ),
            invariant
                i < len,
                len == self.nodes@.len(),
                self.nodes@.to_multiset() == pushed.to_multiset(),
            ensures
                heap_ordered(self.nodes@),
            decreases i,
        {
            let above = (i - 1) / 2;
            if !self.nodes[i].precedes(&self.nodes[above]) {
                break;
            }
            let ghost s = self.nodes@;
            swap_at(&mut self.nodes, above, i);
            proof {
                lemma_swapped_holds_same(s, above as int, i as int);
            }
            i = above;
        }
    }

    /// Takes out a node before which no other node of the frontier
    /// leaves, or returns `None` when the frontier is empty.
    pub fn pop(&mut self) -> (r: Option<State>)
        requires
            old(self).wf(),
        ensures
            final(self).wf(),
            match r {
                None => old(self)@.len() == 0 && final(self)@ == old(self)@,
                Some(s) => {
                    &&& old(self)@.count(s) > 0
                    &&& final(self)@ == old(self)@.remove(s)
                    &&& final(self).count() + 1 == old(self).count()
                    &&& forall|e: State| old(self)@.count(e) > 0 ==> !e.before(&s)
                },
            },
    {
        let ghost start = self.nodes@;
        proof {
            vstd::seq_lib::to_multiset_len(start);
        }
        let last = match self.nodes.pop() {
            Some(last) => last,
            None => {
                return None;
            },
        };
        let ghost rest = self.nodes@;
        proof {
            assert(start =~= rest.push(last));
            vstd::seq_lib::to_multiset_build(rest, last);
            vstd::seq_lib::to_multiset_contains(start, start[0]);
            assert forall|e: State| start.to_multiset().count(e) > 0 implies !e.before(
                &start[0],
            ) by {
                vstd::seq_lib::to_multiset_contains(start, e);
                let k = choose|k: int| 0 <= k < start.len() && start[k] == e;
                lemma_root_first(start, k);
            }
        }
        let len = self.nodes.len();
        if len == 0 {
            return Some(last);
        }
        let mut top = last;
        self.nodes.set_and_swap(0, &mut top);
        let ghost moved = self.nodes@;
        proof {
            vstd::seq_lib::to_multiset_update(rest, 0, last);
        }
        let mut i: usize = 0;
        while i < len / 2
            invariant_except_break
                // every node but those under `i` keeps to the order with the node above it,
                // and the nodes under `i` do so with the node above `i`
                forall|j: int|
                    0 < j < len && (j - 1) / 2 != i ==> !(#[trigger] self.nodes@[j]).before(
                        &self.nodes@[(j - 1) / 2],
                    ),
                i > 0 ==> forall|c: int|
                    0 < c < len && (c - 1) / 2 == i ==> !(#[trigger] self.nodes@[c]).before(
                        &self.nodes@[(i - 1) / 2],
                    ),
            invariant
                i < len,
                len == self.nodes@.len(),
                self.nodes@.to_multiset() == moved.to_multiset(),
            ensures
                heap_ordered(self.nodes@),
            decreases len - i,
        {
            let left = 2 * i + 1;
            let right = left + 1;
            let child = if right < len && self.nodes[right].precedes(&self.nodes[left]) {
                right
            } else {
                left
            };
            if !self.nodes[child].precedes(&self.nodes[i]) {
                break;
            }
            let ghost s = self.nodes@;
            swap_at(&mut self.nodes, i, child);
            proof {
                lemma_swapped_holds_same(s, i as int, child as int);
            }
            i = child;
        }
        Some(top)
    }
}

} // verus!
