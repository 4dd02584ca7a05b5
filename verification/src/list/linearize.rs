//! Reordering the arena into list order.

use vstd::prelude::*;
use super::{inverse, List, Node, END};

verus! {

/// Sorts the arena by the next link of each node.
///
/// This calls `sort_unstable_by_key` of the standard library's slices. The
/// contract claims what its documentation promises: the slice is rearranged
/// in place, keeping every element, into ascending order of the key. The
/// order of nodes with equal keys is left open.
#[verifier::external_body]
fn sort_by_next<T>(nodes: &mut Vec<Node<T>>)
    ensures
        final(nodes)@.to_multiset() == old(nodes)@.to_multiset(),
        forall|i: int, j: int|
            0 <= i <= j < final(nodes)@.len() ==> final(nodes)@[i].link@[1] <= final(nodes)@[j].link@[1],
{
    nodes.sort_unstable_by_key(Node::next);
}

/// A strictly increasing sequence of `n` numbers below `n` counts `0, 1, ..`.
proof fn lemma_increasing_counts(s: Seq<int>, k: int)
    requires
        forall|i: int| 0 <= i < s.len() ==> 0 <= #[trigger] s[i] < s.len(),
        forall|i: int, j: int| 0 <= i < j < s.len() ==> s[i] < s[j],
        0 <= k < s.len(),
    ensures
        s[k] == k,
{
    lemma_increasing_low(s, k);
    lemma_increasing_high(s, k);
}

/// In a strictly increasing sequence of natural numbers, none is below its
/// own index.
proof fn lemma_increasing_low(s: Seq<int>, k: int)
    requires
        forall|i: int| 0 <= i < s.len() ==> 0 <= #[trigger] s[i] < s.len(),
        forall|i: int, j: int| 0 <= i < j < s.len() ==> s[i] < s[j],
        0 <= k < s.len(),
    ensures
        s[k] >= k,
    decreases k,
{
    if k > 0 {
        lemma_increasing_low(s, k - 1);
    }
}

/// In a strictly increasing sequence of `n` numbers below `n`, none is above
/// its own index.
proof fn lemma_increasing_high(s: Seq<int>, k: int)
    requires
        forall|i: int| 0 <= i < s.len() ==> 0 <= #[trigger] s[i] < s.len(),
        forall|i: int, j: int| 0 <= i < j < s.len() ==> s[i] < s[j],
        0 <= k < s.len(),
    ensures
        s[k] <= k,
    decreases s.len() - k,
{
    if k < s.len() - 1 {
        lemma_increasing_high(s, k + 1);
    }
}

impl<T> List<T> {
    /// Sorting nodes that are labelled with their list position, counted
    /// from 1, puts the node of each position into the slot of that number.
    proof fn lemma_sorted_by_label(
        labeled: Seq<Node<T>>,
        sorted: Seq<Node<T>>,
        order: Seq<usize>,
        place: Seq<int>,
    )
        requires
            inverse(order, place),
            labeled.len() == order.len(),
            forall|i: int| 0 <= i < labeled.len() ==> (#[trigger] labeled[i]).link@[1] == place[i] + 1,
            sorted.to_multiset() == labeled.to_multiset(),
            forall|i: int, j: int|
                0 <= i <= j < sorted.len() ==> sorted[i].link@[1] <= sorted[j].link@[1],
        ensures
            sorted.len() == labeled.len(),
            forall|k: int| 0 <= k < sorted.len() ==> #[trigger] sorted[k] == labeled[order[k] as int],
    {
        broadcast use vstd::seq_lib::group_to_multiset_ensures;

        let n = labeled.len() as int;
        assert(sorted.len() == n) by {
            vstd::seq_lib::to_multiset_len(sorted);
            vstd::seq_lib::to_multiset_len(labeled);
        }
        assert(labeled.no_duplicates()) by {
            assert forall|i: int, j: int| 0 <= i < n && 0 <= j < n && i != j implies labeled[i]
                != labeled[j] by {
                assert(order[place[i]] == i && order[place[j]] == j);
            }
        }
        labeled.lemma_multiset_has_no_duplicates();
        sorted.lemma_multiset_has_no_duplicates_conv();
        // The slot that each sorted node came from.
        let src = |k: int| choose|j: int| 0 <= j < n && labeled[j] == sorted[k];
        assert forall|k: int| 0 <= k < n implies 0 <= #[trigger] src(k) < n && labeled[src(k)]
            == sorted[k] by {
            assert(sorted.to_multiset().count(sorted[k]) > 0);
            assert(labeled.contains(sorted[k]));
        }
        let ranks = Seq::new(n as nat, |k: int| place[src(k)]);
        assert forall|i: int, j: int| 0 <= i < j < n implies ranks[i] < ranks[j] by {
            assert(sorted[i] != sorted[j]);
            assert(src(i) != src(j));
            assert(order[place[src(i)]] == src(i) && order[place[src(j)]] == src(j));
            assert(sorted[i].link@[1] <= sorted[j].link@[1]);
        }
        assert forall|k: int| 0 <= k < n implies #[trigger] sorted[k] == labeled[order[k] as int] by {
            assert(0 <= ranks[k] < n);
            lemma_increasing_counts(ranks, k);
            assert(order[place[src(k)]] == src(k));
        }
    }
    /// Reorders the arena into list order: afterwards the element at
    /// position `k` lies in slot `k`, so the head is slot 0 and the tail the
    /// last slot. The contents of the list do not change.
    pub fn linearize(&mut self)
        requires
            old(self).wf(),
        ensures
            final(self).wf(),
            final(self)@ == old(self)@,
            final(self).is_linear(),
    {
        let n = self.nodes.len();
        if n == 0 {
            assert(self.order@ =~= Seq::<usize>::empty());
            return ;
        }
        let ghost order = self.order@;
        let ghost place = self.place@;
        let ghost start = self.nodes@;

        // First label every node with its position, counted from 1, in its
        // next link.
        let mut head = self.head();
        let mut index: usize = 0;
        while head < self.nodes.len()
            invariant
                inverse(order, place),
                Self::chained(start, order, place),
                start.len() == n,
                order.len() == n,
                self.nodes@.len() == n,
                index <= n,
                head == if index == n { END } else { order[index as int] },
                forall|i: int|
                    0 <= i < n ==> (#[trigger] self.nodes@[i]).value == start[i].value
                        && self.nodes@[i].link@[0] == start[i].link@[0] && self.nodes@[i].link@[1]
                        == if place[i] < index {
                        (place[i] + 1) as usize
                    } else {
                        start[i].link@[1]
                    },
            decreases n - index,
        {
            assert(index < n);
            assert(place[head as int] == index);
            assert(self.nodes@[head as int].link@[1] == start[head as int].link@[1]);
            index += 1;
            let next = self.nodes[head].next();
            self.nodes[head].set_next(index);
            head = next;
        }
        assert(index == n) by {
            if index < n {
                assert(order[index as int] < n);
            }
        }
        let ghost labeled = self.nodes@;

        // Sort by label.
        sort_by_next(&mut self.nodes);
        proof {
            Self::lemma_sorted_by_label(labeled, self.nodes@, order, place);
        }
        let ghost sorted = self.nodes@;

        // The next links are in place but for the last; rewrite the previous
        // links.
        let mut i: usize = 1;
        while i < n
            invariant
                1 <= i <= n,
                self.nodes@.len() == n,
                sorted.len() == n,
                forall|k: int|
                    0 <= k < n ==> (#[trigger] self.nodes@[k]).value == sorted[k].value
                        && self.nodes@[k].link@[1] == sorted[k].link@[1] && (1 <= k < i
                        ==> self.nodes@[k].link@[0] == k - 1),
            decreases n - i,
        {
            self.nodes[i].set_prev(i - 1);
            i += 1;
        }
        self.link[0] = 0;
        self.link[1] = n - 1;
        self.nodes[0].set_prev(END);
        self.nodes[n - 1].set_next(END);
        proof {
            self.order@ = Seq::new(n as nat, |k: int| k as usize);
            self.place@ = Seq::new(n as nat, |k: int| k);
            assert forall|k: int| 0 <= k < n implies (#[trigger] self.nodes@[k]).value
                == start[order[k] as int].value && (k < n - 1 ==> self.nodes@[k].link@[1] == k + 1) by {
                assert(sorted[k] == labeled[order[k] as int]);
                assert(place[order[k] as int] == k);
            }
            assert(self.wf());
            assert(self@ =~= old(self)@);
        }
    }
}

} // verus!
