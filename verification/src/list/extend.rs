//! Building a list from a sequence, and appending one.

use vstd::prelude::*;
use vstd::std_specs::iter::IteratorSpec;
use super::{inverse, neighbour, List, Node, END};

verus! {

/// The least number of items that `iter` says it still has.
///
/// This calls `Iterator::size_hint` and picks the lower bound. Nothing is
/// claimed of the number: it serves only to reserve room.
#[verifier::external_body]
fn lower_bound<I: Iterator>(iter: &I) -> usize {
    iter.size_hint().0
}

impl<T> List<T> {
    /// Appends the items of `iter` at the tail, in the order in which it
    /// gives them. The new nodes are linked to each other as they are written,
    /// and the old tail is linked to the first of them at the end.
    pub fn extend<I: Iterator<Item = T>>(&mut self, iter: I)
        requires
            old(self).wf(),
            iter.obeys_prophetic_iter_laws(),
            iter.decrease() is Some,
        ensures
            final(self).wf(),
            final(self)@ == old(self)@ + iter.remaining(),
            forall|k: int| 0 <= k < old(self)@.len() ==> final(self).slot(k) == old(self).slot(k),
            forall|k: int| old(self)@.len() <= k < final(self)@.len() ==> final(self).slot(k) == k,
    {
        let mut iter = iter;
        let ghost items = iter.remaining();
        // Room for what the sequence announces, where it can be had; the
        // pushes below make room themselves where it cannot.
        let low = lower_bound(&iter);
        let _ = self.nodes.try_reserve(low);
        let tail = self.tail();
        let index = self.nodes.len();
        let ghost start = self.nodes@;
        let ghost order = self.order@;
        let ghost place = self.place@;

        // Each new node links back to the one written before it, the first
        // to the old tail, and forward to the slot after its own.
        let mut prev = tail;
        loop
            invariant
                iter.obeys_prophetic_iter_laws(),
                iter.decrease() is Some,
                index <= self.nodes@.len(),
                items == Seq::new(
                    (self.nodes@.len() - index) as nat,
                    |j: int| self.nodes@[index + j].value,
                ) + iter.remaining(),
                start.len() == index,
                forall|i: int| 0 <= i < index ==> self.nodes@[i] == start[i],
                forall|i: int|
                    index <= i < self.nodes@.len() ==> (#[trigger] self.nodes@[i]).link@[0] == (if i
                        == index {
                        tail
                    } else {
                        (i - 1) as usize
                    }) && self.nodes@[i].link@[1] == i + 1,
                prev == if self.nodes@.len() == index {
                    tail as int
                } else {
                    self.nodes@.len() - 1
                },
                self.link == old(self).link,
                self.order@ == order,
                self.place@ == place,
            ensures
                iter.remaining().len() == 0,
            decreases iter.decrease()->0,
        {
            let ghost before = self.nodes@;
            let ghost rest = iter.remaining();
            match iter.next() {
                None => {
                    break ;
                },
                Some(elt) => {
                    let at = self.nodes.len();
                    self.nodes.push(Node::new(elt, prev, END));
                    let next = self.nodes.len();
                    self.nodes[at].set_next(next);
                    prev = at;
                    assert(Seq::new(
                        (self.nodes@.len() - index) as nat,
                        |j: int| self.nodes@[index + j].value,
                    ) =~= Seq::new((before.len() - index) as nat, |j: int| before[index + j].value).push(
                        elt,
                    ));
                    assert(Seq::new((before.len() - index) as nat, |j: int| before[index + j].value).push(
                        elt,
                    ) + rest.drop_first() =~= Seq::new(
                        (before.len() - index) as nat,
                        |j: int| before[index + j].value,
                    ) + rest);
                },
            }
        }

        if self.nodes.len() == index {
            // Nothing came.
            assert(items =~= Seq::<T>::empty());
            assert(self.nodes@ =~= start);
            assert(self@ + items =~= self@);
            return ;
        }
        let end = self.link[1];
        if end < self.nodes.len() {
            self.nodes[end].set_next(index);
        } else {
            // The list was empty.
            self.link[0] = index;
        }
        self.link[1] = self.nodes.len() - 1;
        let last = self.link[1];
        self.nodes[last].set_next(END);
        proof {
            let n = self.nodes@.len();
            self.order@ = Seq::new(
                n,
                |k: int|
                    if k < index {
                        order[k]
                    } else {
                        k as usize
                    },
            );
            self.place@ = Seq::new(
                n,
                |i: int|
                    if i < index {
                        place[i]
                    } else {
                        i
                    },
            );
            assert(index == order.len() && index <= usize::MAX);
            assert(inverse(self.order@, self.place@));
            if index > 0 {
                assert(order[index - 1] == end);
                assert(place[end as int] == index - 1);
            }
            assert forall|i: int| 0 <= i < n implies (#[trigger] self.nodes@[i]).link@[0]
                == neighbour(self.order@, self.place@[i], 0) && self.nodes@[i].link@[1]
                == neighbour(self.order@, self.place@[i], 1) by {
                if i < index {
                    assert(self.nodes@[i].link@[0] == start[i].link@[0]);
                    assert(order[place[i]] == i);
                    if i != end {
                        assert(self.nodes@[i].link@[1] == start[i].link@[1]);
                    }
                }
            }
            assert(self.wf());
            assert(self@ =~= old(self)@ + items);
        }
    }

    /// Builds a list of the items of `iter`, in the order in which it gives
    /// them.
    pub fn from_iter<I: Iterator<Item = T>>(iter: I) -> (list: Self)
        requires
            iter.obeys_prophetic_iter_laws(),
            iter.decrease() is Some,
        ensures
            list.wf(),
            list@ == iter.remaining(),
            list.is_linear(),
    {
        let mut result = List::new();
        result.extend(iter);
        assert(Seq::<T>::empty() + iter.remaining() =~= iter.remaining());
        result
    }
}

} // verus!
