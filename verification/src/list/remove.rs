//! Removal at the two ends.
//!
//! The arena stays packed: the node that leaves is unlinked, the links that
//! point to the last slot are pointed at the freed slot, and the last slot is
//! moved into it.

use vstd::prelude::*;
use super::{inverse, neighbour, terminal, List, Node, Terminal, END};

verus! {

impl<T> List<T> {
    /// Between `before` and `after` only the links that pointed at slot
    /// `idx` from its two neighbours have changed: the next node's previous
    /// link is now `back` and the previous node's next link is now `fwd`.
    spec fn redirected(
        before: Seq<Node<T>>,
        after: Seq<Node<T>>,
        idx: int,
        back: usize,
        fwd: usize,
    ) -> bool {
        let prev = before[idx].link@[0];
        let next = before[idx].link@[1];
        &&& after.len() == before.len()
        &&& forall|i: int|
            0 <= i < before.len() ==> {
                &&& (#[trigger] after[i]).value == before[i].value
                &&& after[i].link@[0] == if i == next {
                    back
                } else {
                    before[i].link@[0]
                }
                &&& after[i].link@[1] == if i == prev {
                    fwd
                } else {
                    before[i].link@[1]
                }
            }
    }

    /// Writes `back` into the previous link of the node after `idx` and `fwd`
    /// into the next link of the node before it, where those nodes exist.
    fn redirect(&mut self, idx: usize, back: usize, fwd: usize)
        requires
            idx < old(self).nodes@.len(),
        ensures
            Self::redirected(old(self).nodes@, final(self).nodes@, idx as int, back, fwd),
            final(self).link == old(self).link,
            final(self).order == old(self).order,
            final(self).place == old(self).place,
    {
        let prev = self.nodes[idx].prev();
        let next = self.nodes[idx].next();
        if prev < self.nodes.len() {
            self.nodes[prev].set_next(fwd);
        }
        if next < self.nodes.len() {
            self.nodes[next].set_prev(back);
        }
    }

    /// Unlinks the node at `idx`: its neighbours now link to each other.
    fn prepare_remove(&mut self, idx: usize)
        requires
            idx < old(self).nodes@.len(),
        ensures
            Self::redirected(
                old(self).nodes@,
                final(self).nodes@,
                idx as int,
                old(self).nodes@[idx as int].link@[0],
                old(self).nodes@[idx as int].link@[1],
            ),
            final(self).link == old(self).link,
            final(self).order == old(self).order,
            final(self).place == old(self).place,
    {
        let prev = self.nodes[idx].prev();
        let next = self.nodes[idx].next();
        self.redirect(idx, prev, next)
    }

    /// Changes the links that point to the node at `idx` to point to
    /// `to_index` instead.
    fn prepare_move(&mut self, idx: usize, to_index: usize)
        requires
            idx < old(self).nodes@.len(),
        ensures
            Self::redirected(old(self).nodes@, final(self).nodes@, idx as int, to_index, to_index),
            final(self).link == old(self).link,
            final(self).order == old(self).order,
            final(self).place == old(self).place,
    {
        self.redirect(idx, to_index, to_index)
    }

    /// Updates the links that point to `moved_index` to point to `free_spot`
    /// instead, the head and the tail among them.
    fn prepare_swap(&mut self, free_spot: usize, moved_index: usize)
        requires
            moved_index < old(self).nodes@.len(),
        ensures
            free_spot == moved_index ==> final(self).nodes@ == old(self).nodes@ && final(self).link@
                == old(self).link@,
            free_spot != moved_index ==> Self::redirected(
                old(self).nodes@,
                final(self).nodes@,
                moved_index as int,
                free_spot,
                free_spot,
            ),
            free_spot != moved_index ==> forall|s: int|
                0 <= s < 2 ==> final(self).link@[s] == if old(self).link@[s] == moved_index {
                    free_spot
                } else {
                    old(self).link@[s]
                },
            final(self).order == old(self).order,
            final(self).place == old(self).place,
    {
        if free_spot == moved_index {
            return ;
        }
        self.prepare_move(moved_index, free_spot);
        if self.head() == moved_index {
            self.link[0] = free_spot;
        }
        if self.tail() == moved_index {
            self.link[1] = free_spot;
        }
    }

    /// The arena `nodes` holds a sound chain in all its slots but `hole`:
    /// the elements lie in the slots `order`, none of them in `hole`, and
    /// `place` is its inverse on the other slots.
    spec fn holed(nodes: Seq<Node<T>>, order: Seq<usize>, place: Seq<int>, hole: int) -> bool {
        &&& nodes.len() == order.len() + 1
        &&& nodes.len() == place.len()
        &&& 0 <= hole < nodes.len()
        &&& forall|k: int|
            0 <= k < order.len() ==> 0 <= #[trigger] order[k] < nodes.len() && order[k] != hole
                && place[order[k] as int] == k
        &&& forall|i: int|
            0 <= i < nodes.len() && i != hole ==> 0 <= #[trigger] place[i] < order.len()
                && order[place[i]] == i
        &&& forall|i: int|
            0 <= i < nodes.len() && i != hole ==> (#[trigger] nodes[i]).link@[0] == neighbour(
                order,
                place[i],
                0,
            ) && nodes[i].link@[1] == neighbour(order, place[i], 1)
    }

    /// The slots of the elements that stay when the element at the head
    /// (`t == 0`) or at the tail (`t == 1`) leaves.
    spec fn order_without(order: Seq<usize>, t: int) -> Seq<usize> {
        Seq::new((order.len() - 1) as nat, |k: int| order[k + 1 - t])
    }

    /// The positions of the elements that stay when the element at the head
    /// (`t == 0`) or at the tail (`t == 1`) leaves.
    spec fn place_without(place: Seq<int>, t: int) -> Seq<int> {
        Seq::new(place.len(), |i: int| place[i] - (1 - t))
    }

    /// `relocated`, on a slot as the links hold it.
    spec fn moved(slot: usize, last: int, hole: int) -> usize {
        if slot == last {
            hole as usize
        } else {
            slot
        }
    }

    /// The slots of the elements once the last slot has moved into `hole`.
    spec fn order_packed(order: Seq<usize>, hole: int) -> Seq<usize> {
        Seq::new(order.len(), |k: int| Self::moved(order[k], order.len() as int, hole))
    }

    /// The positions of the elements once the last slot has moved into `hole`.
    spec fn place_packed(place: Seq<int>, hole: int) -> Seq<int> {
        Seq::new(
            (place.len() - 1) as nat,
            |i: int|
                if i == hole {
                    place[place.len() - 1]
                } else {
                    place[i]
                },
        )
    }

    /// Unlinking a terminal element leaves a chain of the other elements
    /// around a hole.
    proof fn lemma_unlinked(
        nodes: Seq<Node<T>>,
        ends: Seq<usize>,
        order: Seq<usize>,
        place: Seq<int>,
        unlinked: Seq<Node<T>>,
        t: int,
    )
        requires
            Self::sound(nodes, ends, order, place),
            order.len() > 0,
            order.len() <= usize::MAX,
            t == 0 || t == 1,
            ends.len() == 2,
            Self::redirected(
                nodes,
                unlinked,
                ends[t] as int,
                nodes[ends[t] as int].link@[0],
                nodes[ends[t] as int].link@[1],
            ),
        ensures
            Self::holed(
                unlinked,
                Self::order_without(order, t),
                Self::place_without(place, t),
                ends[t] as int,
            ),
            Self::values(unlinked, Self::order_without(order, t)) == if t == 0 {
                Self::values(nodes, order).drop_first()
            } else {
                Self::values(nodes, order).drop_last()
            },
            nodes[ends[t] as int].link@[1 - t] == terminal(Self::order_without(order, t), t),
            order.len() > 1 ==> ends[1 - t] == terminal(Self::order_without(order, t), 1 - t),
    {
        let n = order.len() as int;
        let h = ends[t] as int;
        let order1 = Self::order_without(order, t);
        let place1 = Self::place_without(place, t);
        let p = if t == 0 { 0 } else { n - 1 };
        assert(h == order[p]);
        assert(place[h] == p);
        assert(nodes[h].link@[0] == neighbour(order, p, 0));
        assert(nodes[h].link@[1] == neighbour(order, p, 1));
        assert forall|k: int| 0 <= k < order1.len() implies 0 <= #[trigger] order1[k] < unlinked.len()
            && order1[k] != h && place1[order1[k] as int] == k by {
            assert(place[order[k + 1 - t] as int] == k + 1 - t);
        }
        assert forall|i: int| 0 <= i < unlinked.len() && i != h implies 0 <= #[trigger] place1[i]
            < order1.len() && order1[place1[i]] == i by {
            assert(order[place[i]] == i);
        }
        assert forall|i: int| 0 <= i < unlinked.len() && i != h implies (#[trigger] unlinked[i]).link@[0]
            == neighbour(order1, place1[i], 0) && unlinked[i].link@[1] == neighbour(
            order1,
            place1[i],
            1,
        ) by {
            let q = place[i];
            assert(order[q] == i);
            assert(q != p);
            assert(nodes[i].link@[0] == neighbour(order, q, 0));
            assert(nodes[i].link@[1] == neighbour(order, q, 1));
            assert(unlinked[i].value == nodes[i].value);
            let beside = if t == 0 { 1 } else { n - 2 };
            assert(place[order[beside] as int] == beside);
            assert(order[beside] < n);
            if t == 0 {
                assert(nodes[h].link@[0] == END);
                assert(nodes[h].link@[1] == order[1]);
                assert(i == order[1] <==> q == 1);
                if q > 1 {
                    assert(order1[q - 2] == order[q - 1]);
                }
                if q < n - 1 {
                    assert(order1[q] == order[q + 1]);
                }
            } else {
                assert(nodes[h].link@[1] == END);
                assert(nodes[h].link@[0] == order[n - 2]);
                assert(i == order[n - 2] <==> q == n - 2);
                if q > 0 {
                    assert(order1[q - 1] == order[q - 1]);
                }
                if q < n - 2 {
                    assert(order1[q + 1] == order[q + 1]);
                }
            }
        }
        assert(Self::values(unlinked, order1) =~= if t == 0 {
            Self::values(nodes, order).drop_first()
        } else {
            Self::values(nodes, order).drop_last()
        }) by {
            assert forall|k: int| 0 <= k < order1.len() implies unlinked[order1[k] as int].value
                == nodes[order[k + 1 - t] as int].value by {
                assert(order[k + 1 - t] < n);
            }
        }
    }

    /// In a chain around a hole, once the links to the last slot are pointed
    /// at the hole, the node in slot `j` links to where its neighbours will
    /// lie when the last slot has moved into the hole.
    proof fn lemma_repointed(
        unlinked: Seq<Node<T>>,
        order: Seq<usize>,
        place: Seq<int>,
        hole: int,
        swapped: Seq<Node<T>>,
        j: int,
    )
        requires
            Self::holed(unlinked, order, place, hole),
            unlinked.len() <= usize::MAX,
            hole == order.len() ==> swapped == unlinked,
            hole != order.len() ==> Self::redirected(
                unlinked,
                swapped,
                order.len() as int,
                hole as usize,
                hole as usize,
            ),
            0 <= j < unlinked.len(),
            j != hole,
        ensures
            swapped[j].value == unlinked[j].value,
            swapped[j].link@[0] == Self::moved(
                neighbour(order, place[j], 0),
                order.len() as int,
                hole,
            ),
            swapped[j].link@[1] == Self::moved(
                neighbour(order, place[j], 1),
                order.len() as int,
                hole,
            ),
    {
        let last = order.len() as int;
        let q = place[j];
        assert(order[q] == j);
        assert(unlinked[j].link@[0] == neighbour(order, q, 0));
        assert(unlinked[j].link@[1] == neighbour(order, q, 1));
        if q > 0 {
            assert(place[order[q - 1] as int] == q - 1);
        }
        if q < last - 1 {
            assert(place[order[q + 1] as int] == q + 1);
        }
        if hole != last {
            let r = place[last];
            assert(order[r] == last);
            assert(unlinked[last].link@[0] == neighbour(order, r, 0));
            assert(unlinked[last].link@[1] == neighbour(order, r, 1));
            if r > 0 {
                assert(place[order[r - 1] as int] == r - 1);
            }
            if r < last - 1 {
                assert(place[order[r + 1] as int] == r + 1);
            }
            assert(swapped[j].value == unlinked[j].value);
            assert(swapped[j].link@[0] == if j == unlinked[last].link@[1] {
                hole as usize
            } else {
                unlinked[j].link@[0]
            });
            assert(swapped[j].link@[1] == if j == unlinked[last].link@[0] {
                hole as usize
            } else {
                unlinked[j].link@[1]
            });
            assert(j == unlinked[last].link@[1] <==> q == r + 1);
            assert(j == unlinked[last].link@[0] <==> q == r - 1);
        }
    }

    /// Moving the last slot into the hole of a chain, after the links to the
    /// last slot were pointed at the hole, leaves a sound list.
    proof fn lemma_packed(
        unlinked: Seq<Node<T>>,
        ends: Seq<usize>,
        order: Seq<usize>,
        place: Seq<int>,
        hole: int,
        swapped: Seq<Node<T>>,
        ends_after: Seq<usize>,
    )
        requires
            Self::holed(unlinked, order, place, hole),
            unlinked.len() <= usize::MAX,
            ends.len() == 2,
            ends_after.len() == 2,
            ends[0] == terminal(order, 0),
            ends[1] == terminal(order, 1),
            hole == order.len() ==> swapped == unlinked,
            hole != order.len() ==> Self::redirected(
                unlinked,
                swapped,
                order.len() as int,
                hole as usize,
                hole as usize,
            ),
            forall|s: int|
                0 <= s < 2 ==> ends_after[s] == Self::moved(#[trigger] ends[s], order.len() as int, hole),
        ensures
            Self::sound(
                swapped.update(hole, swapped.last()).drop_last(),
                ends_after,
                Self::order_packed(order, hole),
                Self::place_packed(place, hole),
            ),
            Self::values(
                swapped.update(hole, swapped.last()).drop_last(),
                Self::order_packed(order, hole),
            ) == Self::values(unlinked, order),
    {
        Self::lemma_packed_inverse(unlinked, order, place, hole);
        Self::lemma_packed_chained(unlinked, order, place, hole, swapped);
        Self::lemma_packed_values(unlinked, order, place, hole, swapped);
        assert(ends[0] == ends_after[0] || ends[0] == order.len());
        assert(ends[1] == ends_after[1] || ends[1] == order.len());
    }

    /// After the move every node links to its neighbours.
    proof fn lemma_packed_chained(
        unlinked: Seq<Node<T>>,
        order: Seq<usize>,
        place: Seq<int>,
        hole: int,
        swapped: Seq<Node<T>>,
    )
        requires
            Self::holed(unlinked, order, place, hole),
            unlinked.len() <= usize::MAX,
            hole == order.len() ==> swapped == unlinked,
            hole != order.len() ==> Self::redirected(
                unlinked,
                swapped,
                order.len() as int,
                hole as usize,
                hole as usize,
            ),
        ensures
            Self::chained(
                swapped.update(hole, swapped.last()).drop_last(),
                Self::order_packed(order, hole),
                Self::place_packed(place, hole),
            ),
    {
        let last = order.len() as int;
        let packed = swapped.update(hole, swapped.last()).drop_last();
        let order2 = Self::order_packed(order, hole);
        let place2 = Self::place_packed(place, hole);
        assert(swapped.len() == unlinked.len());
        assert forall|i: int| 0 <= i < packed.len() implies (#[trigger] packed[i]).link@[0]
            == neighbour(order2, place2[i], 0) && packed[i].link@[1] == neighbour(
            order2,
            place2[i],
            1,
        ) by {
            let j = if i == hole { last } else { i };
            assert(packed[i] == swapped[j]);
            assert(place2[i] == place[j]);
            Self::lemma_repointed(unlinked, order, place, hole, swapped, j);
            Self::lemma_moved_neighbour(order, hole, place[j], 0);
            Self::lemma_moved_neighbour(order, hole, place[j], 1);
        }
    }

    /// The move keeps the value of every element.
    proof fn lemma_packed_values(
        unlinked: Seq<Node<T>>,
        order: Seq<usize>,
        place: Seq<int>,
        hole: int,
        swapped: Seq<Node<T>>,
    )
        requires
            Self::holed(unlinked, order, place, hole),
            unlinked.len() <= usize::MAX,
            hole == order.len() ==> swapped == unlinked,
            hole != order.len() ==> Self::redirected(
                unlinked,
                swapped,
                order.len() as int,
                hole as usize,
                hole as usize,
            ),
        ensures
            Self::values(
                swapped.update(hole, swapped.last()).drop_last(),
                Self::order_packed(order, hole),
            ) == Self::values(unlinked, order),
    {
        let packed = swapped.update(hole, swapped.last()).drop_last();
        let order2 = Self::order_packed(order, hole);
        assert(swapped.len() == unlinked.len());
        assert forall|k: int| 0 <= k < order.len() implies packed[order2[k] as int].value
            == unlinked[order[k] as int].value by {
            let j = order[k] as int;
            let i = order2[k] as int;
            assert(packed[i] == swapped[j]);
            Self::lemma_repointed(unlinked, order, place, hole, swapped, j);
        }
        assert(Self::values(packed, order2) =~= Self::values(unlinked, order));
    }

    /// The slots and the positions after the move are inverse to each other.
    proof fn lemma_packed_inverse(
        unlinked: Seq<Node<T>>,
        order: Seq<usize>,
        place: Seq<int>,
        hole: int,
    )
        requires
            Self::holed(unlinked, order, place, hole),
        ensures
            inverse(Self::order_packed(order, hole), Self::place_packed(place, hole)),
    {
        let last = order.len() as int;
        let order2 = Self::order_packed(order, hole);
        let place2 = Self::place_packed(place, hole);
        assert forall|k: int| 0 <= k < order2.len() implies 0 <= #[trigger] order2[k] < order2.len()
            && place2[order2[k] as int] == k by {
            assert(place[order[k] as int] == k);
        }
        assert forall|i: int| 0 <= i < place2.len() implies 0 <= #[trigger] place2[i] < place2.len()
            && order2[place2[i]] == i by {
            let j = if i == hole { last } else { i };
            assert(order[place[j]] == j);
        }
    }

    /// The neighbours after the move are the neighbours before it, moved.
    proof fn lemma_moved_neighbour(order: Seq<usize>, hole: int, q: int, side: int)
        requires
            0 <= q < order.len(),
            order.len() < usize::MAX,
        ensures
            neighbour(Self::order_packed(order, hole), q, side) == Self::moved(
                neighbour(order, q, side),
                order.len() as int,
                hole,
            ),
    {
    }

    /// Removes the element at the head or at the tail.
    fn pop_terminal(&mut self, term: Terminal) -> (popped: Option<T>)
        requires
            old(self).wf(),
        ensures
            final(self).wf(),
            old(self)@.len() == 0 ==> popped is None && *final(self) == *old(self),
            old(self)@.len() > 0 ==> popped == Some(
                match term {
                    Terminal::Head => old(self)@.first(),
                    Terminal::Tail => old(self)@.last(),
                },
            ) && final(self)@ == match term {
                Terminal::Head => old(self)@.drop_first(),
                Terminal::Tail => old(self)@.drop_last(),
            },
            forall|k: int|
                0 <= k < old(self)@.len() - 1 ==> final(self).slot(k) == Self::relocated(
                    old(self).slot(k + 1 - term.ix()),
                    old(self)@.len() - 1,
                    old(self).slot(
                        match term {
                            Terminal::Head => 0,
                            Terminal::Tail => old(self)@.len() - 1,
                        },
                    ),
                ),
    {
        let t = term.index();
        let ghost n = self.order@.len() as int;
        assert(n == self.nodes.len());
        if self.link[t] == END {
            assert(self@.len() == 0) by {
                if n > 0 {
                    assert(self.order@[0] < n && self.order@[n - 1] < n);
                }
            }
            return None;
        }
        let h = self.link[t];
        let new_terminal = self.nodes[h].link[1 - t];
        self.prepare_remove(h);
        let ghost order = Self::order_without(self.order@, t as int);
        let ghost place = Self::place_without(self.place@, t as int);
        let ghost unlinked = self.nodes@;
        proof {
            Self::lemma_unlinked(
                old(self).nodes@,
                old(self).link@,
                self.order@,
                self.place@,
                unlinked,
                t as int,
            );
        }

        self.link[t] = new_terminal;
        let ghost ends;
        if self.link[t] == END {
            self.link[1 - t] = END;
            proof {
                ends = self.link@;
            }
        } else {
            // The last slot moves.
            proof {
                ends = self.link@;
            }
            let moved_index = self.nodes.len() - 1;
            self.prepare_swap(h, moved_index);
        }
        let ghost swapped = self.nodes@;
        let removed_node = self.nodes.swap_remove(h);
        proof {
            if n == 1 {
                assert(order.len() == 0);
            } else {
                assert(order[0] < n && order[n - 2] < n);
            }
            Self::lemma_packed(unlinked, ends, order, place, h as int, swapped, self.link@);
            self.order@ = Self::order_packed(order, h as int);
            self.place@ = Self::place_packed(place, h as int);
        }
        Some(removed_node.value)
    }

    /// Removes the element at the beginning of the list and returns it, or
    /// returns `None` if the list is empty.
    pub fn pop_front(&mut self) -> (popped: Option<T>)
        requires
            old(self).wf(),
        ensures
            final(self).wf(),
            old(self)@.len() == 0 ==> popped is None && *final(self) == *old(self),
            old(self)@.len() > 0 ==> popped == Some(old(self)@.first()) && final(self)@ == old(
                self,
            )@.drop_first(),
            forall|k: int|
                0 <= k < old(self)@.len() - 1 ==> final(self).slot(k) == Self::relocated(
                    old(self).slot(k + 1),
                    old(self)@.len() - 1,
                    old(self).slot(0),
                ),
    {
        self.pop_terminal(Terminal::Head)
    }

    /// Removes the element at the end of the list and returns it, or returns
    /// `None` if the list is empty.
    pub fn pop_back(&mut self) -> (popped: Option<T>)
        requires
            old(self).wf(),
        ensures
            final(self).wf(),
            old(self)@.len() == 0 ==> popped is None && *final(self) == *old(self),
            old(self)@.len() > 0 ==> popped == Some(old(self)@.last()) && final(self)@ == old(
                self,
            )@.drop_last(),
            forall|k: int|
                0 <= k < old(self)@.len() - 1 ==> final(self).slot(k) == Self::relocated(
                    old(self).slot(k),
                    old(self)@.len() - 1,
                    old(self).slot(old(self)@.len() - 1),
                ),
    {
        self.pop_terminal(Terminal::Tail)
    }
}

} // verus!
