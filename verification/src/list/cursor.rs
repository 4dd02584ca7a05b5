//! A cursor: a place in the list that steps both ways and inserts.

use vstd::prelude::*;
use super::{inverse, neighbour, terminal, List, Node, END};

verus! {

/// Where `Cursor::seek` moves to.
#[derive(Copy, Clone, PartialEq, Eq, PartialOrd, Ord, Debug)]
pub enum Seek {
    /// Forward *n* steps, or at most to the end.
    Forward(usize),
    /// Backward *n* steps, or at most to the beginning.
    Backward(usize),
    /// To the beginning.
    Head,
    /// To the end.
    Tail,
}

/// A cursor points to a place in a list and can step forward and backward.
///
/// Its place is before one of the elements, or at the one virtual slot that
/// lies both after the tail and before the head: stepping is circular. The
/// cursor holds the list exclusively while it lives.
///
/// The fields are public so that contracts can speak of the list that the
/// cursor holds; a cursor is meant to be moved through its methods only.
pub struct Cursor<'a, T: 'a> {
    /// The slot of the element that the cursor stands before, or `END`.
    pub pos: usize,
    pub list: &'a mut List<T>,
}

impl<T> List<T> {
    /// A new cursor, placed before the head of the list.
    pub fn cursor(&mut self) -> (cursor: Cursor<'_, T>)
        requires
            old(self).wf(),
        ensures
            cursor.wf(),
            *cursor.list == *old(self),
            *final(cursor.list) == *final(self),
            cursor.index() == 0,
    {
        let pos = self.head();
        proof {
            if self.order@.len() > 0 {
                assert(self.place@[self.order@[0] as int] == 0);
            }
        }
        Cursor { pos: pos, list: self }
    }

    /// Writing a new node at the end of the arena, between the node at
    /// position `p - 1` and the node at position `p`, and pointing those two
    /// at it, leaves a sound list with the new element at position `p`.
    proof fn lemma_spliced(
        nodes: Seq<Node<T>>,
        ends: Seq<usize>,
        order: Seq<usize>,
        place: Seq<int>,
        after: Seq<Node<T>>,
        p: int,
        value: T,
    )
        requires
            Self::sound(nodes, ends, order, place),
            0 < p < order.len(),
            order.len() < usize::MAX,
            after.len() == nodes.len() + 1,
            after[nodes.len() as int].value == value,
            after[nodes.len() as int].link@[0] == order[p - 1],
            after[nodes.len() as int].link@[1] == order[p],
            forall|i: int|
                0 <= i < nodes.len() ==> {
                    &&& (#[trigger] after[i]).value == nodes[i].value
                    &&& after[i].link@[0] == if i == order[p] {
                        nodes.len() as usize
                    } else {
                        nodes[i].link@[0]
                    }
                    &&& after[i].link@[1] == if i == order[p - 1] {
                        nodes.len() as usize
                    } else {
                        nodes[i].link@[1]
                    }
                },
        ensures
            Self::sound(
                after,
                ends,
                Cursor::<T>::order_spliced(order, p, nodes.len() as int),
                Cursor::<T>::place_spliced(place, p, nodes.len() as int),
            ),
            Self::values(after, Cursor::<T>::order_spliced(order, p, nodes.len() as int))
                == Self::values(nodes, order).insert(p, value),
    {
        let index = nodes.len() as int;
        let order2 = Cursor::<T>::order_spliced(order, p, index);
        let place2 = Cursor::<T>::place_spliced(place, p, index);
        assert(inverse(order2, place2)) by {
            assert forall|k: int| 0 <= k < order2.len() implies 0 <= #[trigger] order2[k]
                < order2.len() && place2[order2[k] as int] == k by {
                if k < p {
                    assert(place[order[k] as int] == k);
                } else if k > p {
                    assert(place[order[k - 1] as int] == k - 1);
                }
            }
            assert forall|i: int| 0 <= i < place2.len() implies 0 <= #[trigger] place2[i]
                < place2.len() && order2[place2[i]] == i by {
                if i < index {
                    assert(order[place[i]] == i);
                }
            }
        }
        assert(Self::chained(after, order2, place2)) by {
            assert(place[order[p] as int] == p);
            assert(place[order[p - 1] as int] == p - 1);
            assert forall|i: int| 0 <= i < after.len() implies (#[trigger] after[i]).link@[0]
                == neighbour(order2, place2[i], 0) && after[i].link@[1] == neighbour(
                order2,
                place2[i],
                1,
            ) by {
                if i < index {
                    let q = place[i];
                    assert(order[q] == i);
                    assert(nodes[i].link@[0] == neighbour(order, q, 0));
                    assert(nodes[i].link@[1] == neighbour(order, q, 1));
                    if q >= p {
                        assert(place2[i] == q + 1);
                        assert(order2[q] == if q == p { index as usize } else { order[q - 1] });
                        if q < index - 1 {
                            assert(order2[q + 2] == order[q + 1]);
                        }
                    } else {
                        assert(place2[i] == q);
                        if q > 0 {
                            assert(order2[q - 1] == order[q - 1]);
                        }
                        assert(order2[q + 1] == if q == p - 1 { index as usize } else { order[q + 1] });
                    }
                } else {
                    assert(place2[i] == p);
                    assert(order2[p - 1] == order[p - 1]);
                    assert(order2[p + 1] == order[p]);
                }
            }
        }
        assert(ends[0] == terminal(order2, 0) && ends[1] == terminal(order2, 1)) by {
            assert(order2[0] == order[0]);
            assert(order2[index] == order[index - 1]);
        }
        assert(Self::values(after, order2) =~= Self::values(nodes, order).insert(p, value)) by {
            assert forall|k: int| 0 <= k < order2.len() implies after[order2[k] as int].value
                == Self::values(nodes, order).insert(p, value)[k] by {
                if k < p {
                    assert(order2[k] == order[k]);
                } else if k > p {
                    assert(order2[k] == order[k - 1]);
                }
            }
        }
    }
}

impl<'a, T: 'a> Cursor<'a, T> {
    /// The list is well formed and the cursor stands at a place of it.
    pub open spec fn wf(&self) -> bool {
        self.list.wf() && self.list.anchors(self.pos)
    }

    /// The elements of the list, from head to tail.
    pub open spec fn view(&self) -> Seq<T> {
        self.list@
    }

    /// The position of the element that the cursor stands before, from 0 for
    /// the head; the length of the list when it stands at the virtual slot.
    pub open spec fn index(&self) -> int {
        self.list.rank(self.pos)
    }

    /// Steps the cursor forward.
    ///
    /// Returns the element that the cursor stood before, or `None` when it
    /// stood after the last one; from there it steps to the head, so that the
    /// call after that returns the first element.
    pub fn next(&mut self) -> (item: Option<&mut T>)
        requires
            old(self).wf(),
        ensures
            final(self).wf(),
            *final(final(self).list) == *final(old(self).list),
            final(self).list.same_layout(old(self).list),
            final(self).index() == Self::stepped(old(self)@.len() as int, old(self).index()),
            old(self).index() == old(self)@.len() ==> item is None && final(self)@ == old(self)@
                && final(self).index() == 0,
            old(self).index() != old(self)@.len() ==> item is Some && *item.unwrap() == old(
                self,
            )@[old(self).index()] && final(self)@ == old(self)@.update(
                old(self).index(),
                *final(item.unwrap()),
            ) && final(self).index() == old(self).index() + 1,
    {
        let pos = self.pos;
        if pos < self.list.nodes.len() {
            let ghost p = self.list.place@[pos as int];
            assert(self.list.order@[p] == pos);
            self.pos = self.list.nodes[pos].next();
            Some(&mut self.list.nodes[pos].value)
        } else {
            self.pos = self.list.link[0];
            None
        }
    }

    /// Steps the cursor backward.
    ///
    /// Returns the element before the one that the cursor stood before, or
    /// `None` when it stood before the first one; from there it steps to the
    /// virtual slot, so that the call after that returns the last element.
    pub fn prev(&mut self) -> (item: Option<&mut T>)
        requires
            old(self).wf(),
        ensures
            final(self).wf(),
            *final(final(self).list) == *final(old(self).list),
            final(self).list.same_layout(old(self).list),
            old(self).index() == 0 ==> item is None && final(self)@ == old(self)@
                && final(self).index() == old(self)@.len(),
            old(self).index() != 0 ==> item is Some && *item.unwrap() == old(self)@[old(
                self,
            ).index() - 1] && final(self)@ == old(self)@.update(
                old(self).index() - 1,
                *final(item.unwrap()),
            ) && final(self).index() == old(self).index() - 1,
    {
        let ghost n = self.list.order@.len() as int;
        let ghost p = self.index();
        assert(n == self.list.nodes.len());
        proof {
            if n > 0 {
                assert(self.list.place@[self.list.order@[0] as int] == 0);
            }
            if p < n {
                assert(self.list.order@[p] == self.pos);
            }
        }
        if self.pos == self.list.head() {
            // From the head back to one past the end.
            self.pos = END;
            return None;
        }
        let prev = if self.pos < self.list.nodes.len() {
            self.list.nodes[self.pos].prev()
        } else {
            self.list.tail()
        };
        assert(prev == self.list.order@[p - 1]);
        assert(self.list.place@[prev as int] == p - 1);
        if prev < self.list.nodes.len() {
            self.pos = prev;
            Some(&mut self.list.nodes[prev].value)
        } else {
            None
        }
    }

    /// Inserts an element at the cursor: before the element that `next`
    /// would return here. The cursor then stands before the new element.
    pub fn insert(&mut self, value: T)
        requires
            old(self).wf(),
        ensures
            final(self).wf(),
            *final(final(self).list) == *final(old(self).list),
            final(self)@ == old(self)@.insert(old(self).index(), value),
            final(self).index() == old(self).index(),
            final(self).pos == old(self)@.len(),
            forall|k: int|
                0 <= k < old(self)@.len() ==> old(self).list.slot(k) == final(self).list.slot(
                    if k < old(self).index() {
                        k
                    } else {
                        k + 1
                    },
                ),
    {
        let index = self.list.len();
        let ghost order = self.list.order@;
        let ghost place = self.list.place@;
        let ghost p = self.index();
        proof {
            if index > 0 {
                assert(place[order[0] as int] == 0);
            }
        }
        if self.pos == END {
            self.list.push_back(value);
            self.pos = index;
            assert(old(self)@.push(value) =~= old(self)@.insert(p, value));
        } else if self.pos == self.list.head() {
            self.list.push_front(value);
            self.pos = index;
            assert(seq![value] + old(self)@ =~= old(self)@.insert(p, value));
        } else {
            let pos = self.pos;
            assert(order[p] == pos);
            let prev = self.list.nodes[pos].prev();
            assert(prev == order[p - 1]);
            let node = Node::new(value, prev, pos);
            if prev < self.list.nodes.len() {
                self.list.nodes[prev].set_next(index);
            } else {
                // The cursor stood before the head.
                self.list.link[0] = index;
            }
            self.list.nodes[pos].set_prev(index);
            self.list.nodes.push(node);
            self.pos = index;
            proof {
                assert(self.list.nodes.len() == index + 1);
                self.list.order@ = Self::order_spliced(order, p, index as int);
                self.list.place@ = Self::place_spliced(place, p, index as int);
                List::lemma_spliced(
                    old(self).list.nodes@,
                    self.list.link@,
                    order,
                    place,
                    self.list.nodes@,
                    p,
                    value,
                );
            }
        }
    }

    /// The slots of the elements once a new element in slot `index` stands
    /// at position `p`.
    spec fn order_spliced(order: Seq<usize>, p: int, index: int) -> Seq<usize> {
        order.insert(p, index as usize)
    }

    /// The positions of the elements once a new element in slot `index`
    /// stands at position `p`.
    spec fn place_spliced(place: Seq<int>, p: int, index: int) -> Seq<int> {
        Seq::new(
            (index + 1) as nat,
            |i: int|
                if i == index {
                    p
                } else if place[i] >= p {
                    place[i] + 1
                } else {
                    place[i]
                },
        )
    }

    /// Moves the cursor: to the head, to the virtual slot after the tail, or
    /// a number of steps forward or backward, stopping at the virtual slot
    /// or at the head when it gets there first.
    pub fn seek(&mut self, offset: Seek)
        requires
            old(self).wf(),
        ensures
            final(self).wf(),
            *final(final(self).list) == *final(old(self).list),
            final(self)@ == old(self)@,
            final(self).list.same_layout(old(self).list),
            final(self).index() == Self::sought(old(self).index(), old(self)@.len() as int, offset),
    {
        let ghost n = self.list.order@.len() as int;
        let ghost p = self.index();
        assert(n == self.list.nodes.len());
        proof {
            if n > 0 {
                assert(self.list.place@[self.list.order@[0] as int] == 0);
            }
        }
        match offset {
            Seek::Head => {
                self.pos = self.list.head();
            },
            Seek::Tail => {
                self.pos = END;
            },
            Seek::Forward(steps) => {
                let mut i: usize = 0;
                while i < steps
                    invariant
                        offset == Seek::Forward(steps),
                        self.wf(),
                        *final(self.list) == *final(old(self).list),
                        self@ == old(self)@,
                        self.list.same_layout(old(self).list),
                        i <= steps,
                        self.index() == if p + i <= n {
                            p + i
                        } else {
                            n
                        },
                        n == self.list.nodes@.len(),
                        n == self@.len(),
                    ensures
                        self.index() == Self::sought(p, n, offset),
                    decreases steps - i,
                {
                    assert(n == self.list.nodes.len());
                    if self.pos == END {
                        break ;
                    }
                    let ghost before = self@;
                    self.next();
                    assert(self@ =~= before);
                    i += 1;
                }
            },
            Seek::Backward(steps) => {
                let mut i: usize = 0;
                while i < steps
                    invariant
                        offset == Seek::Backward(steps),
                        self.wf(),
                        *final(self.list) == *final(old(self).list),
                        self@ == old(self)@,
                        self.list.same_layout(old(self).list),
                        i <= steps,
                        self.index() == if p - i >= 0 {
                            p - i
                        } else {
                            0
                        },
                        n == self.list.nodes@.len(),
                        n == self@.len(),
                        n == self.list.order@.len(),
                        inverse(self.list.order@, self.list.place@),
                        self.list.link@[0] == terminal(self.list.order@, 0),
                    ensures
                        self.index() == Self::sought(p, n, offset),
                    decreases steps - i,
                {
                    proof {
                        if n > 0 {
                            assert(self.list.place@[self.list.order@[0] as int] == 0);
                        }
                        if self.index() < n {
                            assert(self.list.order@[self.index()] == self.pos);
                        }
                    }
                    if self.pos == self.list.head() {
                        break ;
                    }
                    let ghost before = self@;
                    self.prev();
                    assert(self@ =~= before);
                    i += 1;
                }
            },
        }
    }

    /// Where `next` leaves a cursor that stood at position `index` of a list
    /// of `len` elements: one further, and from the virtual slot at the head.
    pub open spec fn stepped(len: int, index: int) -> int {
        if index == len {
            0
        } else {
            index + 1
        }
    }

    /// Where `seek` leaves a cursor that stood at position `index` of a list
    /// of `len` elements.
    pub open spec fn sought(index: int, len: int, offset: Seek) -> int {
        match offset {
            Seek::Head => 0,
            Seek::Tail => len,
            Seek::Forward(steps) => if index + steps <= len {
                index + steps
            } else {
                len
            },
            Seek::Backward(steps) => if index - steps >= 0 {
                index - steps
            } else {
                0
            },
        }
    }
}

} // verus!
