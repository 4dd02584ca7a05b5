//! Walking the list from both ends.

use vstd::prelude::*;
use vstd::std_specs::iter::{DoubleEndedIteratorSpecImpl, IteratorSpecImpl};
use super::{inverse, List, Node, Terminal, END};

verus! {

/// A double-ended iterator over the elements of a list.
///
/// It keeps one index for each end. A step from either end takes the node at
/// that end's index and moves the index inward; when the two indices meet,
/// the last element is taken and both become `END`.
pub struct Iter<'a, T: 'a> {
    link: [usize; 2],
    nodes: &'a [Node<T>],
    taken: usize,
    /// The slot of each element of the list, in list order.
    order: Ghost<Seq<usize>>,
    /// The list position of the element in each slot.
    place: Ghost<Seq<int>>,
    /// The position of the first element not yet taken from the front.
    lo: Ghost<int>,
    /// The position after the last element not yet taken from the back.
    hi: Ghost<int>,
}

impl<'a, T: 'a> Clone for Iter<'a, T> {
    fn clone(&self) -> (copy: Self)
        ensures
            copy == *self,
    {
        *self
    }
}

impl<'a, T: 'a> Copy for Iter<'a, T> {

}

impl<'a, T: 'a> Iter<'a, T> {
    #[verifier::type_invariant]
    spec fn inv(self) -> bool {
        &&& self.nodes@.len() == self.order@.len()
        &&& inverse(self.order@, self.place@)
        &&& List::chained(self.nodes@, self.order@, self.place@)
        &&& 0 <= self.lo@ <= self.hi@ <= self.order@.len()
        &&& self.taken == self.order@.len() - (self.hi@ - self.lo@)
        &&& self.link@[0] == if self.lo@ < self.hi@ {
            self.order@[self.lo@]
        } else {
            END
        }
        &&& self.link@[1] == if self.lo@ < self.hi@ {
            self.order@[self.hi@ - 1]
        } else {
            END
        }
    }

    /// The elements not yet taken, from the front one to the back one.
    pub closed spec fn view(&self) -> Seq<T> {
        Seq::new((self.hi@ - self.lo@) as nat, |k: int| self.nodes@[self.order@[self.lo@ + k] as int].value)
    }

    /// Takes the element at the head or at the tail of what is left.
    fn next_terminal(&mut self, term: Terminal) -> (taken: Option<&'a T>)
        ensures
            old(self)@.len() == 0 ==> taken is None && *final(self) == *old(self),
            old(self)@.len() > 0 ==> final(self)@ == (match term {
                Terminal::Head => old(self)@.drop_first(),
                Terminal::Tail => old(self)@.drop_last(),
            }) && taken == Some(
                match term {
                    Terminal::Head => &old(self)@[0],
                    Terminal::Tail => &old(self)@[old(self)@.len() - 1],
                },
            ),
    {
        proof {
            use_type_invariant(&*self);
        }
        let h = term.index();
        let t = term.opposite().index();
        let nodes = self.nodes;
        assert(self.order@.len() == nodes.len());
        match nodes.get(self.link[h]) {
            None => {
                assert(self.lo@ == self.hi@) by {
                    if self.lo@ < self.hi@ {
                        assert(self.order@[self.lo@] < self.order@.len());
                        assert(self.order@[self.hi@ - 1] < self.order@.len());
                    }
                }
                None
            },
            Some(n) => {
                let elt = Some(&n.value);
                let ghost lo = self.lo@;
                let ghost hi = self.hi@;
                assert(lo < hi);
                assert(self.place@[self.order@[lo] as int] == lo);
                assert(self.place@[self.order@[hi - 1] as int] == hi - 1);
                let link = if self.link[h] == self.link[t] {
                    [END, END]
                } else {
                    let mut link = self.link;
                    link[h] = n.link[t];
                    link
                };
                *self = Iter {
                    link: link,
                    nodes: nodes,
                    taken: self.taken + 1,
                    order: self.order,
                    place: self.place,
                    lo: Ghost(if h == 0 { lo + 1 } else { lo }),
                    hi: Ghost(if h == 0 { hi } else { hi - 1 }),
                };
                assert(self@ =~= (match term {
                    Terminal::Head => old(self)@.drop_first(),
                    Terminal::Tail => old(self)@.drop_last(),
                }));
                elt
            },
        }
    }
}

impl<'a, T: 'a> Iterator for Iter<'a, T> {
    type Item = &'a T;

    #[inline]
    fn next(&mut self) -> (item: Option<&'a T>)
        ensures
            old(self)@.len() == 0 ==> item is None && *final(self) == *old(self),
            old(self)@.len() > 0 ==> item == Some(&old(self)@[0])
                && final(self)@ == old(self)@.drop_first(),
    {
        self.next_terminal(Terminal::Head)
    }

    fn size_hint(&self) -> (bounds: (usize, Option<usize>))
        ensures
            bounds.0 == self@.len(),
            bounds.1 == Some(bounds.0),
    {
        proof {
            use_type_invariant(self);
        }
        let len = self.nodes.len() - self.taken;
        (len, Some(len))
    }
}

impl<'a, T: 'a> IteratorSpecImpl for Iter<'a, T> {
    open spec fn obeys_prophetic_iter_laws(&self) -> bool {
        true
    }

    open spec fn remaining(&self) -> Seq<&'a T> {
        self@.map(|i: int, v: T| &v)
    }

    open spec fn will_return_none(&self) -> bool {
        true
    }

    open spec fn decrease(&self) -> Option<nat> {
        Some(self@.len())
    }

    open spec fn initial_value_relation(&self, init: &Self) -> bool {
        self@ == init@
    }

    open spec fn peek(&self, index: int) -> Option<&'a T> {
        if 0 <= index < self@.len() {
            Some(&self@[index])
        } else {
            None
        }
    }
}

impl<'a, T: 'a> DoubleEndedIterator for Iter<'a, T> {
    #[inline]
    fn next_back(&mut self) -> (item: Option<&'a T>)
        ensures
            old(self)@.len() == 0 ==> item is None && *final(self) == *old(self),
            old(self)@.len() > 0 ==> item == Some(&old(self)@[old(self)@.len() - 1])
                && final(self)@ == old(self)@.drop_last(),
    {
        self.next_terminal(Terminal::Tail)
    }
}

impl<'a, T: 'a> DoubleEndedIteratorSpecImpl for Iter<'a, T> {
    open spec fn peek_back(&self, index: int) -> Option<&'a T> {
        if 0 <= index < self@.len() {
            Some(&self@[self@.len() - 1 - index])
        } else {
            None
        }
    }
}

/// A double-ended walk over the elements of a list that hands out each
/// element for writing.
///
/// It steps as `Iter` does. The reference that a step returns borrows the
/// walk itself, so the next step can only be taken once that reference has
/// been given up: no two references to one slot can exist.
///
/// The fields are public so that contracts can speak of the list that the
/// walk holds; a walk is meant to be stepped through its methods only.
pub struct IterMut<'a, T: 'a> {
    pub link: [usize; 2],
    pub list: &'a mut List<T>,
    pub taken: usize,
    /// The position of the first element not yet taken from the front.
    pub lo: Ghost<int>,
    /// The position after the last element not yet taken from the back.
    pub hi: Ghost<int>,
}

impl<'a, T: 'a> IterMut<'a, T> {
    /// The list is well formed, what is left is a window of it, and the two
    /// indices of the walk are the slots of the first and the last element of
    /// that window.
    pub open spec fn wf(&self) -> bool {
        &&& self.list.wf()
        &&& 0 <= self.lo@ <= self.hi@ <= self.list@.len()
        &&& self.at_ends()
    }

    /// The two indices of the walk are the slots of the first and the last
    /// element not yet taken, and the count of taken elements is right.
    pub closed spec fn at_ends(&self) -> bool {
        &&& self.taken == self.list.order@.len() - (self.hi@ - self.lo@)
        &&& self.link@[0] == if self.lo@ < self.hi@ {
            self.list.order@[self.lo@]
        } else {
            END
        }
        &&& self.link@[1] == if self.lo@ < self.hi@ {
            self.list.order@[self.hi@ - 1]
        } else {
            END
        }
    }

    /// The elements not yet taken, from the front one to the back one.
    pub open spec fn view(&self) -> Seq<T> {
        self.list@.subrange(self.lo@, self.hi@)
    }

    /// Takes the element at the head or at the tail of what is left.
    fn next_terminal(&mut self, term: Terminal) -> (item: Option<&mut T>)
        requires
            old(self).wf(),
        ensures
            final(self).wf(),
            *final(final(self).list) == *final(old(self).list),
            final(self).list.same_layout(old(self).list),
            old(self).lo@ == old(self).hi@ ==> item is None && final(self).list@ == old(self).list@
                && final(self).lo == old(self).lo && final(self).hi == old(self).hi,
            old(self).lo@ != old(self).hi@ ==> item is Some && match term {
                Terminal::Head => {
                    &&& *item.unwrap() == old(self).list@[old(self).lo@]
                    &&& final(self).list@ == old(self).list@.update(
                        old(self).lo@,
                        *final(item.unwrap()),
                    )
                    &&& final(self).lo@ == old(self).lo@ + 1
                    &&& final(self).hi@ == old(self).hi@
                },
                Terminal::Tail => {
                    &&& *item.unwrap() == old(self).list@[old(self).hi@ - 1]
                    &&& final(self).list@ == old(self).list@.update(
                        old(self).hi@ - 1,
                        *final(item.unwrap()),
                    )
                    &&& final(self).lo@ == old(self).lo@
                    &&& final(self).hi@ == old(self).hi@ - 1
                },
            },
    {
        let h = term.index();
        let t = term.opposite().index();
        let cur = self.link[h];
        let ghost lo = self.lo@;
        let ghost hi = self.hi@;
        assert(self.list.order@.len() == self.list.nodes.len());
        if cur < self.list.nodes.len() {
            assert(lo < hi);
            assert(self.list.place@[self.list.order@[lo] as int] == lo);
            assert(self.list.place@[self.list.order@[hi - 1] as int] == hi - 1);
            self.taken += 1;
            if self.link[h] == self.link[t] {
                self.link = [END, END];
            } else {
                self.link[h] = self.list.nodes[cur].link[t];
            }
            proof {
                if h == 0 {
                    self.lo@ = lo + 1;
                } else {
                    self.hi@ = hi - 1;
                }
            }
            Some(&mut self.list.nodes[cur].value)
        } else {
            assert(lo == hi) by {
                if lo < hi {
                    assert(self.list.order@[lo] < self.list.order@.len());
                    assert(self.list.order@[hi - 1] < self.list.order@.len());
                }
            }
            None
        }
    }

    /// Takes the first of the elements that are left.
    pub fn next(&mut self) -> (item: Option<&mut T>)
        requires
            old(self).wf(),
        ensures
            final(self).wf(),
            *final(final(self).list) == *final(old(self).list),
            final(self).list.same_layout(old(self).list),
            old(self)@.len() == 0 ==> item is None && final(self).list@ == old(self).list@
                && final(self).lo == old(self).lo && final(self).hi == old(self).hi,
            old(self)@.len() != 0 ==> {
                &&& item is Some
                &&& *item.unwrap() == old(self)@[0]
                &&& final(self).list@ == old(self).list@.update(old(self).lo@, *final(item.unwrap()))
                &&& final(self).lo@ == old(self).lo@ + 1
                &&& final(self).hi@ == old(self).hi@
            },
    {
        self.next_terminal(Terminal::Head)
    }

    /// Takes the last of the elements that are left.
    pub fn next_back(&mut self) -> (item: Option<&mut T>)
        requires
            old(self).wf(),
        ensures
            final(self).wf(),
            *final(final(self).list) == *final(old(self).list),
            final(self).list.same_layout(old(self).list),
            old(self)@.len() == 0 ==> item is None && final(self).list@ == old(self).list@
                && final(self).lo == old(self).lo && final(self).hi == old(self).hi,
            old(self)@.len() != 0 ==> {
                &&& item is Some
                &&& *item.unwrap() == old(self)@[old(self)@.len() - 1]
                &&& final(self).list@ == old(self).list@.update(
                    old(self).hi@ - 1,
                    *final(item.unwrap()),
                )
                &&& final(self).lo@ == old(self).lo@
                &&& final(self).hi@ == old(self).hi@ - 1
            },
    {
        self.next_terminal(Terminal::Tail)
    }

    /// The number of elements that are left, as both bounds.
    pub fn size_hint(&self) -> (bounds: (usize, Option<usize>))
        requires
            self.wf(),
        ensures
            bounds.0 == self@.len(),
            bounds.1 == Some(bounds.0),
    {
        let len = self.list.nodes.len() - self.taken;
        (len, Some(len))
    }
}

impl<T> List<T> {
    /// An iterator over the elements, from head to tail and, from its back
    /// end, from tail to head.
    pub fn iter(&self) -> (it: Iter<'_, T>)
        requires
            self.wf(),
        ensures
            it@ == self@,
    {
        let it = Iter {
            link: self.link,
            nodes: self.nodes.as_slice(),
            taken: 0,
            order: self.order,
            place: self.place,
            lo: Ghost(0),
            hi: Ghost(self.order@.len() as int),
        };
        assert(it@ =~= self@);
        it
    }

    /// A walk over the elements that hands out each of them for writing.
    pub fn iter_mut(&mut self) -> (it: IterMut<'_, T>)
        requires
            old(self).wf(),
        ensures
            it.wf(),
            *it.list == *old(self),
            *final(it.list) == *final(self),
            it.lo@ == 0,
            it.hi@ == old(self)@.len(),
    {
        IterMut {
            link: self.link,
            taken: 0,
            lo: Ghost(0),
            hi: Ghost(self.order@.len() as int),
            list: self,
        }
    }
}

} // verus!
