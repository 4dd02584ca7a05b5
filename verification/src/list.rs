//! The arena, its link table, and the operations at the two ends.

use vstd::prelude::*;

pub mod cursor;
mod extend;
pub mod iter;
mod linearize;
mod remove;

verus! {

/// The index that stands for "no such link". No arena slot can have it.
pub const END: usize = usize::MAX;

/// One of the two ends of the list. It doubles as the selector of a link:
/// a node's link toward the head is its previous node, its link toward the
/// tail is its next node.
#[derive(Copy, Clone, PartialEq, Eq, Structural, Debug)]
pub enum Terminal {
    Head,
    Tail,
}

impl Terminal {
    /// The selector as a number: 0 for the head, 1 for the tail.
    pub open spec fn ix(self) -> int {
        match self {
            Terminal::Head => 0,
            Terminal::Tail => 1,
        }
    }

    /// The other end.
    #[inline]
    pub fn opposite(&self) -> (other: Self)
        ensures
            other != *self,
            other.ix() == 1 - self.ix(),
    {
        match *self {
            Terminal::Head => Terminal::Tail,
            Terminal::Tail => Terminal::Head,
        }
    }

    /// The position of this end in a two-slot link record.
    #[inline]
    pub fn index(&self) -> (i: usize)
        ensures
            i == self.ix(),
    {
        match *self {
            Terminal::Head => 0,
            Terminal::Tail => 1,
        }
    }
}

/// An arena slot: one value and the arena indices of its two neighbours.
#[derive(Debug)]
pub struct Node<T> {
    /// Previous, next.
    link: [usize; 2],
    pub value: T,
}

impl<T: Clone> Clone for Node<T> {
    /// A node with the same links and a clone of the value.
    fn clone(&self) -> (copy: Self)
        ensures
            copy.links() == self.links(),
            cloned::<T>(self.held(), copy.held()),
    {
        Node { link: self.link, value: self.value.clone() }
    }
}

impl<T> Node<T> {
    /// The previous and the next link.
    pub closed spec fn links(&self) -> Seq<usize> {
        self.link@
    }

    /// The value.
    pub closed spec fn held(&self) -> T {
        self.value
    }

    /// A node that holds `value` between the slots `prev` and `next`.
    fn new(value: T, prev: usize, next: usize) -> (node: Self)
        ensures
            node.value == value,
            node.link@[0] == prev,
            node.link@[1] == next,
    {
        Node { value: value, link: [prev, next] }
    }

    /// The slot of the previous node, or `END`.
    fn prev(&self) -> (index: usize)
        ensures
            index == self.link@[0],
    {
        self.link[0]
    }

    /// The slot of the next node, or `END`.
    fn next(&self) -> (index: usize)
        ensures
            index == self.link@[1],
    {
        self.link[1]
    }

    /// Points the previous link at `index`.
    fn set_prev(&mut self, index: usize)
        ensures
            final(self).value == old(self).value,
            final(self).link@[0] == index,
            final(self).link@[1] == old(self).link@[1],
    {
        self.link[0] = index;
    }

    /// Points the next link at `index`.
    fn set_next(&mut self, index: usize)
        ensures
            final(self).value == old(self).value,
            final(self).link@[0] == old(self).link@[0],
            final(self).link@[1] == index,
    {
        self.link[1] = index;
    }
}

/// The neighbour on side `side` (0 toward the head, 1 toward the tail) of the
/// element at position `k` when the elements lie in the slots `order`.
spec fn neighbour(order: Seq<usize>, k: int, side: int) -> usize {
    if side == 0 {
        if k == 0 {
            END
        } else {
            order[k - 1]
        }
    } else {
        if k == order.len() - 1 {
            END
        } else {
            order[k + 1]
        }
    }
}

/// The slot of the first (side 0) or last (side 1) element, `END` when there
/// is none.
spec fn terminal(order: Seq<usize>, side: int) -> usize {
    if order.len() == 0 {
        END
    } else if side == 0 {
        order[0]
    } else {
        order[order.len() - 1]
    }
}

/// `order` lists each of the slots `0..order.len()` once, and `place` is its
/// inverse.
spec fn inverse(order: Seq<usize>, place: Seq<int>) -> bool {
    &&& order.len() == place.len()
    &&& forall|k: int|
        0 <= k < order.len() ==> 0 <= #[trigger] order[k] < order.len() && place[order[k] as int]
            == k
    &&& forall|i: int|
        0 <= i < place.len() ==> 0 <= #[trigger] place[i] < place.len() && order[place[i]] == i
}

/// A doubly linked list stored in one contiguous allocation.
///
/// The list is a vector of nodes and the indices of its head and tail. Each
/// node holds the vector indices of its previous and next node, `END` where
/// there is none. An index is a position in a packed array, not an identity:
/// removal moves the last slot into the freed one.
pub struct List<T> {
    /// Head, tail.
    link: [usize; 2],
    nodes: Vec<Node<T>>,
    /// The slot of each element, in list order.
    order: Ghost<Seq<usize>>,
    /// The list position of the element in each slot.
    place: Ghost<Seq<int>>,
}

impl<T: Clone> Clone for List<T> {
    /// A list of clones of the elements, in the same order and in the same
    /// slots.
    fn clone(&self) -> (copy: Self)
        ensures
            self.wf() ==> copy.wf() && copy.same_layout(self),
            self.wf() ==> forall|k: int|
                0 <= k < self@.len() ==> cloned::<T>(#[trigger] self@[k], copy@[k]),
    {
        let copy = List {
            link: self.link,
            nodes: self.nodes.clone(),
            order: self.order,
            place: self.place,
        };
        proof {
            if self.wf() {
                assert forall|i: int| 0 <= i < self.nodes@.len() implies (
                #[trigger] copy.nodes@[i]).link@ == self.nodes@[i].link@ && cloned::<T>(
                    self.nodes@[i].value,
                    copy.nodes@[i].value,
                ) by {
                    assert(cloned::<Node<T>>(self.nodes@[i], copy.nodes@[i]));
                }
                assert(copy.wf());
                assert forall|k: int| 0 <= k < self@.len() implies cloned::<T>(
                    #[trigger] self@[k],
                    copy@[k],
                ) by {
                    assert(self.order@[k] < self.nodes@.len());
                }
            }
        }
        copy
    }
}

impl<T> View for List<T> {
    type V = Seq<T>;

    /// The elements from head to tail.
    closed spec fn view(&self) -> Seq<T> {
        List::values(self.nodes@, self.order@)
    }
}

impl<T> List<T> {
    /// Every node links to the slots of its neighbours in list order.
    spec fn chained(nodes: Seq<Node<T>>, order: Seq<usize>, place: Seq<int>) -> bool {
        forall|i: int|
            0 <= i < nodes.len() ==> (#[trigger] nodes[i]).link@[0] == neighbour(order, place[i], 0)
                && nodes[i].link@[1] == neighbour(order, place[i], 1)
    }

    /// The link structure is sound: following the next links from the head
    /// visits every slot of the arena once and stops at the tail, and the
    /// previous links from the tail walk the same path backward.
    pub closed spec fn wf(&self) -> bool {
        Self::sound(self.nodes@, self.link@, self.order@, self.place@)
    }

    /// What `wf` asks of the arena `nodes` and the head and tail in `ends`,
    /// when the elements lie in the slots `order`.
    spec fn sound(nodes: Seq<Node<T>>, ends: Seq<usize>, order: Seq<usize>, place: Seq<int>) -> bool {
        &&& nodes.len() == order.len()
        &&& inverse(order, place)
        &&& Self::chained(nodes, order, place)
        &&& ends[0] == terminal(order, 0)
        &&& ends[1] == terminal(order, 1)
    }

    /// The values of `nodes` read in the order of the slots `order`.
    spec fn values(nodes: Seq<Node<T>>, order: Seq<usize>) -> Seq<T> {
        Seq::new(order.len(), |k: int| nodes[order[k] as int].value)
    }

    /// The arena slot that holds the element at position `k`.
    pub closed spec fn slot(&self, k: int) -> int {
        self.order@[k] as int
    }

    /// The two lists hold their elements in the same slots.
    pub open spec fn same_layout(&self, other: &List<T>) -> bool {
        &&& self@.len() == other@.len()
        &&& forall|k: int| 0 <= k < self@.len() ==> self.slot(k) == other.slot(k)
    }

    /// Where the node of slot `slot` lies once the node of slot `hole` has
    /// been removed from an arena whose last slot is `last`: removal moves
    /// the last slot into the hole and leaves the others where they are.
    pub open spec fn relocated(slot: int, last: int, hole: int) -> int {
        if slot == last {
            hole
        } else {
            slot
        }
    }

    /// A cursor may stand at `pos`: it is the slot of an element, or `END`.
    pub closed spec fn anchors(&self, pos: usize) -> bool {
        pos == END || pos < self.nodes@.len()
    }

    /// The list position that a cursor at `pos` stands before: the position
    /// of the element in that slot, or the length of the list for `END`.
    pub closed spec fn rank(&self, pos: usize) -> int {
        if pos < self.nodes@.len() {
            self.place@[pos as int]
        } else {
            self.order@.len() as int
        }
    }

    /// A cursor stands at `END` exactly when it stands after the last
    /// element; anywhere else its slot is the slot of the element that it
    /// stands before.
    pub proof fn lemma_rank(&self, pos: usize)
        requires
            self.wf(),
            self.anchors(pos),
        ensures
            0 <= self.rank(pos) <= self@.len(),
            pos == END <==> self.rank(pos) == self@.len(),
            pos != END ==> self.slot(self.rank(pos)) == pos,
            pos != END ==> pos < self@.len(),
    {
        assert(self.nodes@.len() == self.nodes.len());
        if pos != END {
            assert(self.order@[self.place@[pos as int]] == pos);
        }
    }

    /// The arena lies in list order: each element is in the slot of its
    /// position.
    pub open spec fn is_linear(&self) -> bool {
        forall|k: int| 0 <= k < self@.len() ==> self.slot(k) == k
    }

    /// Creates an empty list.
    pub fn new() -> (list: Self)
        ensures
            list.wf(),
            list@ == Seq::<T>::empty(),
    {
        List::with_capacity(0)
    }

    /// Creates an empty list with room for `cap` elements, where that much
    /// room can be had.
    pub fn with_capacity(cap: usize) -> (list: Self)
        ensures
            list.wf(),
            list@ == Seq::<T>::empty(),
    {
        let mut nodes = Vec::new();
        let _ = nodes.try_reserve(cap);
        let list = List {
            link: [END; 2],
            nodes: nodes,
            order: Ghost(Seq::empty()),
            place: Ghost(Seq::empty()),
        };
        assert(list@ =~= Seq::<T>::empty());
        list
    }

    /// The slot of the first element, or `END`.
    fn head(&self) -> (index: usize)
        ensures
            index == self.link@[0],
    {
        self.link[0]
    }

    /// The slot of the last element, or `END`.
    fn tail(&self) -> (index: usize)
        ensures
            index == self.link@[1],
    {
        self.link[1]
    }

    /// The number of elements in the list.
    pub fn len(&self) -> (n: usize)
        requires
            self.wf(),
        ensures
            n == self@.len(),
    {
        self.nodes.len()
    }

    /// Writes `value` into a new slot at the end of the arena and links it
    /// in as the new head or the new tail.
    fn push_terminal(&mut self, value: T, term: Terminal)
        requires
            old(self).wf(),
        ensures
            final(self).wf(),
            final(self)@ == match term {
                Terminal::Head => seq![value] + old(self)@,
                Terminal::Tail => old(self)@.push(value),
            },
            final(self).slot(
                match term {
                    Terminal::Head => 0,
                    Terminal::Tail => old(self)@.len() as int,
                },
            ) == old(self)@.len(),
            forall|k: int|
                0 <= k < old(self)@.len() ==> final(self).slot(k + 1 - term.ix()) == old(self).slot(k),
    {
        let t = term.index();
        let index = self.nodes.len();
        let mut node = Node::new(value, END, END);
        let end = self.link[t];
        node.link[1 - t] = end;
        if end < self.nodes.len() {
            self.nodes[end].link[t] = index;
        } else {
            // The list was empty.
            self.link[1 - t] = index;
        }
        self.link[t] = index;
        self.nodes.push(node);
        proof {
            let order = old(self).order@;
            let place = old(self).place@;
            match term {
                Terminal::Head => {
                    self.order@ = seq![index] + order;
                    self.place@ = Seq::new(index as nat + 1, |i: int| if i == index { 0 } else { place[i] + 1 });
                },
                Terminal::Tail => {
                    self.order@ = order.push(index);
                    self.place@ = place.push(index as int);
                },
            }
        }
        assert(self.wf());
        assert(self@ =~= match term {
            Terminal::Head => seq![value] + old(self)@,
            Terminal::Tail => old(self)@.push(value),
        });
    }

    /// Inserts an element at the beginning of the list.
    pub fn push_front(&mut self, value: T)
        requires
            old(self).wf(),
        ensures
            final(self).wf(),
            final(self)@ == seq![value] + old(self)@,
            final(self).slot(0) == old(self)@.len(),
            forall|k: int| 0 <= k < old(self)@.len() ==> final(self).slot(k + 1) == old(self).slot(k),
    {
        self.push_terminal(value, Terminal::Head)
    }

    /// Inserts an element at the end of the list.
    pub fn push_back(&mut self, value: T)
        requires
            old(self).wf(),
        ensures
            final(self).wf(),
            final(self)@ == old(self)@.push(value),
            final(self).slot(old(self)@.len() as int) == old(self)@.len(),
            forall|k: int| 0 <= k < old(self)@.len() ==> final(self).slot(k) == old(self).slot(k),
    {
        self.push_terminal(value, Terminal::Tail)
    }
}

} // verus!
