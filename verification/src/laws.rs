//! What holds of the list operations when they are combined.
//!
//! The operations are specified one call at a time, over the sequence of
//! elements that a list holds. The proofs here put calls together: they
//! speak of the same sequences and positions as those contracts.

use vstd::prelude::*;
use crate::list::cursor::Cursor;
use crate::list::{List, Terminal};

verus! {

/// A push or a pop at one end of a list.
pub enum EndOp<T> {
    PushFront(T),
    PushBack(T),
    PopFront,
    PopBack,
}

/// The elements of a list that held `s`, after `op`. A pop from an empty
/// list changes nothing.
pub open spec fn applied<T>(s: Seq<T>, op: EndOp<T>) -> Seq<T> {
    match op {
        EndOp::PushFront(value) => seq![value] + s,
        EndOp::PushBack(value) => s.push(value),
        EndOp::PopFront => if s.len() == 0 {
            s
        } else {
            s.drop_first()
        },
        EndOp::PopBack => if s.len() == 0 {
            s
        } else {
            s.drop_last()
        },
    }
}

/// The elements of a list that held `s`, after the operations `ops` in turn.
pub open spec fn run<T>(s: Seq<T>, ops: Seq<EndOp<T>>) -> Seq<T>
    decreases ops.len(),
{
    if ops.len() == 0 {
        s
    } else {
        run(applied(s, ops.first()), ops.drop_first())
    }
}

/// The net count of `ops` on a list of `len` elements: one more for each
/// push, one less for each pop that finds an element.
pub open spec fn net_count<T>(len: nat, ops: Seq<EndOp<T>>) -> nat
    decreases ops.len(),
{
    if ops.len() == 0 {
        len
    } else {
        let after: nat = match ops.first() {
            EndOp::PushFront(_) | EndOp::PushBack(_) => len + 1,
            EndOp::PopFront | EndOp::PopBack => if len == 0 {
                0
            } else {
                (len - 1) as nat
            },
        };
        net_count(after, ops.drop_first())
    }
}

/// However pushes and pops at the two ends are interleaved, the length of the
/// list is the net count of them.
pub proof fn lemma_len_is_net_count<T>(s: Seq<T>, ops: Seq<EndOp<T>>)
    ensures
        run(s, ops).len() == net_count(s.len(), ops),
    decreases ops.len(),
{
    if ops.len() > 0 {
        lemma_len_is_net_count(applied(s, ops.first()), ops.drop_first());
    }
}

/// The elements of a list that held `s`, after each of `items` was pushed at
/// the back in turn.
pub open spec fn pushed_back<T>(s: Seq<T>, items: Seq<T>) -> Seq<T>
    decreases items.len(),
{
    if items.len() == 0 {
        s
    } else {
        pushed_back(s.push(items.first()), items.drop_first())
    }
}

/// Appending a sequence in one pass leaves the elements that pushing its
/// items at the back one by one leaves.
pub proof fn lemma_extend_is_pushes<T>(s: Seq<T>, items: Seq<T>)
    ensures
        s + items == pushed_back(s, items),
    decreases items.len(),
{
    if items.len() == 0 {
        assert(s + items =~= s);
    } else {
        lemma_extend_is_pushes(s.push(items.first()), items.drop_first());
        assert(s.push(items.first()) + items.drop_first() =~= s + items);
    }
}

/// What an iterator over `s` gives when it is stepped from the front until
/// nothing is left.
pub open spec fn from_front<T>(s: Seq<T>) -> Seq<T>
    decreases s.len(),
{
    if s.len() == 0 {
        Seq::empty()
    } else {
        seq![s.first()] + from_front(s.drop_first())
    }
}

/// What an iterator over `s` gives when it is stepped from the back until
/// nothing is left.
pub open spec fn from_back<T>(s: Seq<T>) -> Seq<T>
    decreases s.len(),
{
    if s.len() == 0 {
        Seq::empty()
    } else {
        seq![s.last()] + from_back(s.drop_last())
    }
}

/// Walking a list from the front gives its elements in order.
pub proof fn lemma_from_front<T>(s: Seq<T>)
    ensures
        from_front(s) == s,
    decreases s.len(),
{
    if s.len() > 0 {
        lemma_from_front(s.drop_first());
        assert(seq![s.first()] + s.drop_first() =~= s);
    } else {
        assert(s =~= Seq::empty());
    }
}

/// Walking a list from the back gives its elements in reverse.
pub proof fn lemma_from_back<T>(s: Seq<T>)
    ensures
        from_back(s) == s.reverse(),
    decreases s.len(),
{
    if s.len() > 0 {
        lemma_from_back(s.drop_last());
        assert(seq![s.last()] + s.drop_last().reverse() =~= s.reverse());
    } else {
        assert(s.reverse() =~= Seq::empty());
    }
}

/// What a walk from the front collects and what a walk from the back
/// collects are exact reverses of each other.
pub proof fn lemma_walks_are_reverses<T>(s: Seq<T>)
    ensures
        from_back(s) == from_front(s).reverse(),
        from_front(s) == from_back(s).reverse(),
{
    lemma_from_front(s);
    lemma_from_back(s);
    assert(s.reverse().reverse() =~= s);
}

/// The list positions that a double-ended walk over the window from `lo` to
/// `hi` takes, when each step is made at the end that `ends` names for it.
pub open spec fn visited(lo: int, hi: int, ends: Seq<Terminal>) -> Seq<int>
    decreases ends.len(),
{
    if ends.len() == 0 || lo >= hi {
        Seq::empty()
    } else {
        match ends.first() {
            Terminal::Head => seq![lo] + visited(lo + 1, hi, ends.drop_first()),
            Terminal::Tail => seq![hi - 1] + visited(lo, hi - 1, ends.drop_first()),
        }
    }
}

/// However steps from the front and from the back are interleaved, a walk
/// that is stepped until nothing is left takes every position of its window
/// once: as many steps find an element as the window has positions, each
/// position is taken, and none is taken twice.
pub proof fn lemma_visits_each_once(lo: int, hi: int, ends: Seq<Terminal>)
    requires
        lo <= hi,
        ends.len() >= hi - lo,
    ensures
        visited(lo, hi, ends).len() == hi - lo,
        visited(lo, hi, ends).no_duplicates(),
        forall|i: int|
            0 <= i < visited(lo, hi, ends).len() ==> lo <= #[trigger] visited(lo, hi, ends)[i] < hi,
        forall|p: int| lo <= p < hi ==> visited(lo, hi, ends).contains(p),
    decreases ends.len(),
{
    if ends.len() > 0 && lo < hi {
        let v = visited(lo, hi, ends);
        match ends.first() {
            Terminal::Head => {
                let rest = visited(lo + 1, hi, ends.drop_first());
                lemma_visits_each_once(lo + 1, hi, ends.drop_first());
                assert(v == seq![lo] + rest);
                assert(v[0] == lo);
                assert forall|i: int| 1 <= i < v.len() implies v[i] == rest[i - 1] by {}
                assert forall|p: int| lo <= p < hi implies v.contains(p) by {
                    if p == lo {
                        assert(v[0] == p);
                    } else {
                        assert(rest.contains(p));
                        let i = choose|i: int| 0 <= i < rest.len() && rest[i] == p;
                        assert(v[i + 1] == p);
                    }
                }
            },
            Terminal::Tail => {
                let rest = visited(lo, hi - 1, ends.drop_first());
                lemma_visits_each_once(lo, hi - 1, ends.drop_first());
                assert(v == seq![hi - 1] + rest);
                assert(v[0] == hi - 1);
                assert forall|i: int| 1 <= i < v.len() implies v[i] == rest[i - 1] by {}
                assert forall|p: int| lo <= p < hi implies v.contains(p) by {
                    if p == hi - 1 {
                        assert(v[0] == p);
                    } else {
                        assert(rest.contains(p));
                        let i = choose|i: int| 0 <= i < rest.len() && rest[i] == p;
                        assert(v[i + 1] == p);
                    }
                }
            },
        }
    }
}

/// The position of a cursor after `steps` calls of `next`, on a list of
/// `len` elements.
pub open spec fn stepped_by<T>(len: int, index: int, steps: nat) -> int
    decreases steps,
{
    if steps == 0 {
        index
    } else {
        stepped_by::<T>(len, Cursor::<T>::stepped(len, index), (steps - 1) as nat)
    }
}

/// How many of `steps` calls of `next` find the cursor at the virtual slot
/// and return `None`.
pub open spec fn wraps_in<T>(len: int, index: int, steps: nat) -> nat
    decreases steps,
{
    if steps == 0 {
        0
    } else {
        let here: nat = if index == len {
            1
        } else {
            0
        };
        here + wraps_in::<T>(len, Cursor::<T>::stepped(len, index), (steps - 1) as nat)
    }
}

/// Stepping forward moves a cursor that is not yet at the virtual slot
/// straight ahead.
proof fn lemma_steps_ahead<T>(len: int, index: int, steps: nat)
    requires
        0 <= index,
        index + steps <= len,
    ensures
        stepped_by::<T>(len, index, steps) == index + steps,
        wraps_in::<T>(len, index, steps) == 0,
    decreases steps,
{
    if steps > 0 {
        lemma_steps_ahead::<T>(len, index + 1, (steps - 1) as nat);
    }
}

/// One full revolution: on a list of `len` elements, `len + 1` calls of
/// `next` bring a cursor back to where it stood, and exactly one of them
/// returns `None`.
pub proof fn lemma_revolution<T>(len: int, index: int)
    requires
        0 <= index <= len,
    ensures
        stepped_by::<T>(len, index, (len + 1) as nat) == index,
        wraps_in::<T>(len, index, (len + 1) as nat) == 1,
{
    // To the virtual slot, over the wrap, and from the head back to `index`.
    lemma_steps_ahead::<T>(len, index, (len - index) as nat);
    lemma_steps_ahead::<T>(len, 0, index as nat);
    lemma_steps_join::<T>(len, index, (len - index) as nat, (index + 1) as nat);
    assert(stepped_by::<T>(len, len, (index + 1) as nat) == stepped_by::<T>(len, 0, index as nat));
    assert(wraps_in::<T>(len, len, (index + 1) as nat) == 1 + wraps_in::<T>(len, 0, index as nat));
}

/// Steps taken one run after another add up.
proof fn lemma_steps_join<T>(len: int, index: int, first: nat, then: nat)
    ensures
        stepped_by::<T>(len, index, first + then) == stepped_by::<T>(
            len,
            stepped_by::<T>(len, index, first),
            then,
        ),
        wraps_in::<T>(len, index, first + then) == wraps_in::<T>(len, index, first) + wraps_in::<T>(
            len,
            stepped_by::<T>(len, index, first),
            then,
        ),
    decreases first,
{
    if first > 0 {
        lemma_steps_join::<T>(len, Cursor::<T>::stepped(len, index), (first - 1) as nat, then);
        assert((first + then - 1) as nat == (first - 1) as nat + then);
    }
}

/// Linearizing is idempotent: a second call in a row finds the list as the
/// first left it, with the same elements in the same slots.
pub proof fn lemma_linearize_idempotent<T>(start: List<T>, once: List<T>, twice: List<T>)
    requires
        once@ == start@,
        once.is_linear(),
        twice@ == once@,
        twice.is_linear(),
    ensures
        twice@ == once@,
        forall|k: int| 0 <= k < once@.len() ==> twice.slot(k) == once.slot(k),
{
}

} // verus!
