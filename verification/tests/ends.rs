use std::collections::VecDeque;

use ixlist::{List, Terminal, END};

fn values(l: &List<u32>) -> Vec<u32> {
    l.iter().cloned().collect()
}

#[test]
fn new_and_with_capacity_are_empty() {
    let a: List<u8> = List::new();
    let b: List<u8> = List::with_capacity(64);
    assert_eq!(a.len(), 0);
    assert_eq!(b.len(), 0);
    assert_eq!(a.iter().count(), 0);
    assert_eq!(b.iter().rev().count(), 0);
}

#[test]
fn terminal_selects_and_flips() {
    assert_eq!(Terminal::Head.index(), 0);
    assert_eq!(Terminal::Tail.index(), 1);
    assert_eq!(Terminal::Head.opposite(), Terminal::Tail);
    assert_eq!(Terminal::Tail.opposite(), Terminal::Head);
    assert_eq!(Terminal::Head.opposite().opposite(), Terminal::Head);
    assert_eq!(END, usize::MAX);
}

#[test]
fn len_is_net_count_of_pushes_and_pops() {
    let mut l = List::new();
    let mut net = 0usize;
    assert_eq!(l.len(), net);
    for round in 0..40u32 {
        match round % 7 {
            0 | 1 | 4 => {
                l.push_back(round);
                net += 1;
            }
            2 | 6 => {
                l.push_front(round);
                net += 1;
            }
            3 => {
                if l.pop_front().is_some() {
                    net -= 1;
                }
            }
            _ => {
                if l.pop_back().is_some() {
                    net -= 1;
                }
            }
        }
        assert_eq!(l.len(), net);
    }
    assert_eq!(net, 18);
    while l.pop_front().is_some() {
        net -= 1;
        assert_eq!(l.len(), net);
    }
    assert_eq!(net, 0);
}

#[test]
fn pop_on_empty_changes_nothing() {
    let mut l: List<u32> = List::new();
    assert_eq!(l.pop_front(), None);
    assert_eq!(l.pop_back(), None);
    assert_eq!(l.len(), 0);
    assert_eq!(values(&l), Vec::<u32>::new());
    l.push_back(7);
    assert_eq!(l.pop_back(), Some(7));
    assert_eq!(l.pop_back(), None);
    assert_eq!(l.pop_front(), None);
    assert_eq!(l.len(), 0);
    l.push_front(8);
    assert_eq!(values(&l), vec![8]);
}

#[test]
fn single_element_pops_from_either_end() {
    let mut l = List::new();
    l.push_front(5u32);
    assert_eq!(l.pop_back(), Some(5));
    assert_eq!(l.len(), 0);
    l.push_back(6);
    assert_eq!(l.pop_front(), Some(6));
    assert_eq!(l.len(), 0);
}

#[test]
fn pop_front_moves_the_last_slot_into_the_hole() {
    // Slots 0, 1, 2 hold 1, 2, 3. Popping 1 frees slot 0, and the node of 3,
    // the tail, moves there.
    let mut l = List::new();
    l.push_back(1u32);
    l.push_back(2);
    l.push_back(3);
    assert_eq!(l.pop_front(), Some(1));
    assert_eq!(values(&l), vec![2, 3]);
    assert_eq!(l.iter().rev().cloned().collect::<Vec<_>>(), vec![3, 2]);
    {
        let mut c = l.cursor();
        assert_eq!(c.pos, 1);
        assert_eq!(c.next(), Some(&mut 2));
        assert_eq!(c.pos, 0);
        assert_eq!(c.next(), Some(&mut 3));
        assert_eq!(c.pos, END);
    }
    l.push_back(4);
    l.push_front(0);
    assert_eq!(values(&l), vec![0, 2, 3, 4]);
}

#[test]
fn pop_back_moves_the_head_when_it_is_the_last_slot() {
    // Slots 0, 1, 2 hold 3, 2, 1: the head lies in the last slot.
    let mut l = List::new();
    l.push_front(3u32);
    l.push_front(2);
    l.push_front(1);
    assert_eq!(l.pop_back(), Some(3));
    assert_eq!(values(&l), vec![1, 2]);
    assert_eq!(l.cursor().pos, 0);
    assert_eq!(l.pop_back(), Some(2));
    assert_eq!(values(&l), vec![1]);
    assert_eq!(l.pop_front(), Some(1));
    assert_eq!(l.pop_front(), None);
}

#[test]
fn pop_of_the_last_slot_moves_nothing() {
    let mut l = List::new();
    l.push_back(1u32);
    l.push_back(2);
    l.push_back(3);
    assert_eq!(l.pop_back(), Some(3));
    assert_eq!(values(&l), vec![1, 2]);
    {
        let mut c = l.cursor();
        assert_eq!(c.pos, 0);
        c.next();
        assert_eq!(c.pos, 1);
    }
}

#[test]
fn agrees_with_a_deque_on_a_long_run() {
    let mut l = List::new();
    let mut model: VecDeque<u32> = VecDeque::new();
    let mut state: u32 = 12345;
    for step in 0..2000u32 {
        state = state.wrapping_mul(1664525).wrapping_add(1013904223);
        match (state >> 24) % 5 {
            0 | 1 => {
                l.push_back(step);
                model.push_back(step);
            }
            2 => {
                l.push_front(step);
                model.push_front(step);
            }
            3 => assert_eq!(l.pop_front(), model.pop_front()),
            _ => assert_eq!(l.pop_back(), model.pop_back()),
        }
        assert_eq!(l.len(), model.len());
        if step % 97 == 0 {
            assert_eq!(values(&l), model.iter().cloned().collect::<Vec<_>>());
            assert_eq!(
                l.iter().rev().cloned().collect::<Vec<_>>(),
                model.iter().rev().cloned().collect::<Vec<_>>()
            );
        }
    }
    assert_eq!(values(&l), model.iter().cloned().collect::<Vec<_>>());
}

#[test]
fn clone_is_a_list_of_its_own() {
    let mut l = List::new();
    l.push_back(1u32);
    l.push_front(0);
    let mut m = l.clone();
    m.push_back(2);
    assert_eq!(m.pop_front(), Some(0));
    assert_eq!(values(&l), vec![0, 1]);
    assert_eq!(values(&m), vec![1, 2]);
}

#[test]
fn extend_appends_in_order() {
    let mut l = List::new();
    l.push_front(2u32);
    l.push_front(1);
    l.extend(vec![3, 4, 5].into_iter());
    assert_eq!(values(&l), vec![1, 2, 3, 4, 5]);
    assert_eq!(l.iter().rev().cloned().collect::<Vec<_>>(), vec![5, 4, 3, 2, 1]);
    assert_eq!(l.len(), 5);
    assert_eq!(l.pop_back(), Some(5));
    assert_eq!(l.pop_front(), Some(1));
    assert_eq!(values(&l), vec![2, 3, 4]);
}

#[test]
fn extend_by_nothing_is_a_no_op_when_the_tail_is_not_the_last_slot() {
    // Slots 0, 1 hold 2, 1: the tail lies in slot 0.
    let mut l = List::new();
    l.push_front(2u32);
    l.push_front(1);
    l.extend(0..0);
    assert_eq!(values(&l), vec![1, 2]);
    assert_eq!(l.iter().rev().cloned().collect::<Vec<_>>(), vec![2, 1]);
    assert_eq!(l.len(), 2);
    l.push_back(3);
    assert_eq!(values(&l), vec![1, 2, 3]);
    assert_eq!(l.pop_back(), Some(3));
    assert_eq!(l.pop_back(), Some(2));
    assert_eq!(l.pop_back(), Some(1));
    assert_eq!(l.pop_back(), None);
}

#[test]
fn extend_is_repeated_push_back() {
    let mut a = List::new();
    let mut b = List::new();
    for start in [3u32, 1, 2] {
        a.push_front(start);
        b.push_front(start);
    }
    a.extend(10..20);
    for x in 10..20 {
        b.push_back(x);
    }
    assert_eq!(values(&a), values(&b));
    assert_eq!(a.len(), b.len());
    // The two arenas are laid out alike as well.
    let mut ca = a.cursor();
    let mut cb = b.cursor();
    for _ in 0..14 {
        assert_eq!(ca.pos, cb.pos);
        assert_eq!(ca.next(), cb.next());
    }
}

#[test]
fn extend_an_empty_list() {
    let mut l: List<u32> = List::new();
    l.extend(0..0);
    assert_eq!(l.len(), 0);
    assert_eq!(l.pop_front(), None);
    l.extend(1..4);
    assert_eq!(values(&l), vec![1, 2, 3]);
    assert_eq!(l.cursor().pos, 0);
}

#[test]
fn from_iter_of_nothing_is_empty() {
    let mut l: List<u32> = List::from_iter(Vec::new().into_iter());
    assert_eq!(l.len(), 0);
    assert_eq!(l.pop_back(), None);
    assert_eq!(l.cursor().pos, END);
}

#[test]
fn pops_relocate_only_the_last_slot() {
    let mut l = List::new();
    l.push_back(1u32);
    l.push_front(0);
    l.extend(2..6);
    assert_eq!(l.pop_front(), Some(0));
    assert_eq!(l.pop_back(), Some(5));
    assert_eq!(values(&l), vec![1, 2, 3, 4]);
    // The slot of each element, from head to tail.
    let mut slots = Vec::new();
    let mut c = l.cursor();
    loop {
        let at = c.pos;
        if c.next().is_none() {
            break;
        }
        slots.push(at);
    }
    assert_eq!(slots, vec![0, 2, 3, 1]);
}
