use ixlist::List;

fn sample() -> List<i32> {
    // 3 and 4 are pushed at the back, 2, 1, 0 at the front: the arena is not
    // in list order.
    let mut l = List::new();
    l.push_back(3);
    l.push_front(2);
    l.push_back(4);
    l.push_front(1);
    l.push_front(0);
    l
}

#[test]
fn forward_and_backward_are_reverses() {
    let l = sample();
    let forward: Vec<i32> = l.iter().cloned().collect();
    let mut backward: Vec<i32> = l.iter().rev().cloned().collect();
    assert_eq!(forward, vec![0, 1, 2, 3, 4]);
    assert_eq!(backward, vec![4, 3, 2, 1, 0]);
    backward.reverse();
    assert_eq!(forward, backward);
}

#[test]
fn iter_of_an_empty_list_gives_nothing() {
    let l: List<i32> = List::new();
    let mut it = l.iter();
    assert_eq!(it.size_hint(), (0, Some(0)));
    assert_eq!(it.next(), None);
    assert_eq!(it.next_back(), None);
    assert_eq!(it.next(), None);
    assert_eq!(it.size_hint(), (0, Some(0)));
}

#[test]
fn iter_meets_in_the_middle() {
    let l = sample();
    let mut it = l.iter();
    assert_eq!(it.size_hint(), (5, Some(5)));
    assert_eq!(it.next(), Some(&0));
    assert_eq!(it.next_back(), Some(&4));
    assert_eq!(it.size_hint(), (3, Some(3)));
    assert_eq!(it.next_back(), Some(&3));
    assert_eq!(it.next(), Some(&1));
    assert_eq!(it.size_hint(), (1, Some(1)));
    assert_eq!(it.next_back(), Some(&2));
    assert_eq!(it.size_hint(), (0, Some(0)));
    assert_eq!(it.next(), None);
    assert_eq!(it.next_back(), None);
    assert_eq!(it.next(), None);
}

#[test]
fn iter_is_a_copy() {
    let l = sample();
    let mut it = l.iter();
    assert_eq!(it.next(), Some(&0));
    let mut other = it;
    assert_eq!(it.next(), Some(&1));
    assert_eq!(other.next(), Some(&1));
    assert_eq!(other.clone().count(), 3);
}

#[test]
fn iter_of_one_element_from_the_back() {
    let mut l = List::new();
    l.push_back(9);
    let mut it = l.iter();
    assert_eq!(it.next_back(), Some(&9));
    assert_eq!(it.next(), None);
    assert_eq!(it.next_back(), None);
}

#[test]
fn iter_mut_visits_each_element_once() {
    for pattern in 0..32u32 {
        let mut l = sample();
        let mut seen = Vec::new();
        {
            let mut it = l.iter_mut();
            let mut step = 0;
            loop {
                let from_back = (pattern >> step) & 1 == 1;
                let item = if from_back { it.next_back() } else { it.next() };
                match item {
                    Some(x) => {
                        seen.push(*x);
                        *x += 100;
                    }
                    None => break,
                }
                step += 1;
            }
            assert_eq!(step, 5);
            assert_eq!(it.next(), None);
            assert_eq!(it.next_back(), None);
        }
        seen.sort();
        assert_eq!(seen, vec![0, 1, 2, 3, 4]);
        assert_eq!(l.iter().cloned().collect::<Vec<_>>(), vec![100, 101, 102, 103, 104]);
    }
}

#[test]
fn iter_mut_writes_are_seen_by_iter() {
    let mut l = sample();
    {
        let mut it = l.iter_mut();
        assert_eq!(it.size_hint(), (5, Some(5)));
        *it.next().unwrap() = 10;
        *it.next_back().unwrap() = 14;
        assert_eq!(it.size_hint(), (3, Some(3)));
        assert_eq!(it.next(), Some(&mut 1));
    }
    assert_eq!(l.iter().cloned().collect::<Vec<_>>(), vec![10, 1, 2, 3, 14]);
    assert_eq!(l.iter().rev().cloned().collect::<Vec<_>>(), vec![14, 3, 2, 1, 10]);
    assert_eq!(l.len(), 5);
}

#[test]
fn iter_mut_reverses_in_place() {
    let mut l = sample();
    let values: Vec<i32> = l.iter().cloned().collect();
    {
        let mut it = l.iter_mut();
        let mut left = values.len();
        while let Some(x) = it.next_back() {
            *x = values[values.len() - left];
            left -= 1;
        }
        assert_eq!(left, 0);
    }
    assert_eq!(l.iter().cloned().collect::<Vec<_>>(), vec![4, 3, 2, 1, 0]);
    assert_eq!(l.iter().rev().cloned().collect::<Vec<_>>(), vec![0, 1, 2, 3, 4]);
}

#[test]
fn iter_mut_of_an_empty_list_gives_nothing() {
    let mut l: List<i32> = List::new();
    let mut it = l.iter_mut();
    assert_eq!(it.size_hint(), (0, Some(0)));
    assert_eq!(it.next(), None);
    assert_eq!(it.next_back(), None);
}
