use dllist::dllist::DLList;

#[test]
fn back_scenario_pops_in_reverse() {
    let mut list = DLList::new();
    list.push_back(1);
    list.push_back(2);
    list.push_back(3);
    list.push_back(4);
    assert_eq!(list.size(), 4);
    assert_eq!(list.pop_back(), Some(4));
    assert_eq!(list.size(), 3);
    assert_eq!(list.pop_back(), Some(3));
    assert_eq!(list.size(), 2);
    assert_eq!(list.pop_back(), Some(2));
    assert_eq!(list.size(), 1);
    assert_eq!(list.pop_back(), Some(1));
    assert_eq!(list.size(), 0);
    assert_eq!(list.pop_back(), None);
    assert_eq!(list.size(), 0);
}

#[test]
fn front_scenario_pops_in_reverse() {
    let mut list = DLList::new();
    list.push_front(1);
    list.push_front(2);
    list.push_front(3);
    list.push_front(4);
    assert_eq!(list.size(), 4);
    assert_eq!(list.pop_front(), Some(4));
    assert_eq!(list.size(), 3);
    assert_eq!(list.pop_front(), Some(3));
    assert_eq!(list.size(), 2);
    assert_eq!(list.pop_front(), Some(2));
    assert_eq!(list.size(), 1);
    assert_eq!(list.pop_front(), Some(1));
    assert_eq!(list.size(), 0);
    assert_eq!(list.pop_front(), None);
    assert_eq!(list.size(), 0);
}

#[test]
fn new_list_is_empty() {
    let list: DLList<i32> = DLList::new();
    assert_eq!(list.size(), 0);
    assert_eq!(list.values(), Vec::<i32>::new());
    assert_eq!(list.values_rev(), Vec::<i32>::new());
}

#[test]
fn size_counts_pushes_at_both_ends() {
    let mut list = DLList::new();
    for i in 0..10u32 {
        if i % 3 == 0 {
            list.push_front(i);
        } else {
            list.push_back(i);
        }
        assert_eq!(list.size(), (i + 1) as usize);
    }
    assert_eq!(list.size(), 10);
}

#[test]
fn pop_on_empty_gives_none() {
    let mut list: DLList<u8> = DLList::new();
    assert_eq!(list.pop_front(), None);
    assert_eq!(list.size(), 0);
    assert_eq!(list.pop_back(), None);
    assert_eq!(list.size(), 0);
}

#[test]
fn zero_value_is_not_absent() {
    let mut list = DLList::new();
    list.push_back(0i64);
    assert_eq!(list.pop_front(), Some(0));
    assert_eq!(list.pop_front(), None);
}

#[test]
fn push_front_pop_front_is_lifo() {
    let mut list = DLList::new();
    list.push_front('a');
    list.push_front('b');
    list.push_front('c');
    assert_eq!(list.pop_front(), Some('c'));
    assert_eq!(list.pop_front(), Some('b'));
    assert_eq!(list.pop_front(), Some('a'));
    assert_eq!(list.size(), 0);
}

#[test]
fn push_back_pop_front_is_fifo() {
    let mut list = DLList::new();
    list.push_back('a');
    list.push_back('b');
    list.push_back('c');
    assert_eq!(list.pop_front(), Some('a'));
    assert_eq!(list.pop_front(), Some('b'));
    assert_eq!(list.pop_front(), Some('c'));
    assert_eq!(list.size(), 0);
}

#[test]
fn push_front_pop_back_is_fifo() {
    let mut list = DLList::new();
    list.push_front('a');
    list.push_front('b');
    list.push_front('c');
    assert_eq!(list.pop_back(), Some('a'));
    assert_eq!(list.pop_back(), Some('b'));
    assert_eq!(list.pop_back(), Some('c'));
    assert_eq!(list.size(), 0);
}

#[test]
fn single_element_pops_from_either_end() {
    let mut list = DLList::new();
    list.push_front(7u16);
    assert_eq!(list.values(), vec![7]);
    assert_eq!(list.values_rev(), vec![7]);
    assert_eq!(list.pop_back(), Some(7));
    assert_eq!(list.pop_front(), None);
    list.push_back(8u16);
    assert_eq!(list.pop_front(), Some(8));
    assert_eq!(list.pop_back(), None);
}

#[test]
fn mixed_operations_keep_both_walks_consistent() {
    let mut list = DLList::new();
    let mut model: std::collections::VecDeque<u32> = std::collections::VecDeque::new();
    let mut seed: u32 = 12345;
    for step in 0..400u32 {
        seed = seed.wrapping_mul(1103515245).wrapping_add(12345);
        match (seed >> 16) % 4 {
            0 => {
                list.push_front(step);
                model.push_front(step);
            }
            1 => {
                list.push_back(step);
                model.push_back(step);
            }
            2 => assert_eq!(list.pop_front(), model.pop_front()),
            _ => assert_eq!(list.pop_back(), model.pop_back()),
        }
        let forward: Vec<u32> = model.iter().copied().collect();
        let mut backward = forward.clone();
        backward.reverse();
        assert_eq!(list.size(), model.len());
        assert_eq!(list.values(), forward);
        assert_eq!(list.values_rev(), backward);
    }
}

#[test]
fn interior_pops_keep_order() {
    let mut list = DLList::new();
    for v in 1..=5 {
        list.push_back(v);
    }
    assert_eq!(list.pop_front(), Some(1));
    list.push_front(0);
    assert_eq!(list.pop_back(), Some(5));
    list.push_back(6);
    assert_eq!(list.values(), vec![0, 2, 3, 4, 6]);
    assert_eq!(list.values_rev(), vec![6, 4, 3, 2, 0]);
}

#[test]
fn repeated_cycles_return_to_empty() {
    let mut list = DLList::new();
    for round in 0..50u64 {
        for i in 0..20u64 {
            if i % 2 == 0 {
                list.push_back(round * 100 + i);
            } else {
                list.push_front(round * 100 + i);
            }
        }
        assert_eq!(list.size(), 20);
        for i in 0..20u64 {
            let got = if i % 2 == 0 { list.pop_front() } else { list.pop_back() };
            assert!(got.is_some());
        }
        assert_eq!(list.size(), 0);
        assert_eq!(list.values(), Vec::<u64>::new());
        assert_eq!(list.pop_front(), None);
    }
}
