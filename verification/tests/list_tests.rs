use doubly_linked_list::List;

fn drain_front(list: &mut List<i32>) -> Vec<i32> {
    let mut out = Vec::new();
    while let Some(value) = list.pop_front() {
        out.push(value);
    }
    out
}

fn drain_back(list: &mut List<i32>) -> Vec<i32> {
    let mut out = Vec::new();
    while let Some(value) = list.pop_back() {
        out.push(value);
    }
    out
}

#[test]
fn new_list_is_empty() {
    let mut list: List<i32> = List::new();
    assert_eq!(list.pop_front(), None);
    assert_eq!(list.pop_back(), None);
}

#[test]
fn pops_on_empty_list_change_nothing() {
    let mut list: List<u8> = List::new();
    for _ in 0..3 {
        assert_eq!(list.pop_front(), None);
        assert_eq!(list.pop_back(), None);
    }
    list.push_back(7);
    assert_eq!(list.pop_front(), Some(7));
    assert_eq!(list.pop_front(), None);
    assert_eq!(list.pop_back(), None);
}

#[test]
fn push_front_is_last_in_first_out() {
    let mut list = List::new();
    list.push_front(1);
    list.push_front(2);
    assert_eq!(list.pop_front(), Some(2));
    assert_eq!(list.pop_front(), Some(1));
    assert_eq!(list.pop_front(), None);
}

#[test]
fn push_back_is_last_in_first_out_at_the_back() {
    let mut list = List::new();
    list.push_back('a');
    list.push_back('b');
    assert_eq!(list.pop_back(), Some('b'));
    assert_eq!(list.pop_back(), Some('a'));
    assert_eq!(list.pop_back(), None);
}

#[test]
fn push_back_then_pop_front_is_first_in_first_out() {
    let mut list = List::new();
    list.push_back(1);
    list.push_back(2);
    assert_eq!(list.pop_front(), Some(1));
    assert_eq!(list.pop_front(), Some(2));
    assert_eq!(list.pop_front(), None);
}

#[test]
fn push_front_then_pop_back_is_first_in_first_out() {
    let mut list = List::new();
    list.push_front(1);
    list.push_front(2);
    assert_eq!(list.pop_back(), Some(1));
    assert_eq!(list.pop_back(), Some(2));
    assert_eq!(list.pop_back(), None);
}

#[test]
fn push_front_pop_front_round_trip() {
    let mut list = List::new();
    list.push_back(10);
    list.push_back(20);
    list.push_front(5);
    assert_eq!(list.pop_front(), Some(5));
    assert_eq!(drain_front(&mut list), vec![10, 20]);
}

#[test]
fn push_back_pop_back_round_trip() {
    let mut list = List::new();
    list.push_back(10);
    list.push_back(20);
    list.push_back(30);
    assert_eq!(list.pop_back(), Some(30));
    assert_eq!(drain_front(&mut list), vec![10, 20]);
}

#[test]
fn round_trip_on_empty_list_leaves_it_empty() {
    let mut list = List::new();
    list.push_front(1);
    assert_eq!(list.pop_front(), Some(1));
    assert_eq!(list.pop_front(), None);
    list.push_back(2);
    assert_eq!(list.pop_back(), Some(2));
    assert_eq!(list.pop_back(), None);
    assert_eq!(list.pop_front(), None);
}

#[test]
fn single_element_pop_front() {
    let mut list = List::new();
    list.push_front(9);
    assert_eq!(list.pop_front(), Some(9));
    assert_eq!(list.pop_front(), None);
    assert_eq!(list.pop_back(), None);
}

#[test]
fn single_element_pop_back() {
    let mut list = List::new();
    list.push_front(9);
    assert_eq!(list.pop_back(), Some(9));
    assert_eq!(list.pop_back(), None);
    assert_eq!(list.pop_front(), None);
}

#[test]
fn single_element_pushed_at_the_back() {
    let mut first = List::new();
    first.push_back(4);
    assert_eq!(first.pop_front(), Some(4));
    assert_eq!(first.pop_back(), None);
    let mut second = List::new();
    second.push_back(4);
    assert_eq!(second.pop_back(), Some(4));
    assert_eq!(second.pop_front(), None);
}

#[test]
fn mixed_sequence() {
    let mut list = List::new();
    list.push_back(1);
    list.push_back(2);
    list.push_front(0);
    assert_eq!(list.pop_front(), Some(0));
    assert_eq!(list.pop_back(), Some(2));
    assert_eq!(list.pop_front(), Some(1));
    assert_eq!(list.pop_front(), None);
    assert_eq!(list.pop_back(), None);
}

#[test]
fn forward_and_backward_orders_mirror() {
    let mut forward = List::new();
    let mut backward = List::new();
    for value in [3, 1, 4, 1, 5, 9, 2, 6] {
        forward.push_back(value);
        backward.push_back(value);
    }
    let front_first = drain_front(&mut forward);
    let mut back_first = drain_back(&mut backward);
    assert_eq!(front_first, vec![3, 1, 4, 1, 5, 9, 2, 6]);
    back_first.reverse();
    assert_eq!(back_first, front_first);
}

#[test]
fn fill_then_drain_returns_every_value_once() {
    let mut list = List::new();
    let mut inserted = Vec::new();
    for value in 0..50 {
        if value % 3 == 0 {
            list.push_front(value);
        } else {
            list.push_back(value);
        }
        inserted.push(value);
    }
    let mut removed = Vec::new();
    for turn in 0..50 {
        let value = if turn % 2 == 0 { list.pop_front() } else { list.pop_back() };
        assert!(value.is_some());
        removed.push(value.unwrap());
    }
    assert_eq!(list.pop_front(), None);
    assert_eq!(list.pop_back(), None);
    removed.sort();
    assert_eq!(removed, inserted);
}

#[test]
fn list_is_not_empty_before_the_last_removal() {
    let mut list = List::new();
    list.push_front(1);
    list.push_back(2);
    list.push_front(3);
    assert_eq!(list.pop_back(), Some(2));
    assert_eq!(list.pop_back(), Some(1));
    assert_eq!(list.pop_back(), Some(3));
    assert_eq!(list.pop_back(), None);
}

#[test]
fn duplicate_values_are_kept_apart() {
    let mut list = List::new();
    list.push_back(7);
    list.push_back(7);
    list.push_front(7);
    assert_eq!(list.pop_front(), Some(7));
    assert_eq!(list.pop_back(), Some(7));
    assert_eq!(list.pop_front(), Some(7));
    assert_eq!(list.pop_front(), None);
}

#[test]
fn storage_is_reused_after_removal() {
    let mut list = List::new();
    for round in 0..100 {
        list.push_back(round);
        list.push_back(round + 1000);
        list.push_front(round + 2000);
        assert_eq!(list.pop_back(), Some(round + 1000));
        assert_eq!(list.pop_front(), Some(round + 2000));
    }
    let expected: Vec<i32> = (0..100).collect();
    assert_eq!(drain_front(&mut list), expected);
    list.push_front(5);
    list.push_back(6);
    assert_eq!(drain_back(&mut list), vec![6, 5]);
}

#[test]
fn interleaved_operations_agree_with_vecdeque() {
    let mut list = List::new();
    let mut expected = std::collections::VecDeque::new();
    let mut state: u32 = 12345;
    for _ in 0..2000 {
        state = state.wrapping_mul(1664525).wrapping_add(1013904223);
        let value = (state >> 8) as i32;
        match (state >> 28) % 4 {
            0 => {
                list.push_front(value);
                expected.push_front(value);
            }
            1 => {
                list.push_back(value);
                expected.push_back(value);
            }
            2 => assert_eq!(list.pop_front(), expected.pop_front()),
            _ => assert_eq!(list.pop_back(), expected.pop_back()),
        }
    }
    let rest: Vec<i32> = expected.into_iter().collect();
    assert_eq!(drain_front(&mut list), rest);
}

#[test]
fn list_of_pairs() {
    let mut list = List::new();
    list.push_back((1u8, true));
    list.push_front((2u8, false));
    assert_eq!(list.pop_back(), Some((1, true)));
    assert_eq!(list.pop_back(), Some((2, false)));
    assert_eq!(list.pop_back(), None);
}
