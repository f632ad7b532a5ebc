use lists::double_array_deque::Array;
use lists::interface::List;

#[test]
fn test_dual_array_deque() {
    let mut dual_array_deque: Array<char> = Array::new();
    assert_eq!(dual_array_deque.size(), 0);

    dual_array_deque.add(0, 'A');
    dual_array_deque.add(1, 'B');
    dual_array_deque.add(2, 'C');
    dual_array_deque.add(3, 'D');
    assert_eq!(dual_array_deque.get(0), Some('A'));
    assert_eq!(dual_array_deque.get(1), Some('B'));
    assert_eq!(dual_array_deque.get(2), Some('C'));
    assert_eq!(dual_array_deque.get(3), Some('D'));

    dual_array_deque.add(3, 'x');
    dual_array_deque.add(4, 'y');

    assert_eq!(dual_array_deque.remove(0), Some('A'));
    assert_eq!(dual_array_deque.get(0), Some('B'));
    assert_eq!(dual_array_deque.get(1), Some('C'));
    assert_eq!(dual_array_deque.get(2), Some('x'));
    assert_eq!(dual_array_deque.get(3), Some('y'));
    assert_eq!(dual_array_deque.get(4), Some('D'));

    println!("\nDualArrayDeque = {:?}\n", dual_array_deque);
}

fn text(list: &Array<char>) -> String {
    let mut s = String::new();
    for i in 0..list.size() {
        s.push(list.get(i).unwrap());
    }
    s
}

fn from_text(s: &str) -> Array<char> {
    let mut list: Array<char> = Array::new();
    for (i, c) in s.chars().enumerate() {
        list.add(i, c);
    }
    list
}

fn in_proportion(list: &Array<char>) -> bool {
    let f = list.front_size();
    let b = list.back_size();
    f + b <= 1 || (3 * f >= b && 3 * b >= f)
}

#[test]
fn two_ended_array_new_and_default_are_empty() {
    let list: Array<u8> = Array::new();
    assert_eq!((list.size(), list.front_size(), list.back_size()), (0, 0, 0));
    assert_eq!(list.get(0), None);
    let list: Array<u8> = Array::default();
    assert_eq!((list.size(), list.front_size(), list.back_size()), (0, 0, 0));
}

#[test]
fn two_ended_array_spells_bcxyd() {
    let mut list: Array<char> = Array::new();
    list.add(0, 'A');
    list.add(1, 'B');
    list.add(2, 'C');
    list.add(3, 'D');
    assert_eq!(text(&list), "ABCD");
    list.add(3, 'x');
    list.add(4, 'y');
    assert_eq!(text(&list), "ABCxyD");
    assert_eq!(list.remove(0), Some('A'));
    assert_eq!(text(&list), "BCxyD");
}

#[test]
fn two_ended_array_halves_after_appending() {
    let mut list: Array<char> = Array::new();
    let expected = [(0, 1), (1, 1), (1, 2), (1, 3), (2, 3), (2, 4), (2, 5), (2, 6), (4, 5)];
    for (n, halves) in expected.iter().enumerate() {
        list.add(n, 'a');
        assert_eq!((list.front_size(), list.back_size()), *halves);
    }
}

#[test]
fn two_ended_array_halves_after_prepending() {
    let mut list: Array<char> = Array::new();
    let expected = [(0, 1), (1, 1), (2, 1), (3, 1), (2, 3), (3, 3), (4, 3)];
    for halves in expected.iter() {
        list.add(0, 'a');
        assert_eq!((list.front_size(), list.back_size()), *halves);
    }
}

#[test]
fn two_ended_array_halves_after_removing() {
    let mut list = from_text("abcdefgh");
    assert_eq!((list.front_size(), list.back_size()), (2, 6));
    assert_eq!(list.remove(0), Some('a'));
    assert_eq!((list.front_size(), list.back_size()), (3, 4));
    assert_eq!(list.remove(6), Some('h'));
    assert_eq!(list.remove(5), Some('g'));
    assert_eq!(list.remove(4), Some('f'));
    assert_eq!((list.front_size(), list.back_size()), (3, 1));
    assert_eq!(list.remove(3), Some('e'));
    assert_eq!((list.front_size(), list.back_size()), (1, 2));
    assert_eq!(text(&list), "bcd");
}

#[test]
fn two_ended_array_appended_elements_keep_their_order() {
    let mut list: Array<usize> = Array::new();
    for n in 0..200 {
        list.add(n, n);
        assert_eq!(list.size(), n + 1);
    }
    for n in 0..200 {
        assert_eq!(list.get(n), Some(n));
    }
}

#[test]
fn two_ended_array_prepended_elements_come_out_reversed() {
    let mut list: Array<usize> = Array::new();
    for n in 0..200 {
        list.add(0, n);
    }
    for n in 0..200 {
        assert_eq!(list.get(n), Some(199 - n));
    }
}

#[test]
fn two_ended_array_halves_stay_in_proportion() {
    let mut list: Array<char> = Array::new();
    for round in 0..120usize {
        let index = if round % 4 == 0 { 0 } else { list.size() };
        list.add(index, 'a');
        assert!(in_proportion(&list));
    }
    while list.size() > 0 {
        let index = if list.size() % 5 == 0 { list.size() - 1 } else { 0 };
        assert_eq!(list.remove(index), Some('a'));
        assert!(in_proportion(&list));
        assert_eq!(list.front_size() + list.back_size(), list.size());
    }
}

#[test]
fn two_ended_array_balance_redistributes_a_single_element() {
    let mut list: Array<char> = Array::new();
    list.add(0, 'a');
    assert_eq!((list.front_size(), list.back_size()), (0, 1));
    list.balance();
    assert_eq!((list.front_size(), list.back_size()), (0, 1));
    assert_eq!(text(&list), "a");
}

#[test]
fn two_ended_array_balance_leaves_halves_in_proportion_alone() {
    let mut list = from_text("abcdef");
    let before = list.clone();
    list.balance();
    assert_eq!(list, before);
    assert_eq!(text(&list), "abcdef");
}

#[test]
fn two_ended_array_add_then_get_gives_the_element() {
    let mut list = from_text("abcdefghij");
    for i in 0..=10 {
        list.add(i, 'X');
        assert_eq!(list.get(i), Some('X'));
        assert_eq!(list.remove(i), Some('X'));
        assert_eq!(text(&list), "abcdefghij");
    }
}

#[test]
fn two_ended_array_remove_then_add_restores_the_list() {
    for i in 0..10 {
        let mut list = from_text("abcdefghij");
        let removed = list.remove(i).unwrap();
        list.add(i, removed);
        assert_eq!(text(&list), "abcdefghij");
    }
}

#[test]
fn two_ended_array_set_reaches_both_halves() {
    let mut list = from_text("abcdef");
    assert_eq!(list.set(0, 'u'), Some('a'));
    assert_eq!(list.set(5, 'v'), Some('f'));
    assert_eq!(list.set(2, 'w'), Some('c'));
    assert_eq!(text(&list), "ubwdev");
}

#[test]
fn two_ended_array_index_out_of_range_is_none_and_changes_nothing() {
    let mut list = from_text("abc");
    let before = list.clone();
    assert_eq!(list.get(3), None);
    assert_eq!(list.set(3, 'x'), None);
    assert_eq!(list.remove(3), None);
    assert_eq!(list.remove(usize::MAX), None);
    assert_eq!(list, before);
    let mut empty: Array<char> = Array::new();
    assert_eq!(empty.remove(0), None);
    assert_eq!(empty.set(0, 'x'), None);
    assert_eq!(empty.size(), 0);
}

#[test]
fn two_ended_array_redistributions_are_spaced() {
    let mut list: Array<usize> = Array::new();
    let mut size_at_redistribution = 0;
    let mut edits_since = 0;
    let mut redistributions = 0;
    for round in 0..3000usize {
        let (f, b) = (list.front_size(), list.back_size());
        let untouched = if round % 1000 < 600 {
            list.add(list.size(), round);
            (f, b + 1)
        } else {
            list.remove(0);
            if f > 0 { (f - 1, b) } else { (f, b - 1) }
        };
        edits_since += 1;
        if 3 * untouched.0 < untouched.1 || 3 * untouched.1 < untouched.0 {
            let n = list.size();
            assert_eq!((list.front_size(), list.back_size()), (n / 2, n - n / 2));
            assert!(3 * edits_since + 2 > size_at_redistribution);
            size_at_redistribution = n;
            edits_since = 0;
            redistributions += 1;
        } else {
            assert_eq!((list.front_size(), list.back_size()), untouched);
        }
    }
    assert!(redistributions < 40);
}
