use lists::array_stack::Array;
use lists::interface::List;

#[test]
fn test_array_stack() {
    let mut array_stack: Array<char> = Array::new();
    assert_eq!(array_stack.size(), 0);

    // "bred" -> "breedr"
    for (i, elem) in "bred".chars().enumerate() {
        array_stack.add(i, elem);
    }
    array_stack.add(2, 'e');
    array_stack.add(5, 'r');
    assert_eq!((array_stack.size(), array_stack.length()), (6, 10));
    for (i, elem) in "breedr".chars().enumerate() {
        assert_eq!(array_stack.get(i), Some(elem));
    }

    array_stack.add(5, 'e'); //breeder
    array_stack.remove(4); //breder
    array_stack.remove(4); //breer
    assert_eq!((array_stack.size(), array_stack.length()), (5, 10));

    array_stack.remove(4); //brer
    array_stack.remove(3); //brr
    array_stack.set(2, 'i'); //bri
    for (i, e) in "bri".chars().enumerate() {
        assert_eq!(array_stack.get(i), Some(e));
    }
    assert_eq!(array_stack.get(4), None);
    println!("\nArrayStack = {:?}\n", array_stack);

    let mut array_stack: Array<i32> = Array::new();
    let num = 10;
    for i in 0..num {
        array_stack.add(array_stack.size(), i);
    }
    println!("\nArrayStack = {:?}\n", array_stack);
    println!("\nArrayStack.length() = {:?}\n", array_stack.length());
    while array_stack.remove(0).is_some() {}
    println!("\nArrayStack = {:?}\n", array_stack);
}

fn text(list: &Array<char>) -> String {
    let mut s = String::new();
    for i in 0..list.size() {
        s.push(list.get(i).unwrap());
    }
    s
}

fn from_text(s: &str) -> Array<char> {
    let mut list: Array<char> = Array::new();
    for (i, c) in s.chars().enumerate() {
        list.add(i, c);
    }
    list
}

#[test]
fn growable_array_new_is_empty_with_one_slot() {
    let list: Array<u8> = Array::new();
    assert_eq!(list.size(), 0);
    assert_eq!(list.length(), 1);
    assert_eq!(list.get(0), None);
}

#[test]
fn growable_array_with_length_sets_the_capacity() {
    let list: Array<u8> = Array::with_length(7);
    assert_eq!((list.size(), list.length()), (0, 7));
    let list: Array<u8> = Array::with_length(0);
    assert_eq!((list.size(), list.length()), (0, 0));
}

#[test]
fn growable_array_default_has_no_buffer() {
    let mut list: Array<u8> = Array::default();
    assert_eq!((list.size(), list.length()), (0, 0));
    list.add(0, 9);
    assert_eq!((list.size(), list.length()), (1, 2));
    assert_eq!(list.get(0), Some(9));
}

#[test]
fn growable_array_spells_breedr() {
    let mut list: Array<char> = Array::new();
    list.add(0, 'b');
    list.add(1, 'r');
    list.add(2, 'e');
    list.add(3, 'd');
    assert_eq!(text(&list), "bred");
    list.add(2, 'e');
    assert_eq!(text(&list), "breed");
    list.add(5, 'r');
    assert_eq!(text(&list), "breedr");
    let expected: Vec<char> = "breedr".chars().collect();
    for i in 0..6 {
        assert_eq!(list.get(i), Some(expected[i]));
    }
    assert_eq!(list.get(6), None);
}

#[test]
fn growable_array_capacity_doubles_when_the_last_slot_would_fill() {
    let mut list: Array<usize> = Array::new();
    let expected = [2, 2, 4, 6, 6, 10, 10, 10, 10, 18];
    for (n, length) in expected.iter().enumerate() {
        list.add(n, n);
        assert_eq!(list.size(), n + 1);
        assert_eq!(list.length(), *length);
    }
}

#[test]
fn growable_array_capacity_halves_when_a_third_is_used() {
    let mut list: Array<usize> = Array::new();
    for n in 0..10 {
        list.add(n, n);
    }
    assert_eq!(list.length(), 18);
    let expected = [18, 18, 18, 12, 12, 8, 8, 4, 2, 1];
    for (k, length) in expected.iter().enumerate() {
        assert_eq!(list.remove(list.size() - 1), Some(9 - k));
        assert_eq!(list.size(), 9 - k);
        assert_eq!(list.length(), *length);
    }
}

#[test]
fn growable_array_capacity_stays_under_three_times_the_size_after_remove() {
    let mut list: Array<usize> = Array::with_length(40);
    for n in 0..25 {
        list.add(n, n);
    }
    while list.size() > 0 {
        list.remove(list.size() / 2);
        assert!(list.length() < 3 * list.size() + 2);
        assert!(list.length() >= list.size());
    }
    assert_eq!(list.length(), 1);
}

#[test]
fn growable_array_with_length_grows_only_when_full() {
    let mut list: Array<u8> = Array::with_length(5);
    for n in 0..4 {
        list.add(n, 0);
        assert_eq!(list.length(), 5);
    }
    list.add(4, 0);
    assert_eq!((list.size(), list.length()), (5, 8));
}

#[test]
fn growable_array_add_then_get_gives_the_element() {
    let mut list = from_text("abcdef");
    for i in 0..=6 {
        list.add(i, 'X');
        assert_eq!(list.get(i), Some('X'));
        list.remove(i);
    }
    assert_eq!(text(&list), "abcdef");
}

#[test]
fn growable_array_add_shifts_the_tail_up() {
    let mut list = from_text("abcd");
    list.add(0, 'x');
    assert_eq!(text(&list), "xabcd");
    list.add(3, 'y');
    assert_eq!(text(&list), "xabycd");
    list.add(6, 'z');
    assert_eq!(text(&list), "xabycdz");
}

#[test]
fn growable_array_remove_shifts_the_tail_down() {
    let mut list = from_text("abcdef");
    assert_eq!(list.remove(0), Some('a'));
    assert_eq!(text(&list), "bcdef");
    assert_eq!(list.remove(2), Some('d'));
    assert_eq!(text(&list), "bcef");
    assert_eq!(list.remove(3), Some('f'));
    assert_eq!(text(&list), "bce");
}

#[test]
fn growable_array_remove_then_add_restores_the_list() {
    for i in 0..6 {
        let mut list = from_text("abcdef");
        let removed = list.remove(i).unwrap();
        list.add(i, removed);
        assert_eq!(text(&list), "abcdef");
    }
}

#[test]
fn growable_array_size_counts_adds_minus_removes() {
    let mut list: Array<u32> = Array::new();
    let mut adds = 0;
    let mut removes = 0;
    for round in 0..50u32 {
        list.add((round as usize * 7) % (list.size() + 1), round);
        adds += 1;
        if round % 3 == 2 {
            assert!(list.remove((round as usize * 5) % list.size()).is_some());
            removes += 1;
        }
        assert_eq!(list.size(), adds - removes);
    }
    assert_eq!(list.size(), 34);
}

#[test]
fn growable_array_set_replaces_and_returns_the_previous_element() {
    let mut list = from_text("abc");
    assert_eq!(list.set(1, 'x'), Some('b'));
    assert_eq!(text(&list), "axc");
    assert_eq!((list.size(), list.length()), (3, 4));
}

#[test]
fn growable_array_index_out_of_range_is_none_and_changes_nothing() {
    let mut list = from_text("abc");
    let before = list.clone();
    assert_eq!(list.get(3), None);
    assert_eq!(list.get(usize::MAX), None);
    assert_eq!(list.set(3, 'x'), None);
    assert_eq!(list.set(100, 'x'), None);
    assert_eq!(list.remove(3), None);
    assert_eq!(list.remove(usize::MAX), None);
    assert_eq!(list, before);
    assert_eq!(text(&list), "abc");
}

#[test]
fn growable_array_operations_on_an_empty_list() {
    let mut list: Array<char> = Array::new();
    assert_eq!(list.get(0), None);
    assert_eq!(list.set(0, 'x'), None);
    assert_eq!(list.remove(0), None);
    assert_eq!((list.size(), list.length()), (0, 1));
}

#[test]
fn growable_array_get_ref_borrows_the_element() {
    let list = from_text("abc");
    assert_eq!(list.get_ref(0), Some(&'a'));
    assert_eq!(list.get_ref(2), Some(&'c'));
    assert_eq!(list.get_ref(3), None);
}

#[test]
fn growable_array_elements_need_not_be_copyable() {
    let mut list: Array<String> = Array::new();
    list.add(0, String::from("one"));
    list.add(1, String::from("three"));
    list.add(1, String::from("two"));
    assert_eq!(list.get(1), Some(String::from("two")));
    assert_eq!(list.set(0, String::from("zero")), Some(String::from("one")));
    assert_eq!(list.remove(2), Some(String::from("three")));
    assert_eq!(list.size(), 2);
}

#[test]
fn growable_array_resizes_are_spaced() {
    let mut list: Array<usize> = Array::new();
    let mut length = list.length();
    let mut size_at_resize = 0;
    let mut edits_since = 0;
    let mut resizes = 0;
    for round in 0..4000usize {
        if round % 1000 < 600 {
            list.add(list.size(), round);
        } else {
            list.remove(list.size() - 1);
        }
        edits_since += 1;
        if list.length() != length {
            assert!(3 * edits_since + 4 > size_at_resize);
            assert!(2 * list.size() - 2 <= list.length() && list.length() <= 2 * list.size());
            length = list.length();
            size_at_resize = list.size();
            edits_since = 0;
            resizes += 1;
        }
    }
    assert!(resizes < 40);
}
