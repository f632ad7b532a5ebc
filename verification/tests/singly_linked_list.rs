use lists::interface::{Queue, Stack};
use lists::singly_linked_list::{SLList, SinglyLinkedList};

#[test]
fn stack_pops_what_was_pushed_last() {
    let mut list: SLList<u32> = SLList::new();
    assert_eq!(list.size(), 0);
    assert_eq!(list.pop(), None);
    for n in 0..10 {
        list.push(n);
        assert_eq!(list.size(), n as usize + 1);
    }
    for n in (0..10).rev() {
        assert_eq!(list.pop(), Some(n));
    }
    assert_eq!(list.pop(), None);
    assert_eq!(list.size(), 0);
}

#[test]
fn queue_removes_what_was_added_first() {
    let mut list: SLList<u32> = SLList::new();
    assert_eq!(list.remove(), None);
    for n in 0..10 {
        list.add(n);
    }
    assert_eq!(list.size(), 10);
    for n in 0..10 {
        assert_eq!(list.remove(), Some(n));
    }
    assert_eq!(list.remove(), None);
    assert_eq!(list.size(), 0);
}

#[test]
fn stack_and_queue_share_the_head() {
    let mut list: SLList<char> = SLList::default();
    list.add('b');
    list.add('c');
    list.push('a');
    list.add('d');
    assert_eq!(list.size(), 4);
    assert_eq!(list.pop(), Some('a'));
    assert_eq!(list.remove(), Some('b'));
    list.push('x');
    assert_eq!(list.remove(), Some('x'));
    assert_eq!(list.pop(), Some('c'));
    assert_eq!(list.pop(), Some('d'));
    assert_eq!(list.pop(), None);
    list.add('e');
    assert_eq!(list.pop(), Some('e'));
    assert_eq!(list.size(), 0);
}

#[test]
fn singly_linked_list_uses_freed_nodes_again() {
    let mut list: SinglyLinkedList<usize> = SLList::new();
    let mut oldest = 0;
    for n in 0..1000 {
        list.add(n);
        if n % 3 != 0 {
            assert_eq!(list.remove(), Some(oldest));
            oldest += 1;
        }
        assert_eq!(list.size(), n + 1 - oldest);
    }
    while let Some(n) = list.remove() {
        assert_eq!(n, oldest);
        oldest += 1;
    }
    assert_eq!(oldest, 1000);
}

#[test]
fn singly_linked_list_holds_strings() {
    let mut list: SLList<String> = SLList::new();
    list.push(String::from("b"));
    list.push(String::from("a"));
    list.add(String::from("c"));
    assert_eq!(list.pop(), Some(String::from("a")));
    assert_eq!(list.remove(), Some(String::from("b")));
    assert_eq!(list.remove(), Some(String::from("c")));
    assert_eq!(list.remove(), None);
}
