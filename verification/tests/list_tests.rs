use parsergen::list::List;
use parsergen::list::ListState;

fn list_of(items: &[i32]) -> List<i32> {
    let mut list = List::empty();
    for item in items.iter().rev() {
        list = List::cons(*item, list);
    }
    list
}

fn walk(list: &List<i32>) -> Vec<i32> {
    let mut out = Vec::new();
    let mut rest = list.clone();
    loop {
        let next = match rest.state() {
            ListState::NonEmptyList(head, tail) => {
                out.push(*head);
                tail
            }
            ListState::EmptyList => break,
        };
        rest = next;
    }
    out
}

#[test]
fn list_empty_is_empty() {
    let empty = List::<i32>::empty();
    assert!(empty.is_empty());
    assert!(matches!(empty.state(), ListState::EmptyList));
    assert!(List::<i32>::default().is_empty());
    assert!(!list_of(&[1]).is_empty());
}

#[test]
fn list_state_of_cons_is_head_and_tail() {
    let tail = list_of(&[2, 3]);
    let whole = List::cons(1, tail.clone());
    match whole.state() {
        ListState::NonEmptyList(head, rest) => {
            assert_eq!(*head, 1);
            assert!(rest == tail);
            assert_eq!(walk(&rest), vec![2, 3]);
        }
        ListState::EmptyList => panic!(),
    };
    let single = List::cons(9, List::empty());
    match single.state() {
        ListState::NonEmptyList(head, rest) => {
            assert_eq!(*head, 9);
            assert!(rest.is_empty());
        }
        ListState::EmptyList => panic!(),
    };
}

#[test]
fn list_walk_is_in_order() {
    assert_eq!(walk(&list_of(&[4, 5, 6, 7])), vec![4, 5, 6, 7]);
    assert!(walk(&List::empty()).is_empty());
}

#[test]
fn list_equality_is_structural() {
    let a = list_of(&[1, 2, 3]);
    let b = List::cons(1, List::cons(2, List::cons(3, List::empty())));
    assert!(a == a);
    assert!(a == b);
    assert!(b == a);
    assert!(a != list_of(&[1, 2]));
    assert!(a != list_of(&[1, 2, 3, 4]));
    assert!(a != list_of(&[1, 9, 3]));
    assert!(a != list_of(&[0, 2, 3]));
    assert!(a != list_of(&[1, 2, 0]));
    assert!(List::<i32>::empty() == List::empty());
    assert!(List::<i32>::empty() != a);
}

#[test]
fn list_clone_shares_elements() {
    let a = list_of(&[1, 2, 3]);
    let b = a.clone();
    let longer = List::cons(0, b);
    assert_eq!(walk(&a), vec![1, 2, 3]);
    assert_eq!(walk(&longer), vec![0, 1, 2, 3]);
}

#[test]
fn list_reverse_into_vec_is_last_first() {
    assert_eq!(list_of(&[1, 2, 3]).reverse_into_vec(), vec![3, 2, 1]);
    assert_eq!(list_of(&[7]).reverse_into_vec(), vec![7]);
    assert!(List::<i32>::empty().reverse_into_vec().is_empty());
}
