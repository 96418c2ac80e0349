use parsergen::discard::HasDiscardFunc;

#[test]
fn discard_drops_what_the_predicate_picks() {
    let mut items = vec![1, 2, 3, 4, 5, 6];
    items.discard(|item: &i32| *item % 2 == 0);
    assert_eq!(items, vec![1, 3, 5]);
}

#[test]
fn discard_moves_kept_elements_forward() {
    let mut items = vec![2, 1, 4, 3];
    items.discard(|item: &i32| *item % 2 == 0);
    assert_eq!(items, vec![1, 3]);
}

#[test]
fn discard_keeps_each_survivor_once() {
    let mut items = vec![5, 5, 0, 5, 0, 0, 7];
    items.discard(|item: &i32| *item == 0);
    items.sort();
    assert_eq!(items, vec![5, 5, 5, 7]);
}

#[test]
fn discard_all_and_none() {
    let mut all = vec![1, 2, 3];
    all.discard(|_item: &i32| true);
    assert!(all.is_empty());
    let mut none = vec![1, 2, 3];
    none.discard(|_item: &i32| false);
    assert_eq!(none, vec![1, 2, 3]);
    let mut empty: Vec<i32> = Vec::new();
    empty.discard(|_item: &i32| true);
    assert!(empty.is_empty());
}
