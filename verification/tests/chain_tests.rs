use parsergen::chain::Chain;
use parsergen::chain::ChainError;
use parsergen::chain::ChainState;

fn sum_chain_internal(chain: Chain<i32>, acc: i32) -> i32 {
    match chain.state() {
        ChainState::NonEmptyChain(head, tail) => sum_chain_internal(tail, head + acc),
        ChainState::EmptyChain => acc,
    }
}

fn sum_chain(list: Chain<i32>) -> i32 {
    sum_chain_internal(list, 0)
}

fn walk(chain: &Chain<i32>) -> Vec<i32> {
    let mut out = Vec::new();
    let mut rest = chain.clone();
    loop {
        let next = match rest.state() {
            ChainState::NonEmptyChain(head, tail) => {
                out.push(*head);
                tail
            }
            ChainState::EmptyChain => break,
        };
        rest = next;
    }
    out
}

fn chain_of(items: &[i32]) -> Chain<i32> {
    let mut chain = Chain::empty();
    for item in items.iter().rev() {
        chain = Chain::cons(*item, chain);
    }
    chain
}

#[test]
fn test_sum_chain() {
    let chain = Chain::cons(1, Chain::cons(2, Chain::cons(4, Chain::empty())));
    let chain2 = Chain::concat(chain.clone(), chain.clone());
    assert_eq!(sum_chain(chain), 7);
    assert_eq!(sum_chain(chain2), 14);
}

#[test]
fn test_sum_concat_chain() {
    let chain1 = Chain::cons(1, Chain::cons(2, Chain::cons(4, Chain::empty())));
    let chain2 = Chain::cons(3, Chain::cons(8, Chain::cons(2, Chain::empty())));
    let chain3 = Chain::concat(chain1, chain2);
    assert_eq!(sum_chain(chain3), 20);
}

#[test]
fn test_sum_slice_chain() {
    let chain1 = Chain::cons(1, Chain::cons(2, Chain::cons(4, Chain::empty())));
    let chain2 = Chain::cons(3, Chain::cons(8, Chain::cons(2, Chain::empty())));
    let chain3 = Chain::concat(chain1, chain2);
    if let ChainState::NonEmptyChain(_, tail) = chain3.state() {
        assert_eq!(sum_chain(Chain::slice(tail, 4).unwrap()), 17);
    } else {
        panic!();
    }
}

#[test]
fn chain_size_counts_elements() {
    assert_eq!(Chain::<i32>::empty().size(), 0);
    assert_eq!(chain_of(&[5]).size(), 1);
    assert_eq!(chain_of(&[5, 6, 7]).size(), 3);
    let both = Chain::concat(chain_of(&[1, 2]), chain_of(&[3, 4, 5]));
    assert_eq!(both.size(), 5);
    assert_eq!(Chain::slice(both, 3).unwrap().size(), 3);
}

#[test]
fn chain_state_of_cons_is_head_and_tail() {
    let tail = chain_of(&[2, 3]);
    let whole = Chain::cons(1, tail.clone());
    match whole.state() {
        ChainState::NonEmptyChain(head, rest) => {
            assert_eq!(*head, 1);
            assert!(rest == tail);
            assert_eq!(rest.size(), 2);
        }
        ChainState::EmptyChain => panic!(),
    };
    assert!(matches!(Chain::<i32>::empty().state(), ChainState::EmptyChain));
}

#[test]
fn chain_walk_of_concat_is_first_then_second() {
    let a = chain_of(&[1, 2, 3]);
    let b = chain_of(&[4, 5]);
    assert_eq!(walk(&Chain::concat(a.clone(), b.clone())), vec![1, 2, 3, 4, 5]);
    assert_eq!(walk(&Chain::concat(b, a)), vec![4, 5, 1, 2, 3]);
}

#[test]
fn chain_concat_with_empty_is_the_other() {
    let x = chain_of(&[7, 8, 9]);
    let left = Chain::concat(Chain::empty(), x.clone());
    let right = Chain::concat(x.clone(), Chain::empty());
    let neither = Chain::concat(Chain::<i32>::empty(), Chain::empty());
    assert!(left == x);
    assert!(right == x);
    assert_eq!(walk(&left), vec![7, 8, 9]);
    assert_eq!(walk(&right), vec![7, 8, 9]);
    assert_eq!(neither.size(), 0);
    assert!(walk(&neither).is_empty());
}

#[test]
fn chain_slice_then_rest_is_whole() {
    let whole = Chain::concat(chain_of(&[1, 2, 3]), chain_of(&[4, 5, 6]));
    for n in 0..=6u32 {
        let front = Chain::slice(whole.clone(), n).unwrap();
        assert_eq!(front.size(), n);
        let mut rest = whole.clone();
        for _ in 0..n {
            let next = match rest.state() {
                ChainState::NonEmptyChain(_, tail) => tail,
                ChainState::EmptyChain => panic!(),
            };
            rest = next;
        }
        let mut seen = walk(&front);
        seen.extend(walk(&rest));
        assert_eq!(seen, vec![1, 2, 3, 4, 5, 6]);
    }
}

#[test]
fn chain_slice_beyond_size_is_refused() {
    let three = chain_of(&[1, 2, 3]);
    assert!(matches!(Chain::slice(three.clone(), 4), Err(ChainError::InvalidSliceSize)));
    assert!(matches!(Chain::slice(Chain::<i32>::empty(), 1), Err(ChainError::InvalidSliceSize)));
    assert!(Chain::slice(three, 3).is_ok());
    assert_eq!(Chain::slice(Chain::<i32>::empty(), 0).unwrap().size(), 0);
}

#[test]
fn chain_slice_of_slice_and_links_unfold() {
    let linked = Chain::concat(
        Chain::concat(chain_of(&[1]), chain_of(&[2])),
        Chain::concat(chain_of(&[3]), chain_of(&[4, 5])),
    );
    let cut = Chain::slice(Chain::slice(linked, 4).unwrap(), 2).unwrap();
    assert_eq!(walk(&cut), vec![1, 2]);
    let again = Chain::concat(cut.clone(), cut);
    assert_eq!(walk(&again), vec![1, 2, 1, 2]);
    assert_eq!(again.size(), 4);
}

#[test]
fn chain_equality_is_by_elements() {
    let plain = chain_of(&[1, 2, 3, 4]);
    let linked = Chain::concat(chain_of(&[1, 2]), chain_of(&[3, 4]));
    let sliced = Chain::slice(chain_of(&[1, 2, 3, 4, 5]), 4).unwrap();
    assert!(plain == linked);
    assert!(plain == sliced);
    assert!(linked == sliced);
    assert!(plain != chain_of(&[1, 2, 3]));
    assert!(plain != chain_of(&[1, 2, 9, 4]));
    assert!(Chain::<i32>::empty() == Chain::empty());
    assert!(Chain::<i32>::empty() != plain);
}
