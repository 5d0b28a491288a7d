use advent_of_rust_2022::ArenaLinkedList;

#[test]
fn new_list_is_empty() {
    let list: ArenaLinkedList<i32> = ArenaLinkedList::new();
    assert!(list.is_empty());
    assert_eq!(list.len(), 0);
    assert!(list.head().is_none());
    assert!(list.tail().is_none());
    assert_eq!(list.first(), None);
    assert_eq!(list.last(), None);
    assert_eq!(list.get(0), None);
    assert_eq!(list.traverse(), Vec::<&i32>::new());
    assert_eq!(list.traverse_rev(), Vec::<&i32>::new());
}

#[test]
fn default_list_is_empty() {
    let list: ArenaLinkedList<i32> = ArenaLinkedList::default();
    assert!(list.is_empty());
}

#[test]
fn push_returns_consecutive_handles_and_links_neighbours() {
    let mut list = ArenaLinkedList::new();
    assert_eq!(list.push('a'), 0);
    assert_eq!(list.push('b'), 1);
    assert_eq!(list.push('c'), 2);
    assert_eq!(list.len(), 3);
    assert!(!list.is_empty());
    let links: Vec<(usize, Option<usize>, Option<usize>)> = list
        .nodes
        .iter()
        .map(|node| (node.index, node.prev, node.next))
        .collect();
    assert_eq!(
        links,
        vec![(0, None, Some(1)), (1, Some(0), Some(2)), (2, Some(1), None)]
    );
}

#[test]
fn traversals_give_the_pushed_values_and_their_reverse() {
    let values = vec![(0, 0), (1, 0), (1, 1), (5, -3)];
    let mut list = ArenaLinkedList::new();
    for value in &values {
        list.push(*value);
    }
    let forward: Vec<(i32, i32)> = list.traverse().into_iter().copied().collect();
    let backward: Vec<(i32, i32)> = list.traverse_rev().into_iter().copied().collect();
    let mut reversed = values.clone();
    reversed.reverse();
    assert_eq!(forward, values);
    assert_eq!(backward, reversed);
}

#[test]
fn traversal_of_a_single_node() {
    let mut list = ArenaLinkedList::new();
    list.push(7);
    assert_eq!(list.traverse(), vec![&7]);
    assert_eq!(list.traverse_rev(), vec![&7]);
}

#[test]
fn from_vec_equals_pushing_in_order() {
    let list = ArenaLinkedList::from_vec(vec![10, 20, 30]);
    assert_eq!(list.len(), 3);
    assert_eq!(list.traverse(), vec![&10, &20, &30]);
    assert_eq!(list.head().map(|n| (n.index, n.prev, n.next)), Some((0, None, Some(1))));
    assert_eq!(list.tail().map(|n| (n.index, n.prev, n.next)), Some((2, Some(1), None)));
}

#[test]
fn from_empty_vec_is_empty() {
    let list: ArenaLinkedList<u8> = ArenaLinkedList::from_vec(vec![]);
    assert!(list.is_empty());
}

#[test]
fn positional_access() {
    let list = ArenaLinkedList::from_vec(vec![10, 20, 30]);
    assert_eq!(list.first(), Some(&10));
    assert_eq!(list.last(), Some(&30));
    assert_eq!(list.get(0), Some(&10));
    assert_eq!(list.get(1), Some(&20));
    assert_eq!(list.get(2), Some(&30));
    assert_eq!(list.get(3), None);
    assert_eq!(list.head().map(|n| n.value), Some(10));
    assert_eq!(list.tail().map(|n| n.value), Some(30));
}

#[test]
fn get_mut_changes_the_value_and_keeps_the_links() {
    let mut list = ArenaLinkedList::from_vec(vec![10, 20, 30]);
    if let Some(value) = list.get_mut(1) {
        *value = 21;
    }
    assert!(list.get_mut(3).is_none());
    assert_eq!(list.traverse(), vec![&10, &21, &30]);
    assert_eq!(list.traverse_rev(), vec![&30, &21, &10]);
    assert_eq!(list.nodes[1].prev, Some(0));
    assert_eq!(list.nodes[1].next, Some(2));
}

#[test]
fn pop_takes_the_last_value_and_unlinks_it() {
    let mut list = ArenaLinkedList::from_vec(vec![1, 2, 3]);
    assert_eq!(list.pop(), Some(3));
    assert_eq!(list.len(), 2);
    assert_eq!(list.tail().map(|n| (n.value, n.next)), Some((2, None)));
    assert_eq!(list.traverse(), vec![&1, &2]);
    assert_eq!(list.traverse_rev(), vec![&2, &1]);
}

#[test]
fn pop_down_to_empty_and_beyond() {
    let mut list = ArenaLinkedList::from_vec(vec![1, 2]);
    assert_eq!(list.pop(), Some(2));
    assert_eq!(list.pop(), Some(1));
    assert!(list.is_empty());
    assert_eq!(list.pop(), None);
    assert_eq!(list.pop(), None);
    assert!(list.is_empty());
}

#[test]
fn push_after_pop_relinks_the_tail() {
    let mut list = ArenaLinkedList::from_vec(vec![1, 2, 3]);
    list.pop();
    assert_eq!(list.push(4), 2);
    assert_eq!(list.traverse(), vec![&1, &2, &4]);
    assert_eq!(list.traverse_rev(), vec![&4, &2, &1]);
}
