use advent_of_rust_2022::frontier::OpenSet;
use advent_of_rust_2022::{PathNode, Point};

fn node(x: i32, g_cost: u32, h_cost: u32) -> PathNode {
    PathNode::new(&Point::from_pos(x, 0), g_cost, h_cost)
}

#[test]
fn empty_set_gives_nothing() {
    let mut set = OpenSet::new();
    assert_eq!(set.len(), 0);
    assert_eq!(set.pop(), None);
    assert_eq!(set.len(), 0);
}

#[test]
fn pop_gives_candidates_by_rising_total_cost() {
    let mut set = OpenSet::new();
    set.push(node(0, 5, 2));
    set.push(node(1, 1, 1));
    set.push(node(2, 0, 4));
    set.push(node(3, 9, 0));
    assert_eq!(set.len(), 4);
    assert_eq!(set.pop(), Some(node(1, 1, 1)));
    assert_eq!(set.pop(), Some(node(2, 0, 4)));
    assert_eq!(set.pop(), Some(node(0, 5, 2)));
    assert_eq!(set.pop(), Some(node(3, 9, 0)));
    assert_eq!(set.pop(), None);
}

#[test]
fn pop_gives_the_first_pushed_among_equal_total_costs() {
    let mut set = OpenSet::new();
    set.push(node(0, 3, 3));
    set.push(node(1, 6, 0));
    set.push(node(2, 0, 6));
    set.push(node(3, 2, 1));
    assert_eq!(set.pop(), Some(node(3, 2, 1)));
    assert_eq!(set.pop(), Some(node(0, 3, 3)));
    assert_eq!(set.pop(), Some(node(1, 6, 0)));
    assert_eq!(set.pop(), Some(node(2, 0, 6)));
}

#[test]
fn push_after_pop_keeps_the_order() {
    let mut set = OpenSet::new();
    set.push(node(0, 4, 0));
    set.push(node(1, 2, 0));
    assert_eq!(set.pop(), Some(node(1, 2, 0)));
    set.push(node(2, 4, 0));
    set.push(node(3, 3, 0));
    assert_eq!(set.pop(), Some(node(3, 3, 0)));
    assert_eq!(set.pop(), Some(node(0, 4, 0)));
    assert_eq!(set.pop(), Some(node(2, 4, 0)));
    assert_eq!(set.len(), 0);
}

#[test]
fn total_costs_beyond_the_limit_rank_as_the_limit() {
    let mut set = OpenSet::new();
    set.push(node(0, u32::MAX, 5));
    set.push(node(1, u32::MAX, 0));
    set.push(node(2, u32::MAX - 1, 0));
    assert_eq!(set.pop(), Some(node(2, u32::MAX - 1, 0)));
    assert_eq!(set.pop(), Some(node(0, u32::MAX, 5)));
    assert_eq!(set.pop(), Some(node(1, u32::MAX, 0)));
}
