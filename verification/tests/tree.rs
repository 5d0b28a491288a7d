use advent_of_rust_2022::{ArenaTree, TreeNode};

fn values(tree: &ArenaTree<&'static str>, visited: &[(usize, usize)]) -> Vec<(&'static str, usize)> {
    visited
        .iter()
        .map(|(handle, depth)| (tree.nodes[*handle].value, *depth))
        .collect()
}

#[test]
fn new_node_has_no_links() {
    let node = TreeNode::new(3, "x");
    assert_eq!(node.index, 3);
    assert_eq!(node.value, "x");
    assert_eq!(node.parent, None);
    assert!(node.children.is_empty());
}

#[test]
fn default_tree_is_empty() {
    let tree: ArenaTree<u32> = ArenaTree::default();
    assert_eq!(tree.size(), 0);
    assert_eq!(tree.find_node(&1), None);
    assert_eq!(tree.find_node_by(|_| true), None);
}

#[test]
fn find_or_add_node_appends_new_values() {
    let mut tree = ArenaTree::default();
    assert_eq!(tree.find_or_add_node("a"), 0);
    assert_eq!(tree.find_or_add_node("b"), 1);
    assert_eq!(tree.find_or_add_node("c"), 2);
    assert_eq!(tree.size(), 3);
    for (handle, node) in tree.nodes.iter().enumerate() {
        assert_eq!(node.index, handle);
        assert_eq!(node.parent, None);
        assert!(node.children.is_empty());
    }
}

#[test]
fn find_or_add_node_returns_the_handle_of_a_value_already_present() {
    let mut tree = ArenaTree::default();
    tree.find_or_add_node("a");
    tree.find_or_add_node("b");
    assert_eq!(tree.find_or_add_node("a"), 0);
    assert_eq!(tree.find_or_add_node("b"), 1);
    assert_eq!(tree.find_or_add_node("a"), 0);
    assert_eq!(tree.size(), 2);
}

#[test]
fn find_node_gives_the_first_match() {
    let mut tree = ArenaTree::default();
    tree.find_or_add_node(5);
    tree.find_or_add_node(6);
    tree.nodes.push(TreeNode::new(2, 6));
    assert_eq!(tree.find_node(&5), Some(0));
    assert_eq!(tree.find_node(&6), Some(1));
    assert_eq!(tree.find_node(&7), None);
}

#[test]
fn find_node_by_gives_the_first_match() {
    let mut tree = ArenaTree::default();
    tree.find_or_add_node(5);
    tree.find_or_add_node(8);
    tree.find_or_add_node(10);
    assert_eq!(tree.find_node_by(|node| node.value % 2 == 0), Some(1));
    assert_eq!(tree.find_node_by(|node| node.value > 5), Some(1));
    assert_eq!(tree.find_node_by(|node| node.index == 2), Some(2));
    assert_eq!(tree.find_node_by(|node| node.value > 10), None);
}

#[test]
fn set_parent_child_links_both_ways() {
    let mut tree = ArenaTree::default();
    let root = tree.find_or_add_node("root");
    let a = tree.find_or_add_node("a");
    tree.set_parent_child(root, a);
    assert_eq!(tree.nodes[a].parent, Some(root));
    assert_eq!(tree.nodes[root].children, vec![a]);
    assert_eq!(tree.nodes[root].parent, None);
    assert!(tree.nodes[a].children.is_empty());
}

#[test]
fn set_parent_child_twice_lists_the_child_once() {
    let mut tree = ArenaTree::default();
    let root = tree.find_or_add_node("root");
    let a = tree.find_or_add_node("a");
    tree.set_parent_child(root, a);
    tree.set_parent_child(root, a);
    assert_eq!(tree.nodes[root].children, vec![a]);
    assert_eq!(tree.nodes[a].parent, Some(root));
}

#[test]
fn set_parent_child_again_moves_the_child_to_the_end() {
    let mut tree = ArenaTree::default();
    let root = tree.find_or_add_node("root");
    let a = tree.find_or_add_node("a");
    let b = tree.find_or_add_node("b");
    tree.set_parent_child(root, a);
    tree.set_parent_child(root, b);
    tree.set_parent_child(root, a);
    assert_eq!(tree.nodes[root].children, vec![b, a]);
    tree.set_parent_child(root, a);
    assert_eq!(tree.nodes[root].children, vec![b, a]);
}

#[test]
fn set_parent_child_detaches_from_the_former_parent() {
    let mut tree = ArenaTree::default();
    let root = tree.find_or_add_node("root");
    let a = tree.find_or_add_node("a");
    let b = tree.find_or_add_node("b");
    let c = tree.find_or_add_node("c");
    tree.set_parent_child(root, a);
    tree.set_parent_child(root, b);
    tree.set_parent_child(a, c);
    tree.set_parent_child(b, c);
    assert!(tree.nodes[a].children.is_empty());
    assert_eq!(tree.nodes[b].children, vec![c]);
    assert_eq!(tree.nodes[c].parent, Some(b));
    assert_eq!(tree.nodes[root].children, vec![a, b]);
}

#[test]
fn set_parent_child_detaches_by_handle_not_by_position() {
    let mut tree = ArenaTree::default();
    let p = tree.find_or_add_node("p");
    let q = tree.find_or_add_node("q");
    let x = tree.find_or_add_node("x");
    let y = tree.find_or_add_node("y");
    tree.set_parent_child(p, x);
    tree.set_parent_child(p, y);
    tree.set_parent_child(q, x);
    assert_eq!(tree.nodes[p].children, vec![y]);
    assert_eq!(tree.nodes[q].children, vec![x]);
    assert_eq!(tree.nodes[x].parent, Some(q));
    assert_eq!(tree.nodes[y].parent, Some(p));
}

#[test]
fn traverse_visits_parents_before_children_in_list_order() {
    let mut tree = ArenaTree::default();
    let r = tree.find_or_add_node("R");
    let a = tree.find_or_add_node("A");
    let b = tree.find_or_add_node("B");
    let c = tree.find_or_add_node("C");
    tree.set_parent_child(r, a);
    tree.set_parent_child(r, b);
    tree.set_parent_child(a, c);
    let visited = tree.traverse(r);
    assert_eq!(visited, vec![(r, 0), (a, 1), (c, 2), (b, 1)]);
    assert_eq!(
        values(&tree, &visited),
        vec![("R", 0), ("A", 1), ("C", 2), ("B", 1)]
    );
}

#[test]
fn traverse_from_an_inner_node_counts_depth_from_it() {
    let mut tree = ArenaTree::default();
    let r = tree.find_or_add_node("R");
    let a = tree.find_or_add_node("A");
    let c = tree.find_or_add_node("C");
    tree.set_parent_child(r, a);
    tree.set_parent_child(a, c);
    assert_eq!(tree.traverse(a), vec![(a, 0), (c, 1)]);
    assert_eq!(tree.traverse(c), vec![(c, 0)]);
}

#[test]
fn traverse_of_a_node_without_links() {
    let mut tree = ArenaTree::default();
    let lone = tree.find_or_add_node("lone");
    assert_eq!(tree.traverse(lone), vec![(lone, 0)]);
}
