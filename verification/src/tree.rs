//! A tree whose nodes live in one vector and refer to each other by index.

use vstd::prelude::*;
use vstd::std_specs::cmp::PartialEqSpec;

verus! {

/// One node of an [`ArenaTree`]: a value, the handle of its parent and the
/// handles of its children in the order in which they were attached.
#[derive(Debug)]
pub struct TreeNode<T> where T: PartialEq {
    pub index: usize,
    pub value: T,
    pub parent: Option<usize>,
    pub children: Vec<usize>,
}

/// What a [`TreeNode`] holds, with the children as a sequence.
pub struct TreeNodeView<T> {
    pub index: usize,
    pub value: T,
    pub parent: Option<usize>,
    pub children: Seq<usize>,
}

impl<T: PartialEq> View for TreeNode<T> {
    type V = TreeNodeView<T>;

    open spec fn view(&self) -> TreeNodeView<T> {
        TreeNodeView {
            index: self.index,
            value: self.value,
            parent: self.parent,
            children: self.children@,
        }
    }
}

/// A tree that owns its nodes in a vector. A node's handle is its position
/// in that vector; nodes are never removed.
#[derive(Debug)]
pub struct ArenaTree<T> where T: PartialEq {
    pub nodes: Vec<TreeNode<T>>,
}

impl<T: PartialEq> View for ArenaTree<T> {
    type V = Seq<TreeNodeView<T>>;

    /// The nodes in the order of their handles.
    open spec fn view(&self) -> Seq<TreeNodeView<T>> {
        Seq::new(self.nodes@.len(), |i: int| self.nodes@[i]@)
    }
}

/// A node without parent or children.
pub open spec fn leaf<T>(index: usize, value: T) -> TreeNodeView<T> {
    TreeNodeView { index, value, parent: None, children: Seq::empty() }
}

/// Node `i` carries its own handle, is listed once among the children of
/// its parent, and is the parent of each of its children.
pub open spec fn node_consistent<T>(nodes: Seq<TreeNodeView<T>>, i: int) -> bool {
    &&& nodes[i].index == i
    &&& nodes[i].parent matches Some(p) ==> p < nodes.len() && nodes[p as int].children.contains(
        i as usize,
    )
    &&& forall|k: int|
        0 <= k < nodes[i].children.len() ==> {
            let c = #[trigger] nodes[i].children[k];
            c < nodes.len() && nodes[c as int].parent == Some(i as usize)
        }
    &&& nodes[i].children.no_duplicates()
}

/// Parent links and child lists agree on every node.
pub open spec fn tree_consistent<T>(nodes: Seq<TreeNodeView<T>>) -> bool {
    forall|i: int| 0 <= i < nodes.len() ==> #[trigger] node_consistent(nodes, i)
}

/// Some node holds a value equal to `value`.
pub open spec fn holds_value<T: PartialEq>(nodes: Seq<TreeNodeView<T>>, value: T) -> bool {
    exists|i: int| 0 <= i < nodes.len() && (#[trigger] nodes[i]).value.eq_spec(&value)
}

/// `r` is the first handle whose node holds a value equal to `value`.
pub open spec fn is_first_with_value<T: PartialEq>(
    nodes: Seq<TreeNodeView<T>>,
    value: T,
    r: Option<usize>,
) -> bool {
    match r {
        Some(i) => {
            &&& i < nodes.len()
            &&& nodes[i as int].value.eq_spec(&value)
            &&& forall|j: int| 0 <= j < i ==> !(#[trigger] nodes[j]).value.eq_spec(&value)
        },
        None => forall|j: int| 0 <= j < nodes.len() ==> !(#[trigger] nodes[j]).value.eq_spec(&value),
    }
}

/// `r` is the first handle at which the comparison of the node's value with
/// `value` returned `true`; it returned `false` at every handle before, and
/// at all handles when `r` is `None`.
pub open spec fn is_first_equal<T: PartialEq>(
    nodes: Seq<TreeNodeView<T>>,
    value: T,
    r: Option<usize>,
) -> bool {
    match r {
        Some(i) => {
            &&& i < nodes.len()
            &&& call_ensures(T::eq, (&nodes[i as int].value, &value), true)
            &&& forall|j: int|
                0 <= j < i ==> call_ensures(T::eq, (&(#[trigger] nodes[j]).value, &value), false)
        },
        None => forall|j: int|
            0 <= j < nodes.len() ==> call_ensures(
                T::eq,
                (&(#[trigger] nodes[j]).value, &value),
                false,
            ),
    }
}

impl<T> TreeNode<T> where T: PartialEq {
    /// A node with the handle `index` that holds `value` and has neither
    /// parent nor children.
    pub fn new(index: usize, value: T) -> (node: Self)
        ensures
            node@ == leaf(index, value),
    {
        let node = Self { index, value, parent: None, children: Vec::new() };
        assert(node@.children =~= Seq::<usize>::empty());
        node
    }
}

impl<T: PartialEq> Default for ArenaTree<T> {
    /// The tree without nodes.
    fn default() -> (tree: Self)
        ensures
            tree@ == Seq::<TreeNodeView<T>>::empty(),
            tree.wf(),
    {
        let tree = Self { nodes: Vec::new() };
        assert(tree@ =~= Seq::<TreeNodeView<T>>::empty());
        tree
    }
}

impl<T> ArenaTree<T> where T: PartialEq {
    /// Parent links and child lists agree on every node.
    pub open spec fn wf(&self) -> bool {
        tree_consistent(self@)
    }

    /// The number of nodes.
    pub fn size(&self) -> (n: usize)
        ensures
            n == self@.len(),
    {
        self.nodes.len()
    }

    /// The handle of the first node whose value equals `value`.
    pub fn find_node(&self, value: &T) -> (r: Option<usize>)
        ensures
            is_first_equal(self@, *value, r),
            T::obeys_eq_spec() ==> is_first_with_value(self@, *value, r),
    {
        let mut i: usize = 0;
        while i < self.nodes.len()
            invariant
                i <= self.nodes@.len(),
                forall|j: int|
                    0 <= j < i ==> call_ensures(T::eq, (&(#[trigger] self@[j]).value, value), false),
                T::obeys_eq_spec() ==> forall|j: int|
                    0 <= j < i ==> !(#[trigger] self@[j]).value.eq_spec(value),
            decreases self.nodes@.len() - i,
        {
            if self.nodes[i].value == *value {
                assert(self@[i as int].value == self.nodes@[i as int].value);
                return Some(i);
            }
            assert(self@[i as int].value == self.nodes@[i as int].value);
            i += 1;
        }
        None
    }

    /// The handle of the first node on which `predicate` holds.
    pub fn find_node_by<P>(&self, predicate: P) -> (r: Option<usize>) where
        P: Fn(&TreeNode<T>) -> bool,

        requires
            forall|i: int|
                0 <= i < self.nodes@.len() ==> call_requires(predicate, (&#[trigger] self.nodes@[i],)),
        ensures
            match r {
                Some(i) => {
                    &&& i < self.nodes@.len()
                    &&& call_ensures(predicate, (&self.nodes@[i as int],), true)
                    &&& forall|j: int|
                        0 <= j < i ==> call_ensures(predicate, (&#[trigger] self.nodes@[j],), false)
                },
                None => forall|j: int|
                    0 <= j < self.nodes@.len() ==> call_ensures(
                        predicate,
                        (&#[trigger] self.nodes@[j],),
                        false,
                    ),
            },
    {
        let mut i: usize = 0;
        while i < self.nodes.len()
            invariant
                i <= self.nodes@.len(),
                forall|k: int|
                    0 <= k < self.nodes@.len() ==> call_requires(
                        predicate,
                        (&#[trigger] self.nodes@[k],),
                    ),
                forall|j: int|
                    0 <= j < i ==> call_ensures(predicate, (&#[trigger] self.nodes@[j],), false),
            decreases self.nodes@.len() - i,
        {
            if predicate(&self.nodes[i]) {
                return Some(i);
            }
            i += 1;
        }
        None
    }

    /// The handle of the first node whose value equals `value`; when there
    /// is none, a new node without parent or children is appended for it.
    pub fn find_or_add_node(&mut self, value: T) -> (index: usize)
        ensures
            index < final(self)@.len(),
            if final(self)@.len() == old(self)@.len() {
                final(self)@ == old(self)@ && is_first_equal(old(self)@, value, Some(index))
            } else {
                &&& index == old(self)@.len()
                &&& final(self)@ == old(self)@.push(leaf(index, value))
                &&& is_first_equal(old(self)@, value, None)
            },
            T::obeys_eq_spec() ==> if holds_value(old(self)@, value) {
                final(self)@ == old(self)@ && is_first_with_value(old(self)@, value, Some(index))
            } else {
                index == old(self)@.len() && final(self)@ == old(self)@.push(leaf(index, value))
            },
            old(self).wf() ==> final(self).wf(),
    {
        if let Some(index) = self.find_node(&value) {
            return index;
        }
        let index = self.nodes.len();
        let ghost before = self@;
        self.nodes.push(TreeNode::new(index, value));
        proof {
            assert(self.nodes@.len() == self.nodes.len());
            assert(self@ =~= before.push(leaf(index, value)));
            lemma_push_leaf(before, value);
        }
        index
    }
}

/// Appending a node without parent or children keeps a tree consistent.
pub proof fn lemma_push_leaf<T>(nodes: Seq<TreeNodeView<T>>, value: T)
    requires
        nodes.len() < usize::MAX,
    ensures
        tree_consistent(nodes) ==> tree_consistent(nodes.push(leaf(nodes.len() as usize, value))),
{
    let grown = nodes.push(leaf(nodes.len() as usize, value));
    if tree_consistent(nodes) {
        assert forall|i: int| 0 <= i < grown.len() implies #[trigger] node_consistent(grown, i) by {
            if i < nodes.len() {
                assert(node_consistent(nodes, i));
                assert(grown[i] == nodes[i]);
                if let Some(p) = nodes[i].parent {
                    assert(grown[p as int] == nodes[p as int]);
                }
                assert forall|k: int| 0 <= k < grown[i].children.len() implies {
                    let c = #[trigger] grown[i].children[k];
                    c < grown.len() && grown[c as int].parent == Some(i as usize)
                } by {
                    let c = nodes[i].children[k];
                    assert(grown[c as int] == nodes[c as int]);
                }
            }
        }
    }
}

/// Taking the first occurrence of `v` out of a sequence without duplicates
/// leaves a sequence without duplicates that lacks `v` and nothing else.
pub proof fn lemma_remove_value(s: Seq<usize>, v: usize)
    requires
        s.no_duplicates(),
    ensures
        s.remove_value(v).no_duplicates(),
        !s.remove_value(v).contains(v),
        !s.contains(v) ==> s.remove_value(v) == s,
        forall|x: usize| x != v ==> (s.remove_value(v).contains(x) <==> s.contains(x)),
        forall|k: int|
            0 <= k < s.remove_value(v).len() ==> s.contains(#[trigger] s.remove_value(v)[k]),
{
    s.index_of_first_ensures(v);
    let r = s.remove_value(v);
    match s.index_of_first(v) {
        Some(i) => {
            s.remove_ensures(i);
            assert forall|k: int| 0 <= k < r.len() implies s.contains(#[trigger] r[k]) by {
                if k < i {
                    assert(s[k] == r[k]);
                } else {
                    assert(s[k + 1] == r[k]);
                }
            }
            assert forall|a: int, b: int| 0 <= a < r.len() && 0 <= b < r.len() && a != b implies r[a]
                != r[b] by {
                let a2 = if a < i {
                    a
                } else {
                    a + 1
                };
                let b2 = if b < i {
                    b
                } else {
                    b + 1
                };
                assert(r[a] == s[a2] && r[b] == s[b2]);
            }
            if r.contains(v) {
                let k = choose|k: int| 0 <= k < r.len() && r[k] == v;
                let k2 = if k < i {
                    k
                } else {
                    k + 1
                };
                assert(s[k2] == v && s[i] == v);
            }
            assert forall|x: usize| x != v implies (r.contains(x) <==> s.contains(x)) by {
                if s.contains(x) {
                    let k = choose|k: int| 0 <= k < s.len() && s[k] == x;
                    if k < i {
                        assert(r[k] == x);
                    } else {
                        assert(r[k - 1] == x);
                    }
                }
                if r.contains(x) {
                    let k = choose|k: int| 0 <= k < r.len() && r[k] == x;
                    assert(s.contains(r[k]));
                }
            }
        },
        None => {},
    }
}

/// Appending a value that a sequence without duplicates lacks keeps it
/// without duplicates.
pub proof fn lemma_push_fresh(s: Seq<usize>, v: usize)
    requires
        s.no_duplicates(),
        !s.contains(v),
    ensures
        s.push(v).no_duplicates(),
        s.push(v).contains(v),
        s.push(v).remove_value(v) == s,
        forall|x: usize| s.contains(x) ==> s.push(v).contains(x),
{
    let t = s.push(v);
    assert(t[s.len() as int] == v);
    assert forall|x: usize| s.contains(x) implies t.contains(x) by {
        let k = choose|k: int| 0 <= k < s.len() && s[k] == x;
        assert(t[k] == x);
    }
    assert forall|a: int, b: int| 0 <= a < t.len() && 0 <= b < t.len() && a != b implies t[a]
        != t[b] by {
        if a < s.len() {
            assert(s.contains(t[a]));
        }
        if b < s.len() {
            assert(s.contains(t[b]));
        }
    }
    t.index_of_first_ensures(v);
    let i = t.index_of_first(v).unwrap();
    if i < s.len() {
        assert(s[i] == v);
    }
    assert(t.remove(i) =~= s);
}

/// The children of node `i` once `child` has been given the parent
/// `parent`: `child` leaves every list and becomes the last child of `parent`.
pub open spec fn children_after<T>(
    nodes: Seq<TreeNodeView<T>>,
    parent: usize,
    child: usize,
    i: int,
) -> Seq<usize> {
    if i == parent {
        nodes[i].children.remove_value(child).push(child)
    } else {
        nodes[i].children.remove_value(child)
    }
}

/// The nodes once `child` has been given the parent `parent`: `child` is
/// taken out of the child list of its former parent, is appended to the
/// child list of `parent` unless it is there, and gets `parent` as its parent.
pub open spec fn with_parent_child<T>(
    nodes: Seq<TreeNodeView<T>>,
    parent: usize,
    child: usize,
) -> Seq<TreeNodeView<T>> {
    let detached = match nodes[child as int].parent {
        Some(p) => nodes.update(
            p as int,
            TreeNodeView {
                children: nodes[p as int].children.remove_value(child),
                ..nodes[p as int]
            },
        ),
        None => nodes,
    };
    let attached = if detached[parent as int].children.contains(child) {
        detached
    } else {
        detached.update(
            parent as int,
            TreeNodeView {
                children: detached[parent as int].children.push(child),
                ..detached[parent as int]
            },
        )
    };
    attached.update(child as int, TreeNodeView { parent: Some(parent), ..attached[child as int] })
}

/// In a consistent tree only the parent of a node lists it as a child.
proof fn lemma_listed_by_parent_only<T>(nodes: Seq<TreeNodeView<T>>, i: int, child: usize)
    requires
        tree_consistent(nodes),
        0 <= i < nodes.len(),
        child < nodes.len(),
        nodes[child as int].parent != Some(i as usize),
    ensures
        !nodes[i].children.contains(child),
        nodes[i].children.remove_value(child) == nodes[i].children,
{
    assert(node_consistent(nodes, i));
    if nodes[i].children.contains(child) {
        let k = choose|k: int| 0 <= k < nodes[i].children.len() && nodes[i].children[k] == child;
        assert(nodes[nodes[i].children[k] as int].parent == Some(i as usize));
    }
    lemma_remove_value(nodes[i].children, child);
}

/// Giving `child` the parent `parent` in a consistent tree changes nothing
/// but the parent of `child` and the child lists, as `children_after` says,
/// and leaves the tree consistent.
pub proof fn lemma_with_parent_child<T>(nodes: Seq<TreeNodeView<T>>, parent: usize, child: usize)
    requires
        tree_consistent(nodes),
        parent < nodes.len(),
        child < nodes.len(),
    ensures
        with_parent_child(nodes, parent, child).len() == nodes.len(),
        forall|i: int|
            0 <= i < nodes.len() ==> {
                let after = #[trigger] with_parent_child(nodes, parent, child)[i];
                &&& after.index == nodes[i].index
                &&& after.value == nodes[i].value
                &&& after.parent == if i == child {
                    Some(parent)
                } else {
                    nodes[i].parent
                }
                &&& after.children == children_after(nodes, parent, child, i)
            },
        tree_consistent(with_parent_child(nodes, parent, child)),
{
    let after = with_parent_child(nodes, parent, child);
    assert(node_consistent(nodes, child as int));
    assert(node_consistent(nodes, parent as int));
    assert forall|i: int| 0 <= i < nodes.len() implies (#[trigger] after[i]).children
        == children_after(nodes, parent, child, i) by {
        assert(node_consistent(nodes, i));
        lemma_remove_value(nodes[i].children, child);
        if nodes[child as int].parent != Some(i as usize) {
            lemma_listed_by_parent_only(nodes, i, child);
        }
    }
    assert forall|i: int| 0 <= i < after.len() implies #[trigger] node_consistent(after, i) by {
        assert(node_consistent(nodes, i));
        lemma_remove_value(nodes[i].children, child);
        let base = nodes[i].children.remove_value(child);
        if i == parent {
            lemma_push_fresh(base, child);
        }
        // the parent of node i lists it
        if i == child {
            lemma_remove_value(nodes[parent as int].children, child);
            lemma_push_fresh(nodes[parent as int].children.remove_value(child), child);
        } else if let Some(p) = nodes[i].parent {
            assert(node_consistent(nodes, p as int));
            lemma_remove_value(nodes[p as int].children, child);
            let pbase = nodes[p as int].children.remove_value(child);
            assert(pbase.contains(i as usize));
            if p == parent {
                lemma_push_fresh(pbase, child);
            }
        }
        // node i is the parent of each node it lists
        assert forall|k: int| 0 <= k < after[i].children.len() implies {
            let c = #[trigger] after[i].children[k];
            c < after.len() && after[c as int].parent == Some(i as usize)
        } by {
            let c = after[i].children[k];
            if k < base.len() {
                assert(c == base[k]);
                assert(nodes[i].children.contains(base[k]));
                let k0 = choose|k0: int|
                    0 <= k0 < nodes[i].children.len() && nodes[i].children[k0] == c;
                assert(nodes[nodes[i].children[k0] as int].parent == Some(i as usize));
                assert(base.contains(c));
            }
        }
    }
}

/// Giving `child` the parent `parent` a second time changes nothing, and
/// `parent` then lists `child` at exactly one position.
pub proof fn lemma_set_parent_child_twice<T>(
    nodes: Seq<TreeNodeView<T>>,
    parent: usize,
    child: usize,
)
    requires
        tree_consistent(nodes),
        parent < nodes.len(),
        child < nodes.len(),
    ensures
        ({
            let once = with_parent_child(nodes, parent, child);
            let twice = with_parent_child(once, parent, child);
            &&& twice == once
            &&& exists|k: int|
                0 <= k < twice[parent as int].children.len() && twice[parent as int].children[k]
                    == child && forall|j: int|
                    0 <= j < twice[parent as int].children.len()
                        && #[trigger] twice[parent as int].children[j] == child ==> j == k
        }),
{
    let once = with_parent_child(nodes, parent, child);
    let twice = with_parent_child(once, parent, child);
    lemma_with_parent_child(nodes, parent, child);
    lemma_with_parent_child(once, parent, child);
    assert forall|i: int| 0 <= i < once.len() implies #[trigger] twice[i] == once[i] by {
        assert(node_consistent(nodes, i));
        assert(node_consistent(once, i));
        assert(once[i].children == children_after(nodes, parent, child, i));
        assert(twice[i].children == children_after(once, parent, child, i));
        lemma_remove_value(nodes[i].children, child);
        let base = nodes[i].children.remove_value(child);
        if i == parent {
            lemma_push_fresh(base, child);
        } else {
            lemma_remove_value(base, child);
        }
        assert(twice[i].children =~= once[i].children);
    }
    assert(twice =~= once);
    assert(node_consistent(once, parent as int));
    assert(node_consistent(nodes, parent as int));
    let list = once[parent as int].children;
    lemma_remove_value(nodes[parent as int].children, child);
    let k = list.len() - 1;
    assert(list[k] == child);
    assert forall|j: int| 0 <= j < list.len() && #[trigger] list[j] == child implies j == k by {}
}

/// The first position of `child` in `children`.
fn position_of(children: &Vec<usize>, child: usize) -> (r: Option<usize>)
    ensures
        match r {
            Some(k) => k < children@.len() && children@.index_of_first(child) == Some(k as int),
            None => children@.index_of_first(child).is_none(),
        },
{
    let mut k: usize = 0;
    while k < children.len()
        invariant
            k <= children@.len(),
            forall|j: int| 0 <= j < k ==> children@[j] != child,
        decreases children@.len() - k,
    {
        if children[k] == child {
            proof {
                children@.index_of_first_ensures(child);
                assert(children@[k as int] == child);
                assert(children@.contains(child));
                let first = children@.index_of_first(child).unwrap();
                if first < k {
                    assert(children@[first] != child);
                }
            }
            return Some(k);
        }
        k += 1;
    }
    proof {
        children@.index_of_first_ensures(child);
        if children@.contains(child) {
            let j = choose|j: int| 0 <= j < children@.len() && children@[j] == child;
            assert(children@[j] != child);
        }
    }
    None
}

impl<T> ArenaTree<T> where T: PartialEq {
    /// Makes `parent` the parent of `child`: `child` leaves the child list of
    /// its former parent and stands in that of `parent`, once.
    pub fn set_parent_child(&mut self, parent: usize, child: usize)
        requires
            old(self).wf(),
            parent < old(self)@.len(),
            child < old(self)@.len(),
        ensures
            final(self)@ == with_parent_child(old(self)@, parent, child),
            final(self).wf(),
            final(self)@.len() == old(self)@.len(),
            final(self)@[child as int].parent == Some(parent),
            final(self)@[parent as int].children == old(self)@[parent as int].children.remove_value(
                child,
            ).push(child),
    {
        let ghost before = self@;
        proof {
            lemma_with_parent_child(before, parent, child);
            assert(node_consistent(before, child as int));
        }
        if let Some(prev_parent) = self.nodes[child].parent {
            if let Some(k) = position_of(&self.nodes[prev_parent].children, child) {
                self.nodes[prev_parent].children.remove(k);
            }
        }
        let ghost detached = self@;
        proof {
            assert(detached =~= match before[child as int].parent {
                Some(p) => before.update(
                    p as int,
                    TreeNodeView {
                        children: before[p as int].children.remove_value(child),
                        ..before[p as int]
                    },
                ),
                None => before,
            });
            detached[parent as int].children.index_of_first_ensures(child);
        }
        if position_of(&self.nodes[parent].children, child).is_none() {
            self.nodes[parent].children.push(child);
        }
        let ghost attached = self@;
        proof {
            assert(attached =~= if detached[parent as int].children.contains(child) {
                detached
            } else {
                detached.update(
                    parent as int,
                    TreeNodeView {
                        children: detached[parent as int].children.push(child),
                        ..detached[parent as int]
                    },
                )
            });
        }
        self.nodes[child].parent = Some(parent);
        proof {
            assert(self@ =~= attached.update(
                child as int,
                TreeNodeView { parent: Some(parent), ..attached[child as int] },
            ));
            assert(with_parent_child(before, parent, child)[parent as int].children
                == children_after(before, parent, child, parent as int));
        }
    }
}

/// No walk from node `i` down the child lists takes more than `h` steps.
pub open spec fn height_within<T>(nodes: Seq<TreeNodeView<T>>, i: int, h: nat) -> bool
    decreases h,
{
    forall|k: int|
        0 <= k < nodes[i].children.len() ==> h > 0 && height_within(
            nodes,
            (#[trigger] nodes[i].children[k]) as int,
            (h - 1) as nat,
        )
}

/// The nodes below `i` and `i` itself, each with its depth, in the order of
/// a depth-first walk that visits a node before its children and the
/// children in the order of the child list. `i` has the depth `depth`;
/// `h` bounds the height of the walk.
pub open spec fn preorder<T>(nodes: Seq<TreeNodeView<T>>, i: usize, depth: nat, h: nat) -> Seq<
    (usize, usize),
>
    decreases h, 0nat,
{
    seq![(i, depth as usize)] + if h == 0 {
        Seq::empty()
    } else {
        preorder_each(nodes, nodes[i as int].children, depth + 1, (h - 1) as nat)
    }
}

/// The walks of `preorder` from each of `children` in turn, one after another.
pub open spec fn preorder_each<T>(
    nodes: Seq<TreeNodeView<T>>,
    children: Seq<usize>,
    depth: nat,
    h: nat,
) -> Seq<(usize, usize)>
    decreases h, children.len() + 1,
{
    if children.len() == 0 {
        Seq::empty()
    } else {
        preorder_each(nodes, children.drop_last(), depth, h) + preorder(
            nodes,
            children.last(),
            depth,
            h,
        )
    }
}

/// A height bound can be raised.
pub proof fn lemma_height_within_more<T>(nodes: Seq<TreeNodeView<T>>, i: int, h1: nat, h2: nat)
    requires
        height_within(nodes, i, h1),
        h1 <= h2,
    ensures
        height_within(nodes, i, h2),
    decreases h1,
{
    assert forall|k: int| 0 <= k < nodes[i].children.len() implies h2 > 0 && height_within(
        nodes,
        (#[trigger] nodes[i].children[k]) as int,
        (h2 - 1) as nat,
    ) by {
        lemma_height_within_more(nodes, nodes[i].children[k] as int, (h1 - 1) as nat, (h2 - 1) as nat);
    }
}

/// The walk from a node does not depend on which bound of its height is taken.
pub proof fn lemma_preorder_any_bound<T>(
    nodes: Seq<TreeNodeView<T>>,
    i: usize,
    depth: nat,
    h1: nat,
    h2: nat,
)
    requires
        height_within(nodes, i as int, h1),
        height_within(nodes, i as int, h2),
    ensures
        preorder(nodes, i, depth, h1) == preorder(nodes, i, depth, h2),
    decreases h1, 0nat,
{
    let children = nodes[i as int].children;
    if children.len() == 0 {
        if h1 > 0 {
            assert(preorder_each(nodes, children, depth + 1, (h1 - 1) as nat) == Seq::<
                (usize, usize),
            >::empty());
        }
        if h2 > 0 {
            assert(preorder_each(nodes, children, depth + 1, (h2 - 1) as nat) == Seq::<
                (usize, usize),
            >::empty());
        }
    } else {
        assert(height_within(nodes, children[0] as int, (h1 - 1) as nat));
        lemma_preorder_each_any_bound(
            nodes,
            children,
            children.len() as int,
            depth + 1,
            (h1 - 1) as nat,
            (h2 - 1) as nat,
        );
        assert(children.take(children.len() as int) =~= children);
    }
}

/// The walks from the first `n` of `children` do not depend on which bound
/// of their heights is taken.
proof fn lemma_preorder_each_any_bound<T>(
    nodes: Seq<TreeNodeView<T>>,
    children: Seq<usize>,
    n: int,
    depth: nat,
    h1: nat,
    h2: nat,
)
    requires
        0 <= n <= children.len(),
        forall|k: int| 0 <= k < children.len() ==> height_within(nodes, #[trigger] children[k] as int, h1),
        forall|k: int| 0 <= k < children.len() ==> height_within(nodes, #[trigger] children[k] as int, h2),
    ensures
        preorder_each(nodes, children.take(n), depth, h1) == preorder_each(
            nodes,
            children.take(n),
            depth,
            h2,
        ),
    decreases h1, n + 1,
{
    if n > 0 {
        let part = children.take(n);
        assert(part.drop_last() =~= children.take(n - 1));
        assert(part.last() == children[n - 1]);
        lemma_preorder_each_any_bound(nodes, children, n - 1, depth, h1, h2);
        lemma_preorder_any_bound(nodes, children[n - 1], depth, h1, h2);
    }
}

impl<T> ArenaTree<T> where T: PartialEq {
    /// The child lists below `index` hold no cycle.
    pub open spec fn acyclic_below(&self, index: usize) -> bool {
        exists|h: nat| height_within(self@, index as int, h)
    }

    /// A bound on the height of the tree below `index`, where there is one.
    pub open spec fn height_bound(&self, index: usize) -> nat {
        choose|h: nat| height_within(self@, index as int, h)
    }

    /// The handles and depths of `index` and the nodes below it, a node
    /// before its children and the children in the order of the child list;
    /// `index` has the depth 0.
    pub open spec fn preorder_from(&self, index: usize) -> Seq<(usize, usize)> {
        preorder(self@, index, 0, self.height_bound(index))
    }

    /// The depth-first walk from `index`: each node met, by handle, with its
    /// depth below `index`, parents before children and children in the
    /// order of the child lists.
    pub fn traverse(&self, index: usize) -> (visited: Vec<(usize, usize)>)
        requires
            self.wf(),
            index < self@.len(),
            self.acyclic_below(index),
        ensures
            visited@ == self.preorder_from(index),
    {
        let mut visited: Vec<(usize, usize)> = Vec::new();
        self.traverse_with_depth(index, 0, &mut visited, Ghost(self.height_bound(index)));
        assert(visited@ =~= self.preorder_from(index));
        visited
    }

    /// Appends to `visited` the walk from `index`, which has the depth `depth`.
    fn traverse_with_depth(
        &self,
        index: usize,
        depth: usize,
        visited: &mut Vec<(usize, usize)>,
        Ghost(h): Ghost<nat>,
    )
        requires
            self.wf(),
            index < self@.len(),
            height_within(self@, index as int, h),
            depth <= old(visited)@.len(),
        ensures
            final(visited)@ == old(visited)@ + preorder(self@, index, depth as nat, h),
        decreases h,
    {
        let ghost start = visited@;
        let ghost children = self@[index as int].children;
        visited.push((index, depth));
        proof {
            assert(visited@.len() == visited.len());
            assert(node_consistent(self@, index as int));
            assert(children.take(0) =~= Seq::<usize>::empty());
        }
        let count = self.nodes[index].children.len();
        let mut k: usize = 0;
        while k < count
            invariant
                self.wf(),
                index < self@.len(),
                children == self@[index as int].children,
                count == children.len(),
                height_within(self@, index as int, h),
                k <= count,
                depth < visited@.len(),
                count > 0 ==> h > 0,
                visited@ == start + seq![(index, depth)] + preorder_each(
                    self@,
                    children.take(k as int),
                    depth as nat + 1,
                    (h - 1) as nat,
                ),
            decreases count - k,
        {
            let child = self.nodes[index].children[k];
            let ghost sofar = visited@;
            proof {
                assert(node_consistent(self@, index as int));
                assert(child == children[k as int]);
                assert(height_within(self@, children[k as int] as int, (h - 1) as nat));
                assert(visited@.len() == visited.len());
            }
            self.traverse_with_depth(child, depth + 1, visited, Ghost((h - 1) as nat));
            proof {
                let part = children.take(k + 1);
                assert(part.drop_last() =~= children.take(k as int));
                assert(part.last() == child);
                assert(visited@ =~= start + seq![(index, depth)] + preorder_each(
                    self@,
                    part,
                    depth as nat + 1,
                    (h - 1) as nat,
                ));
            }
            k += 1;
        }
        proof {
            assert(children.take(count as int) =~= children);
            if h == 0 {
                assert(count == 0);
                assert(preorder_each(self@, children, depth as nat + 1, 0) =~= Seq::<
                    (usize, usize),
                >::empty());
            }
            assert(visited@ =~= start + preorder(self@, index, depth as nat, h));
        }
    }
}

} // verus!
