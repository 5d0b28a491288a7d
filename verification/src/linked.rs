//! A doubly linked list whose nodes live in one vector and link by index.

use vstd::prelude::*;

verus! {

/// One node of an [`ArenaLinkedList`]: a value and the handles of its neighbours.
#[derive(Debug)]
pub struct LinkedListNode<T> {
    pub index: usize,
    pub value: T,
    pub prev: Option<usize>,
    pub next: Option<usize>,
}

/// A list that owns its nodes in a vector. A node's handle is its position
/// in that vector.
#[derive(Debug)]
pub struct ArenaLinkedList<T> {
    pub nodes: Vec<LinkedListNode<T>>,
}

/// The node at position `i` of a list of `len` nodes carries its own handle
/// and links to the positions next to it.
pub open spec fn node_linked<T>(node: LinkedListNode<T>, i: int, len: int) -> bool {
    &&& node.index == i
    &&& node.prev == (if i > 0 {
        Some((i - 1) as usize)
    } else {
        None
    })
    &&& node.next == (if i + 1 < len {
        Some((i + 1) as usize)
    } else {
        None
    })
}

/// All nodes are linked in the order in which they are stored.
pub open spec fn links_consistent<T>(nodes: Seq<LinkedListNode<T>>) -> bool {
    forall|i: int| 0 <= i < nodes.len() ==> node_linked(#[trigger] nodes[i], i, nodes.len() as int)
}

/// The values of the nodes, in storage order.
pub open spec fn values_of<T>(nodes: Seq<LinkedListNode<T>>) -> Seq<T> {
    Seq::new(nodes.len(), |i: int| nodes[i].value)
}

/// The nodes after `value` is appended: the former last node, if any, now
/// points at the new one, which points back at it.
pub open spec fn pushed<T>(nodes: Seq<LinkedListNode<T>>, value: T) -> Seq<LinkedListNode<T>> {
    let n = nodes.len() as int;
    let patched = if n > 0 {
        nodes.update(n - 1, LinkedListNode { next: Some(n as usize), ..nodes[n - 1] })
    } else {
        nodes
    };
    patched.push(
        LinkedListNode {
            index: n as usize,
            value,
            prev: if n > 0 {
                Some((n - 1) as usize)
            } else {
                None
            },
            next: None,
        },
    )
}

/// The nodes after the last one is removed: the new last node, if any, has
/// no successor.
pub open spec fn popped<T>(nodes: Seq<LinkedListNode<T>>) -> Seq<LinkedListNode<T>>
    recommends
        nodes.len() > 0,
{
    let rest = nodes.drop_last();
    let n = rest.len() as int;
    if n > 0 {
        rest.update(n - 1, LinkedListNode { next: None, ..rest[n - 1] })
    } else {
        rest
    }
}

/// The nodes that pushing `values` one after another onto an empty list leaves.
pub open spec fn pushed_all<T>(values: Seq<T>) -> Seq<LinkedListNode<T>>
    decreases values.len(),
{
    if values.len() == 0 {
        Seq::empty()
    } else {
        pushed(pushed_all(values.drop_last()), values.last())
    }
}

/// Appending to consistently linked nodes leaves them consistently linked,
/// with the new value at the end.
pub proof fn lemma_pushed<T>(nodes: Seq<LinkedListNode<T>>, value: T)
    requires
        nodes.len() < usize::MAX,
    ensures
        pushed(nodes, value).len() == nodes.len() + 1,
        values_of(pushed(nodes, value)) == values_of(nodes).push(value),
        links_consistent(nodes) ==> links_consistent(pushed(nodes, value)),
{
    assert(values_of(pushed(nodes, value)) =~= values_of(nodes).push(value));
}

/// Removing the last of consistently linked nodes leaves the rest
/// consistently linked.
pub proof fn lemma_popped<T>(nodes: Seq<LinkedListNode<T>>)
    requires
        nodes.len() > 0,
    ensures
        popped(nodes).len() == nodes.len() - 1,
        values_of(popped(nodes)) == values_of(nodes).drop_last(),
        links_consistent(nodes) ==> links_consistent(popped(nodes)),
{
    assert(values_of(popped(nodes)) =~= values_of(nodes).drop_last());
}

/// A list built by pushing `values` in order is consistently linked and
/// holds exactly `values`.
pub proof fn lemma_pushed_all<T>(values: Seq<T>)
    requires
        values.len() <= usize::MAX,
    ensures
        pushed_all(values).len() == values.len(),
        links_consistent(pushed_all(values)),
        values_of(pushed_all(values)) == values,
    decreases values.len(),
{
    if values.len() > 0 {
        lemma_pushed_all(values.drop_last());
        lemma_pushed(pushed_all(values.drop_last()), values.last());
        assert(values.drop_last().push(values.last()) =~= values);
    } else {
        assert(values_of(pushed_all(values)) =~= values);
    }
}

impl<T> View for ArenaLinkedList<T> {
    type V = Seq<T>;

    /// The values of the list, first to last.
    open spec fn view(&self) -> Seq<T> {
        values_of(self.nodes@)
    }
}

impl<T> Default for ArenaLinkedList<T> {
    /// The empty list.
    fn default() -> (list: Self)
        ensures
            list.nodes@ == Seq::<LinkedListNode<T>>::empty(),
    {
        Self { nodes: Vec::new() }
    }
}

impl<T> ArenaLinkedList<T> {
    /// The links agree with the order of the nodes.
    pub open spec fn wf(&self) -> bool {
        links_consistent(self.nodes@)
    }

    /// The empty list.
    pub fn new() -> (list: Self)
        ensures
            list.nodes@ == Seq::<LinkedListNode<T>>::empty(),
            list.wf(),
    {
        Self { nodes: Vec::new() }
    }

    /// The list that holds `vec`, built by pushing its items in order.
    pub fn from_vec(vec: Vec<T>) -> (list: Self)
        ensures
            list.nodes@ == pushed_all(vec@),
            list@ == vec@,
            list.wf(),
    {
        let ghost values = vec@;
        let mut list = Self { nodes: Vec::with_capacity(vec.len()) };
        assert(values.take(0) =~= Seq::<T>::empty());
        for item in iter: vec
            invariant
                iter.seq() == values,
                list.nodes@ == pushed_all(values.take(iter.index() as int)),
        {
            assert(values.take(iter.index() + 1).drop_last() =~= values.take(iter.index() as int));
            list.push(item);
        }
        proof {
            assert(values.take(values.len() as int) =~= values);
            assert(vec@.len() == vec.len());
            lemma_pushed_all(values);
        }
        list
    }

    /// Whether the list holds no node.
    pub fn is_empty(&self) -> (b: bool)
        ensures
            b == (self.nodes@.len() == 0),
    {
        self.nodes.len() < 1
    }

    /// The number of nodes.
    pub fn len(&self) -> (n: usize)
        ensures
            n == self.nodes@.len(),
    {
        self.nodes.len()
    }

    /// The first node, if there is one.
    pub fn head(&self) -> (r: Option<&LinkedListNode<T>>)
        ensures
            r == if self.nodes@.len() > 0 {
                Some(&self.nodes@[0])
            } else {
                None
            },
    {
        if self.nodes.len() > 0 {
            Some(&self.nodes[0])
        } else {
            None
        }
    }

    /// The last node, if there is one.
    pub fn tail(&self) -> (r: Option<&LinkedListNode<T>>)
        ensures
            r == if self.nodes@.len() > 0 {
                Some(&self.nodes@[self.nodes@.len() - 1])
            } else {
                None
            },
    {
        let n = self.nodes.len();
        if n > 0 {
            Some(&self.nodes[n - 1])
        } else {
            None
        }
    }

    /// The first value, if there is one.
    pub fn first(&self) -> (r: Option<&T>)
        ensures
            r == if self@.len() > 0 {
                Some(&self@[0])
            } else {
                None
            },
    {
        match self.head() {
            Some(node) => Some(&node.value),
            None => None,
        }
    }

    /// The last value, if there is one.
    pub fn last(&self) -> (r: Option<&T>)
        ensures
            r == if self@.len() > 0 {
                Some(&self@[self@.len() - 1])
            } else {
                None
            },
    {
        match self.tail() {
            Some(node) => Some(&node.value),
            None => None,
        }
    }

    /// The value of the node with handle `index`, if there is such a node.
    pub fn get(&self, index: usize) -> (r: Option<&T>)
        ensures
            r == if index < self@.len() {
                Some(&self@[index as int])
            } else {
                None
            },
    {
        if index < self.nodes.len() {
            Some(&self.nodes[index].value)
        } else {
            None
        }
    }

    /// The value of the node with handle `index`, for writing; the links of
    /// the node stay as they are.
    pub fn get_mut(&mut self, index: usize) -> (r: Option<&mut T>)
        ensures
            match r {
                Some(value) => {
                    &&& index < old(self).nodes@.len()
                    &&& *value == old(self).nodes@[index as int].value
                    &&& final(self).nodes@ == old(self).nodes@.update(
                        index as int,
                        LinkedListNode { value: *final(value), ..old(self).nodes@[index as int] },
                    )
                },
                None => index >= old(self).nodes@.len() && final(self).nodes@ == old(self).nodes@,
            },
    {
        if index < self.nodes.len() {
            Some(&mut self.nodes[index].value)
        } else {
            None
        }
    }

    /// The values met when walking from the first node along the `next`
    /// links until a node has none.
    pub fn traverse(&self) -> (visited: Vec<&T>)
        requires
            self.wf(),
        ensures
            visited@.len() == self@.len(),
            forall|i: int| 0 <= i < self@.len() ==> *(#[trigger] visited@[i]) == self@[i],
    {
        let mut visited: Vec<&T> = Vec::new();
        if self.nodes.len() == 0 {
            return visited;
        }
        let mut current: usize = 0;
        loop
            invariant_except_break
                self.wf(),
                current < self.nodes@.len(),
                visited@.len() == current,
                forall|i: int| 0 <= i < current ==> *(#[trigger] visited@[i]) == self@[i],
            ensures
                visited@.len() == self@.len(),
                forall|i: int| 0 <= i < self@.len() ==> *(#[trigger] visited@[i]) == self@[i],
            decreases self.nodes@.len() - current,
        {
            let node = &self.nodes[current];
            assert(node_linked(self.nodes@[current as int], current as int, self.nodes@.len() as int));
            assert(self.nodes@.len() == self.nodes.len());
            visited.push(&node.value);
            match node.next {
                Some(index) => {
                    current = index;
                },
                None => {
                    break ;
                },
            }
        }
        visited
    }

    /// The values met when walking from the last node along the `prev`
    /// links until a node has none.
    pub fn traverse_rev(&self) -> (visited: Vec<&T>)
        requires
            self.wf(),
        ensures
            visited@.len() == self@.len(),
            forall|i: int|
                0 <= i < self@.len() ==> *(#[trigger] visited@[i]) == self@[self@.len() - 1 - i],
            forall|i: int| 0 <= i < self@.len() ==> *(#[trigger] visited@[i]) == self@.reverse()[i],
    {
        let mut visited: Vec<&T> = Vec::new();
        let count = self.nodes.len();
        if count == 0 {
            return visited;
        }
        let mut current: usize = count - 1;
        loop
            invariant_except_break
                self.wf(),
                count == self.nodes@.len(),
                current < count,
                visited@.len() == count - 1 - current,
                forall|i: int|
                    0 <= i < visited@.len() ==> *(#[trigger] visited@[i]) == self@[count - 1 - i],
            ensures
                visited@.len() == self@.len(),
                forall|i: int|
                    0 <= i < self@.len() ==> *(#[trigger] visited@[i]) == self@[self@.len() - 1 - i],
            decreases current,
        {
            let node = &self.nodes[current];
            assert(node_linked(self.nodes@[current as int], current as int, count as int));
            visited.push(&node.value);
            match node.prev {
                Some(index) => {
                    current = index;
                },
                None => {
                    break ;
                },
            }
        }
        visited
    }

    /// Appends `value` and returns the handle of its node.
    pub fn push(&mut self, value: T) -> (index: usize)
        ensures
            index == old(self).nodes@.len(),
            final(self).nodes@ == pushed(old(self).nodes@, value),
            final(self)@ == old(self)@.push(value),
            old(self).wf() ==> final(self).wf(),
    {
        let index = self.nodes.len();
        let ghost before = self.nodes@;
        self.nodes.push(
            LinkedListNode { index, value, prev: if index > 0 {
                Some(index - 1)
            } else {
                None
            }, next: None },
        );
        if index > 0 {
            self.nodes[index - 1].next = Some(index);
        }
        proof {
            assert(self.nodes@.len() == self.nodes.len());
            assert(self.nodes@ =~= pushed(before, value));
            lemma_pushed(before, value);
        }
        index
    }

    /// Removes the last node and returns its value; `None` on an empty list.
    pub fn pop(&mut self) -> (r: Option<T>)
        ensures
            old(self).nodes@.len() == 0 ==> r.is_none() && final(self).nodes@ == old(self).nodes@,
            old(self).nodes@.len() > 0 ==> {
                &&& r == Some(old(self).nodes@.last().value)
                &&& final(self).nodes@ == popped(old(self).nodes@)
                &&& final(self)@ == old(self)@.drop_last()
            },
            old(self).wf() ==> final(self).wf(),
    {
        let ghost before = self.nodes@;
        match self.nodes.pop() {
            Some(node) => {
                let rest = self.nodes.len();
                if rest > 0 {
                    self.nodes[rest - 1].next = None;
                }
                proof {
                    assert(self.nodes@ =~= popped(before));
                    lemma_popped(before);
                }
                Some(node.value)
            },
            None => None,
        }
    }
}

} // verus!
