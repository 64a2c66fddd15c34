use vstd::prelude::*;

verus! {

/// A tree stored as an arena: node 0 is the root, and each node has a value
/// and the indices of its children, in the order they were added.
pub struct Tree<T> {
    children: Vec<Vec<usize>>,
    value: Vec<T>,
}

/// A node of a [`Tree`], by index.
#[derive(Clone, Copy, Debug, PartialEq, Eq, Structural)]
pub struct Node {
    pub index: usize,
}

impl<T> Tree<T> {
    pub closed spec fn wf(&self) -> bool {
        &&& self.value@.len() == self.children@.len()
        &&& self.value@.len() > 0
        &&& forall|i: int, k: int|
            0 <= i < self.children@.len() && 0 <= k < self.children@[i]@.len() ==> #[trigger] self.children@[i]@[k]
                < self.value@.len()
    }

    /// The values of the nodes, by index.
    pub closed spec fn values(&self) -> Seq<T> {
        self.value@
    }

    /// The children of each node, by index.
    pub closed spec fn kids(&self) -> Seq<Seq<usize>> {
        self.children@.map_values(|c: Vec<usize>| c@)
    }

    /// Every child index names a node of the tree.
    pub proof fn lemma_kids_bounded(&self)
        requires
            self.wf(),
        ensures
            self.kids().len() == self.values().len(),
            self.values().len() > 0,
            forall|i: int, k: int|
                0 <= i < self.kids().len() && 0 <= k < self.kids()[i].len() ==> #[trigger] self.kids()[i][k]
                    < self.values().len(),
    {
        assert forall|i: int, k: int|
            0 <= i < self.kids().len() && 0 <= k < self.kids()[i].len() implies #[trigger] self.kids()[i][k]
            < self.values().len() by {
            assert(self.kids()[i] == self.children@[i]@);
            assert(self.children@[i]@[k] < self.value@.len());
        }
    }

    /// A tree of a root alone, holding `root`.
    pub fn new(root: T) -> (r: Self)
        ensures
            r.wf(),
            r.values() == seq![root],
            r.kids() == seq![Seq::<usize>::empty()],
    {
        let mut children: Vec<Vec<usize>> = Vec::new();
        children.push(Vec::new());
        let mut value: Vec<T> = Vec::new();
        value.push(root);
        let r = Tree { children, value };
        assert(r.kids() =~= seq![Seq::<usize>::empty()]);
        assert(r.values() =~= seq![root]);
        r
    }

    /// The number of nodes.
    pub fn len(&self) -> (r: usize)
        requires
            self.wf(),
        ensures
            r == self.values().len(),
    {
        self.value.len()
    }

    /// Adds a node without a parent and returns it.
    pub fn add_node(&mut self, value: T) -> (r: Node)
        requires
            old(self).wf(),
        ensures
            final(self).wf(),
            r.index == old(self).values().len(),
            final(self).values() == old(self).values().push(value),
            final(self).kids() == old(self).kids().push(Seq::<usize>::empty()),
    {
        let index = self.value.len();
        self.children.push(Vec::new());
        self.value.push(value);
        assert(self.kids() =~= old(self).kids().push(Seq::<usize>::empty()));
        proof {
            assert forall|i: int, k: int|
                0 <= i < self.children@.len() && 0 <= k < self.children@[i]@.len() implies #[trigger] self.children@[i]@[k]
                < self.value@.len() by {
                if i < old(self).children@.len() {
                    assert(self.children@[i] == old(self).children@[i]);
                }
            }
        }
        Node { index }
    }

    /// The root.
    pub fn root(&self) -> (r: Node)
        ensures
            r.index == 0,
    {
        Node { index: 0 }
    }
}

impl Node {
    /// Appends `child` to this node's children.
    pub fn add_child<T>(&self, tree: &mut Tree<T>, child: Node)
        requires
            old(tree).wf(),
            self.index < old(tree).values().len(),
            child.index < old(tree).values().len(),
        ensures
            final(tree).wf(),
            final(tree).values() == old(tree).values(),
            final(tree).kids() == old(tree).kids().update(
                self.index as int,
                old(tree).kids()[self.index as int].push(child.index),
            ),
    {
        let mut list: Vec<usize> = Vec::new();
        tree.children.set_and_swap(self.index, &mut list);
        list.push(child.index);
        tree.children.set(self.index, list);
        assert(tree.kids() =~= old(tree).kids().update(
            self.index as int,
            old(tree).kids()[self.index as int].push(child.index),
        ));
        proof {
            assert forall|i: int, k: int|
                0 <= i < tree.children@.len() && 0 <= k < tree.children@[i]@.len() implies #[trigger] tree.children@[i]@[k]
                < tree.value@.len() by {
                if i != self.index {
                    assert(tree.children@[i] == old(tree).children@[i]);
                } else if k < old(tree).children@[i]@.len() {
                    assert(tree.children@[i]@[k] == old(tree).children@[i]@[k]);
                }
            }
        }
    }

    /// Replaces this node's value.
    pub fn set_value<T>(&self, tree: &mut Tree<T>, value: T)
        requires
            old(tree).wf(),
            self.index < old(tree).values().len(),
        ensures
            final(tree).wf(),
            final(tree).values() == old(tree).values().update(self.index as int, value),
            final(tree).kids() == old(tree).kids(),
    {
        tree.value.set(self.index, value);
    }

    /// This node's value.
    pub fn value<'a, T>(&self, tree: &'a Tree<T>) -> (r: &'a T)
        requires
            tree.wf(),
            self.index < tree.values().len(),
        ensures
            *r == tree.values()[self.index as int],
    {
        &tree.value[self.index]
    }

    /// This node's children, in the order they were added.
    pub fn children<T>(&self, tree: &Tree<T>) -> (r: Vec<Node>)
        requires
            tree.wf(),
            self.index < tree.values().len(),
        ensures
            r@.len() == tree.kids()[self.index as int].len(),
            forall|k: int| 0 <= k < r@.len() ==> #[trigger] r@[k].index == tree.kids()[self.index as int][k],
    {
        let list = &tree.children[self.index];
        let mut out: Vec<Node> = Vec::new();
        let mut k: usize = 0;
        while k < list.len()
            invariant
                list@ == tree.kids()[self.index as int],
                k <= list@.len(),
                out@.len() == k,
                forall|j: int| 0 <= j < k ==> #[trigger] out@[j].index == list@[j],
            decreases list@.len() - k,
        {
            out.push(Node { index: list[k] });
            k = k + 1;
        }
        out
    }
}

} // verus!
