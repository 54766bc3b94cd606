use vstd::prelude::*;

use crate::construction::apply_step;
use crate::construction::BuildStep;

verus! {

/// The mathematical model of one arena slot: the payload together with the
/// links that tie it into the tree.
pub ghost struct NodeModel<T> {
    pub data: T,
    pub children: Seq<usize>,
    pub parent: Option<usize>,
}

/// A single node of the tree: a payload, the indices of its children in the
/// order they were added, and the index of its parent (`None` for a root).
///
/// Nodes are normally created through [`Tree::add_node`] and
/// [`Tree::add_child`]; there is rarely a reason to build one directly.
#[derive(Clone)]
pub struct Node<T> {
    pub(crate) data: T,
    pub(crate) children: Vec<usize>,
    pub(crate) parent: Option<usize>,
}

impl<T> View for Node<T> {
    type V = NodeModel<T>;

    closed spec fn view(&self) -> NodeModel<T> {
        NodeModel { data: self.data, children: self.children@, parent: self.parent }
    }
}

impl<T> Node<T> {
    /// Creates a fresh node holding `data`, with no children and no parent.
    pub fn new(data: T) -> (r: Node<T>)
        ensures
            r@ == (NodeModel { data, children: Seq::<usize>::empty(), parent: None::<usize> }),
    {
        Node { data, children: Vec::new(), parent: None }
    }

    /// Appends `child` to this node's list of children.
    pub(crate) fn add_child(&mut self, child: usize)
        ensures
            final(self)@ == (NodeModel { children: old(self)@.children.push(child), ..old(self)@ }),
    {
        self.children.push(child);
    }

    /// Records `parent` as this node's parent.
    pub(crate) fn set_parent(&mut self, parent: usize)
        ensures
            final(self)@ == (NodeModel { parent: Some(parent), ..old(self)@ }),
    {
        self.parent = Some(parent);
    }
}

impl<T> Node<T> {
    /// How a node's model reflects its fields, for the sibling modules that
    /// cannot see through the `View` impl.
    pub(crate) proof fn lemma_view(&self)
        ensures
            self@.data == self.data,
            self@.children == self.children@,
            self@.parent == self.parent,
    {
    }
}

/// An ordered arena of [`Node`]s.
///
/// A node's position in the arena is its permanent index: indices are handed
/// out sequentially from zero in creation order and stay valid until
/// [`Tree::clear`] discards the whole tree.
#[derive(Clone)]
pub struct Tree<T> {
    pub(crate) nodes: Vec<Node<T>>,
}

impl<T> View for Tree<T> {
    type V = Seq<NodeModel<T>>;

    closed spec fn view(&self) -> Seq<NodeModel<T>> {
        self.nodes@.map(|i: int, n: Node<T>| n@)
    }
}

/// Every child link points further down the arena: a child's index is
/// strictly greater than its parent's and within bounds.  This holds by
/// construction, because a node is always created after its parent, and it is
/// what makes depth-first traversal terminate.
pub open spec fn links_point_forward<T>(t: Seq<NodeModel<T>>) -> bool {
    forall|i: int, k: int|
        0 <= i < t.len() && 0 <= k < t[i].children.len() ==> i < #[trigger] t[i].children[k]
            && t[i].children[k] < t.len()
}

impl<T> Tree<T> {
    /// How the tree's model reflects its arena, for the sibling modules that
    /// cannot see through the `View` impl.
    pub(crate) proof fn lemma_view(&self)
        ensures
            self@.len() == self.nodes@.len(),
            forall|i: int| 0 <= i < self@.len() ==> #[trigger] self@[i] == self.nodes@[i]@,
    {
    }

    /// The structural invariant of the arena; established by [`Tree::new`]
    /// and preserved by every operation.
    pub open spec fn well_formed(&self) -> bool {
        links_point_forward(self@)
    }

    /// Creates an empty tree.
    pub fn new() -> (r: Tree<T>)
        ensures
            r@ == Seq::<NodeModel<T>>::empty(),
            r.well_formed(),
    {
        let t = Tree { nodes: Vec::new() };
        proof {
            assert(t@ =~= Seq::<NodeModel<T>>::empty());
        }
        t
    }

    /// The number of nodes in the tree.
    pub fn len(&self) -> (r: usize)
        ensures
            r == self@.len(),
    {
        self.nodes.len()
    }

    /// Whether the tree contains no nodes.
    pub fn is_empty(&self) -> (r: bool)
        ensures
            r == (self@.len() == 0),
    {
        self.nodes.len() == 0
    }

    /// Appends a node holding `data` with no parent and no children, and
    /// returns its index: the number of nodes created before it.
    pub fn add_node(&mut self, data: T) -> (r: usize)
        ensures
            r == old(self)@.len(),
            final(self)@ == old(self)@.push(
                (NodeModel { data, children: Seq::<usize>::empty(), parent: None::<usize> }),
            ),
            final(self)@ == apply_step(old(self)@, BuildStep::Root(data)),
            forall|i: int| 0 <= i < old(self)@.len() ==> final(self)@[i] == old(self)@[i],
            old(self).well_formed() ==> final(self).well_formed(),
    {
        let index = self.nodes.len();
        let node = Node::new(data);
        self.nodes.push(node);
        proof {
            assert(self@ =~= old(self)@.push(
                NodeModel { data, children: Seq::<usize>::empty(), parent: None::<usize> },
            ));
        }
        index
    }

    /// Appends a node holding `data` as the last child of `parent`, and
    /// returns its index: the number of nodes created before it.
    ///
    /// The new node's parent link and its entry at the end of `parent`'s
    /// children list are set together and never change afterwards.
    pub fn add_child(&mut self, parent: usize, data: T) -> (r: usize)
        requires
            parent < old(self)@.len(),
        ensures
            r == old(self)@.len(),
            final(self)@ == old(self)@.update(
                parent as int,
                (NodeModel {
                    children: old(self)@[parent as int].children.push(r),
                    ..old(self)@[parent as int]
                }),
            ).push(
                (NodeModel { data, children: Seq::<usize>::empty(), parent: Some(parent) }),
            ),
            final(self)@ == apply_step(old(self)@, BuildStep::Child(parent, data)),
            final(self)@[r as int].parent == Some(parent),
            final(self)@[parent as int].children == old(self)@[parent as int].children.push(r),
            forall|i: int| 0 <= i < old(self)@.len() ==> final(self)@[i].data == old(self)@[i].data,
            old(self).well_formed() ==> final(self).well_formed(),
    {
        let index = self.add_node(data);
        let ghost s1 = self@;
        proof {
            assert(self@.len() == self.nodes@.len());
        }
        self.nodes[parent].add_child(index);
        let ghost s2 = self@;
        proof {
            assert(s2 =~= s1.update(
                parent as int,
                NodeModel { children: s1[parent as int].children.push(index), ..s1[parent as int] },
            ));
            assert(self@.len() == self.nodes@.len());
        }
        self.nodes[index].set_parent(parent);
        proof {
            assert(self@ =~= s2.update(
                index as int,
                NodeModel { parent: Some(parent), ..s2[index as int] },
            ));
            assert(self@ =~= old(self)@.update(
                parent as int,
                NodeModel {
                    children: old(self)@[parent as int].children.push(index),
                    ..old(self)@[parent as int]
                },
            ).push(
                NodeModel { data, children: Seq::<usize>::empty(), parent: Some(parent) },
            ));
        }
        index
    }

    /// Appends a node holding `data` as the last child of the node at index
    /// zero, the conventional root.  The tree must not be empty.
    pub fn add_child_to_root(&mut self, data: T) -> (r: usize)
        requires
            old(self)@.len() > 0,
        ensures
            r == old(self)@.len(),
            final(self)@ == old(self)@.update(
                0,
                (NodeModel { children: old(self)@[0].children.push(r), ..old(self)@[0] }),
            ).push(
                (NodeModel { data, children: Seq::<usize>::empty(), parent: Some(0usize) }),
            ),
            old(self).well_formed() ==> final(self).well_formed(),
    {
        self.add_child(0, data)
    }

    /// Checked access: a reference to the payload at `index`, or `None` when
    /// `index` is out of bounds.
    pub fn get(&self, index: usize) -> (r: Option<&T>)
        ensures
            index < self@.len() ==> r.is_some() && *r.unwrap() == self@[index as int].data,
            index >= self@.len() ==> r.is_none(),
    {
        if index < self.nodes.len() {
            Some(&self.nodes[index].data)
        } else {
            None
        }
    }

    /// Unchecked access: a reference to the payload at `index`, which the
    /// caller must already know to be in bounds.
    pub fn get_unchecked(&self, index: usize) -> (r: &T)
        requires
            index < self@.len(),
        ensures
            *r == self@[index as int].data,
    {
        &self.nodes[index].data
    }

    /// Checked access: a mutable reference to the payload at `index`, or
    /// `None` when `index` is out of bounds.  A value written through the
    /// reference is what every later read of that slot sees; nothing else in
    /// the tree changes.
    pub fn get_mut(&mut self, index: usize) -> (r: Option<&mut T>)
        ensures
            index >= old(self)@.len() ==> r.is_none() && final(self)@ == old(self)@,
            index < old(self)@.len() ==> r.is_some()
                && *r.unwrap() == old(self)@[index as int].data
                && final(self)@ == old(self)@.update(
                index as int,
                (NodeModel { data: *final(r.unwrap()), ..old(self)@[index as int] }),
            ),
            old(self).well_formed() ==> final(self).well_formed(),
    {
        if index < self.nodes.len() {
            Some(&mut self.nodes[index].data)
        } else {
            None
        }
    }

    /// Unchecked access: a mutable reference to the payload at `index`, which
    /// the caller must already know to be in bounds.  A value written through
    /// the reference is what every later read of that slot sees; nothing else
    /// in the tree changes.
    pub fn get_unchecked_mut(&mut self, index: usize) -> (r: &mut T)
        requires
            index < old(self)@.len(),
        ensures
            *r == old(self)@[index as int].data,
            final(self)@ == old(self)@.update(
                index as int,
                (NodeModel { data: *final(r), ..old(self)@[index as int] }),
            ),
            old(self).well_formed() ==> final(self).well_formed(),
    {
        &mut self.nodes[index].data
    }

    /// The stored parent link of the node at `index`: `Some` of the parent's
    /// index, or `None` for a root.  The caller must already know `index` to
    /// be in bounds.
    pub fn parent_index_unchecked(&self, index: usize) -> (r: Option<usize>)
        requires
            index < self@.len(),
        ensures
            r == self@[index as int].parent,
    {
        self.nodes[index].parent
    }

    /// The indices of the children of the node at `index`, in the order they
    /// were added.  The caller must already know `index` to be in bounds.
    pub fn children(&self, index: usize) -> (r: &[usize])
        requires
            index < self@.len(),
        ensures
            r@ == self@[index as int].children,
    {
        self.nodes[index].children.as_slice()
    }

    /// Discards every node at once; all previously issued indices become
    /// invalid, and the next node added gets index zero again.
    pub fn clear(&mut self)
        ensures
            final(self)@ == Seq::<NodeModel<T>>::empty(),
            final(self).well_formed(),
    {
        self.nodes.clear();
        proof {
            assert(self@ =~= Seq::<NodeModel<T>>::empty());
        }
    }
}

/// Mutation round-trip: writing a payload into a slot — the view change that
/// [`Tree::get_mut`], [`Tree::get_unchecked_mut`] and the mutable cursor all
/// produce — leaves a tree in which reading that slot yields exactly the
/// written value, every other slot is untouched, and the length and the links
/// are unchanged.
pub proof fn lemma_mutation_round_trip<T>(t: Seq<NodeModel<T>>, i: int, v: T)
    requires
        0 <= i < t.len(),
    ensures
        t.update(i, (NodeModel { data: v, ..t[i] }))[i].data == v,
        t.update(i, (NodeModel { data: v, ..t[i] })).len() == t.len(),
        forall|j: int|
            0 <= j < t.len() && j != i ==> t.update(i, (NodeModel { data: v, ..t[i] }))[j] == t[j],
        t.update(i, (NodeModel { data: v, ..t[i] }))[i].children == t[i].children,
        t.update(i, (NodeModel { data: v, ..t[i] }))[i].parent == t[i].parent,
        links_point_forward(t) ==> links_point_forward(t.update(i, (NodeModel { data: v, ..t[i] }))),
{
}

impl<T> Default for Tree<T> {
    /// An empty tree, the same as [`Tree::new`].
    fn default() -> (r: Tree<T>)
        ensures
            r@ == Seq::<NodeModel<T>>::empty(),
            r.well_formed(),
    {
        Tree::new()
    }
}

} // verus!
