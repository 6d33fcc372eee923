use crate::hash::create_hash;
use crate::model::combine;
use crate::model::leaf_node;
use crate::model::parent_with;
use crate::model::prehash;
use crate::model::LeafView;
use crate::model::NodeView;
use vstd::prelude::*;
use vstd::std_specs::convert::FromSpecImpl;
use vstd::string::StringExecFns;

verus! {

/// Whether `index` is even.
pub fn is_even(index: usize) -> (even: bool)
    ensures
        even == (index % 2 == 0),
{
    index % 2 == 0
}

/// A level of the tree, counted from the leaves, which are at level 0.
#[derive(Clone, Copy, Debug)]
pub struct Level(pub usize);

/// One leaf of the tree: its position and the content that is hashed.
#[derive(Debug)]
pub struct Leaf {
    index: usize,
    content: String,
}

impl View for Leaf {
    type V = LeafView;

    closed spec fn view(&self) -> LeafView {
        LeafView { index: self.index as nat, content: self.content@ }
    }
}

impl Clone for Leaf {
    fn clone(&self) -> (copy: Self)
        ensures
            copy@ == self@,
    {
        Leaf { index: self.index, content: self.content.clone() }
    }
}

impl Leaf {
    /// A leaf at position `index` with the given content.
    pub fn new(content: String, index: usize) -> (leaf: Self)
        ensures
            leaf@ == (LeafView { index: index as nat, content: content@ }),
    {
        Leaf { index, content }
    }

    /// The position of the leaf.
    pub fn index(&self) -> (index: usize)
        ensures
            index == self@.index,
    {
        self.index
    }

    /// The content of the leaf.
    pub fn print(&self) -> (content: &str)
        ensures
            content@ == self@.content,
    {
        self.content.as_str()
    }
}

/// A node of the tree: the digest of the subtree below it, its level, and its
/// position among the nodes of that level. A node never changes once made.
#[derive(Debug)]
pub struct Node {
    hash: String,
    height: usize,
    index: usize,
}

impl View for Node {
    type V = NodeView;

    closed spec fn view(&self) -> NodeView {
        NodeView { digest: self.hash@, height: self.height as nat, index: self.index as nat }
    }
}

/// What each of `nodes` is, in their order.
pub open spec fn node_views(nodes: Seq<Node>) -> Seq<NodeView> {
    nodes.map_values(|node: Node| node@)
}

impl Clone for Node {
    fn clone(&self) -> (copy: Self)
        ensures
            copy@ == self@,
    {
        Node { hash: self.hash.clone(), height: self.height, index: self.index }
    }
}

impl<'a> From<&'a Leaf> for Node {
    /// The node of `leaf`: the hash of its content, at level 0 and at the
    /// leaf's own position.
    fn from(leaf: &'a Leaf) -> (node: Self)
        ensures
            node@ == leaf_node(leaf@.content, leaf@.index),
    {
        Node::from_leaf_at(leaf, leaf.index())
    }
}

impl<'a> FromSpecImpl<&'a Leaf> for Node {
    /// Nodes with one view are not known to be one value, so `from` is
    /// described by its own contract, not by `from_spec`.
    open spec fn obeys_from_spec() -> bool {
        false
    }

    open spec fn from_spec(leaf: &'a Leaf) -> Node {
        choose|node: Node| node@ == leaf_node(leaf@.content, leaf@.index)
    }
}

impl FromSpecImpl<Leaf> for Node {
    /// Nodes with one view are not known to be one value, so `from` is
    /// described by its own contract, not by `from_spec`.
    open spec fn obeys_from_spec() -> bool {
        false
    }

    open spec fn from_spec(leaf: Leaf) -> Node {
        choose|node: Node| node@ == leaf_node(leaf@.content, leaf@.index)
    }
}

impl From<Leaf> for Node {
    /// The node of `leaf`: the hash of its content, at level 0 and at the
    /// leaf's own position.
    fn from(leaf: Leaf) -> (node: Self)
        ensures
            node@ == leaf_node(leaf@.content, leaf@.index),
    {
        Node::from_leaf_at(&leaf, leaf.index())
    }
}

impl Node {
    /// A node with the given digest, position and level.
    pub fn new(hash: String, index: usize, height: usize) -> (node: Self)
        ensures
            node@ == (NodeView { digest: hash@, height: height as nat, index: index as nat }),
    {
        Node { hash, height, index }
    }

    /// The node of a leaf that stands at position `index`: the hash of the
    /// leaf's content at level 0.
    pub fn from_leaf_at(leaf: &Leaf, index: usize) -> (node: Self)
        ensures
            node@ == leaf_node(leaf@.content, index as nat),
    {
        Node::new(create_hash(leaf.print()), index, 0)
    }

    /// What is hashed for the parent of `self` and `other`: the two digests
    /// one after the other, that of the node at the smaller position first.
    pub fn prehash(&self, other: &Node) -> (text: String)
        ensures
            text@ == prehash(self@, other@),
    {
        let mut text = String::new();
        if self.index < other.index {
            text.append(self.hash.as_str());
            text.append(other.hash.as_str());
        } else {
            text.append(other.hash.as_str());
            text.append(self.hash.as_str());
        }
        text
    }

    /// The parent of `self` and `other` with the digest `hash`: one level
    /// above `self`, at the position above the two, which is
    /// `(max(self.index, other.index) + 1) / 2 - 1`.
    ///
    /// Two nodes at position 0 have no such position, and a node at the
    /// highest level that the machine can count has no level above it.
    pub fn parent_with(&self, other: &Node, hash: String) -> (parent: Self)
        requires
            self@.height < usize::MAX,
            self@.index > 0 || other@.index > 0,
        ensures
            parent@ == parent_with(self@, other@, hash@),
    {
        let top: usize = if self.index < other.index {
            other.index
        } else {
            self.index
        };
        Node::new(hash, (top - 1) / 2, self.height + 1)
    }

    /// The parent of `self` and `other`: its digest is the hash of the two
    /// child digests, the child at the smaller position first; it stands one
    /// level above `self`, at the position above the two.
    pub fn combine(&self, other: &Node) -> (parent: Self)
        requires
            self@.height < usize::MAX,
            self@.index > 0 || other@.index > 0,
        ensures
            parent@ == combine(self@, other@),
    {
        let text = self.prehash(other);
        self.parent_with(other, create_hash(text.as_str()))
    }

    /// Whether the node is the left child of its parent: its position is even.
    pub fn left_node(&self) -> (left: bool)
        ensures
            left == (self@.index % 2 == 0),
    {
        self.even()
    }

    /// Whether the position of the node is even.
    pub fn even(&self) -> (even: bool)
        ensures
            even == (self@.index % 2 == 0),
    {
        is_even(self.index)
    }

    /// The level of the node.
    pub fn height(&self) -> (height: usize)
        ensures
            height == self@.height,
    {
        self.height
    }

    /// The digest of the node.
    pub fn hash(&self) -> (digest: &str)
        ensures
            digest@ == self@.digest,
    {
        self.hash.as_str()
    }

    /// The position of the node within its level.
    pub fn j(&self) -> (index: usize)
        ensures
            index == self@.index,
    {
        self.index
    }
}

} // verus!
