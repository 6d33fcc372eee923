use crate::model::NodeView;
use crate::node::node_views;
use crate::node::Node;
use vstd::prelude::*;

verus! {

/// A last-in, first-out store of nodes. It keeps no order among the levels of
/// its nodes: that is the business of the treehash that owns it.
pub struct Stack {
    nodes: Vec<Node>,
}

impl View for Stack {
    type V = Seq<NodeView>;

    closed spec fn view(&self) -> Seq<NodeView> {
        node_views(self.nodes@)
    }
}

impl Default for Stack {
    /// An empty stack.
    fn default() -> (stack: Self)
        ensures
            stack@ == Seq::<NodeView>::empty(),
    {
        Stack::new()
    }
}

impl Stack {
    /// An empty stack.
    pub fn new() -> (stack: Self)
        ensures
            stack@ == Seq::<NodeView>::empty(),
    {
        let stack = Stack { nodes: Vec::new() };
        stack
    }

    /// Removes the top node and returns it, or returns `None` where the stack
    /// is empty.
    pub fn pop(&mut self) -> (top: Option<Node>)
        ensures
            old(self)@.len() == 0 ==> top is None && final(self)@ == old(self)@,
            old(self)@.len() > 0 ==> top is Some && top->0@ == old(self)@.last() && final(self)@
                == old(self)@.drop_last(),
    {
        let top = self.nodes.pop();
        top
    }

    /// Puts `element` on top.
    pub fn push(&mut self, element: Node)
        ensures
            final(self)@ == old(self)@.push(element@),
    {
        self.nodes.push(element);
    }

    /// The level of the top node, or `None` where the stack is empty.
    pub fn peek_height(&self) -> (height: Option<usize>)
        ensures
            height is Some <==> self@.len() > 0,
            height matches Some(level) ==> level == self@.last().height,
    {
        let n: usize = self.nodes.len();
        if n == 0 {
            None
        } else {
            Some(self.nodes[n - 1].height())
        }
    }

    /// A copy of the bottom node, or `None` where the stack is empty.
    pub fn first(&self) -> (bottom: Option<Node>)
        ensures
            bottom is Some <==> self@.len() > 0,
            bottom matches Some(node) ==> node@ == self@[0],
    {
        if self.nodes.len() == 0 {
            None
        } else {
            Some(self.nodes[0].clone())
        }
    }

    /// Takes every node off the stack.
    pub fn clear(&mut self)
        ensures
            final(self)@ == Seq::<NodeView>::empty(),
    {
        self.nodes.clear();
    }

    /// The number of nodes on the stack.
    pub fn len(&self) -> (len: usize)
        ensures
            len == self@.len(),
    {
        self.nodes.len()
    }
}

} // verus!
