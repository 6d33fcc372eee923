use crate::error::Error;
use crate::model::joins_siblings;
use crate::model::leaf_at;
use crate::model::lemma_treehash_stack_bound;
use crate::model::lemma_treehash_stack_empty;
use crate::model::lemma_treehash_stack_heights;
use crate::model::lemma_treehash_stack_len;
use crate::model::lemma_treehash_step;
use crate::model::tree_node;
use crate::model::treehash_stack;
use crate::model::treehash_step;
use crate::model::NodeView;
use crate::node::Leaf;
use crate::node::Level;
use crate::node::Node;
use crate::powers::set_digits;
use crate::powers::two_to_the;
use crate::stack::Stack;
use vstd::arithmetic::div_mod::lemma_fundamental_div_mod;
use vstd::arithmetic::power2::lemma_pow2_pos;
use vstd::arithmetic::power2::pow2;
use vstd::prelude::*;

verus! {

/// The contents of `leaves`, in their order.
pub open spec fn leaf_contents(leaves: Seq<Leaf>) -> Seq<Seq<char>> {
    leaves.map_values(|leaf: Leaf| leaf@.content)
}

/// Whether the `2^height` leaves from `start_index` on are one subtree of a
/// tree over `leaf_count` leaves: the range starts at a multiple of its length
/// and ends within the leaves.
pub open spec fn range_fits(leaf_count: nat, start_index: nat, height: nat) -> bool {
    &&& start_index % pow2(height) == 0
    &&& start_index + pow2(height) <= leaf_count
}

/// What a treehash is: the leaves it reads, the range it works on, how far it
/// has come, and its stack, bottom first.
pub struct TreeHashView {
    pub leaves: Seq<Seq<char>>,
    pub start_index: nat,
    pub target_height: nat,
    pub consumed: nat,
    pub stack: Seq<NodeView>,
}

impl TreeHashView {
    /// The position, within its level, of the node that the treehash computes.
    pub open spec fn target_index(self) -> nat {
        self.start_index / pow2(self.target_height)
    }

    /// The position of the leaf that the treehash takes next.
    pub open spec fn next_index(self) -> nat {
        self.start_index + self.consumed
    }

    /// Whether all leaves of the range have been taken.
    pub open spec fn complete(self) -> bool {
        self.consumed == pow2(self.target_height)
    }

    /// The node that the treehash has computed once it is complete.
    pub open spec fn target_node(self) -> NodeView {
        tree_node(self.leaves, self.target_height, self.target_index())
    }
}

/// Computes one inner node of the tree from the leaves below it, taken one at
/// a time from left to right, with a stack of at most one node per level.
pub struct TreeHash<'a> {
    stack: Stack,
    leaves: &'a [Leaf],
    start_index: usize,
    target_height: usize,
    span: usize,
    consumed: usize,
}

impl<'a> View for TreeHash<'a> {
    type V = TreeHashView;

    closed spec fn view(&self) -> TreeHashView {
        TreeHashView {
            leaves: leaf_contents(self.leaves@),
            start_index: self.start_index as nat,
            target_height: self.target_height as nat,
            consumed: self.consumed as nat,
            stack: self.stack@,
        }
    }
}

impl<'a> TreeHash<'a> {
    /// The leaves that the treehash reads.
    pub closed spec fn leaves(&self) -> Seq<Leaf> {
        self.leaves@
    }

    /// The cached length of the range is two to the power of the target height.
    pub closed spec fn span_known(&self) -> bool {
        self.span == pow2(self.target_height as nat)
    }

    /// The treehash works on a subtree of its leaves, has taken no more leaves
    /// than the subtree has, and its stack is the one that the leaves taken so
    /// far give.
    pub open spec fn wf(&self) -> bool {
        &&& self.span_known()
        &&& self@.leaves == leaf_contents(self.leaves())
        &&& self@.leaves.len() <= usize::MAX
        &&& range_fits(self@.leaves.len(), self@.start_index, self@.target_height)
        &&& self@.consumed <= pow2(self@.target_height)
        &&& self@.stack == treehash_stack(
            self@.leaves,
            self@.target_height,
            self@.target_index(),
            self@.consumed,
        )
    }

    /// The stack of a sound treehash never holds more than one node for each
    /// level up to the target and one more.
    pub proof fn lemma_stack_bound(&self)
        requires
            self.wf(),
        ensures
            self@.stack.len() <= self@.target_height + 1,
    {
        lemma_treehash_stack_bound(
            self@.leaves,
            self@.target_height,
            self@.target_index(),
            self@.consumed,
        );
    }

    /// Before its last leaf the stack of a sound treehash holds one node for
    /// each binary digit of the number of leaves taken that is set.
    pub proof fn lemma_stack_len(&self)
        requires
            self.wf(),
            !self@.complete(),
        ensures
            self@.stack.len() == set_digits(self@.consumed),
    {
        lemma_treehash_stack_len(
            self@.leaves,
            self@.target_height,
            self@.target_index(),
            self@.consumed,
        );
    }

    /// Once a sound treehash has taken all leaves of its range, its stack holds
    /// the node it was made for and nothing else.
    pub proof fn lemma_complete_stack(&self)
        requires
            self.wf(),
            self@.complete(),
        ensures
            self@.stack == seq![self@.target_node()],
    {
    }

    /// The stack of a sound treehash holds no two nodes at one level: from the
    /// bottom up each node stands below the one before.
    pub proof fn lemma_stack_heights(&self)
        requires
            self.wf(),
        ensures
            forall|lower: int, upper: int|
                0 <= lower < upper < self@.stack.len() ==> (#[trigger] self@.stack[lower]).height
                    > (#[trigger] self@.stack[upper]).height,
    {
        lemma_treehash_stack_heights(
            self@.leaves,
            self@.target_height,
            self@.target_index(),
            self@.consumed,
        );
    }

    /// A treehash for the node at level `level` above the `2^level` leaves
    /// that start at `start_index`. It takes `stack` as its own and starts with
    /// it empty. Refused where those leaves are no subtree of `leaves`.
    pub fn new(stack: Stack, leaves: &'a [Leaf], start_index: usize, level: Level) -> (made: Result<
        Self,
        Error,
    >)
        ensures
            made is Ok <==> range_fits(leaves@.len(), start_index as nat, level.0 as nat),
            made matches Ok(treehash) ==> {
                &&& treehash.wf()
                &&& treehash.leaves() == leaves@
                &&& treehash@ == (TreeHashView {
                    leaves: leaf_contents(leaves@),
                    start_index: start_index as nat,
                    target_height: level.0 as nat,
                    consumed: 0,
                    stack: Seq::empty(),
                })
            },
            made matches Err(error) ==> error == Error::InvalidConfiguration,
    {
        let mut treehash = TreeHash {
            stack,
            leaves,
            start_index: 0,
            target_height: level.0,
            span: 0,
            consumed: 0,
        };
        let leaf_count: usize = leaves.len();
        match two_to_the(level.0) {
            None => Err(Error::InvalidConfiguration),
            Some(span) => {
                proof {
                    lemma_pow2_pos(level.0 as nat);
                }
                if start_index % span != 0 || leaf_count < span || start_index > leaf_count - span {
                    Err(Error::InvalidConfiguration)
                } else {
                    treehash.stack.clear();
                    treehash.start_index = start_index;
                    treehash.span = span;
                    proof {
                        lemma_treehash_stack_empty(
                            leaf_contents(leaves@),
                            level.0 as nat,
                            start_index as nat / pow2(level.0 as nat),
                        );
                    }
                    Ok(treehash)
                }
            },
        }
    }

    /// Starts over on the `2^level` leaves from `start_index` on, at the level
    /// the treehash was made for. Refused, with nothing changed, where those
    /// leaves are no subtree of the leaves.
    pub fn initialize(&mut self, start_index: usize) -> (done: Result<(), Error>)
        requires
            old(self).wf(),
        ensures
            final(self).wf(),
            final(self).leaves() == old(self).leaves(),
            done is Ok <==> range_fits(
                old(self)@.leaves.len(),
                start_index as nat,
                old(self)@.target_height,
            ),
            done is Ok ==> final(self)@ == (TreeHashView {
                start_index: start_index as nat,
                consumed: 0,
                stack: Seq::empty(),
                ..old(self)@
            }),
            done matches Err(error) ==> error == Error::InvalidConfiguration && *final(self)
                == *old(self),
    {
        proof {
            lemma_pow2_pos(self.target_height as nat);
        }
        let leaf_count: usize = self.leaves.len();
        if start_index % self.span != 0 || start_index > leaf_count - self.span {
            Err(Error::InvalidConfiguration)
        } else {
            self.stack.clear();
            self.start_index = start_index;
            self.consumed = 0;
            proof {
                lemma_treehash_stack_empty(
                    self@.leaves,
                    self@.target_height,
                    self@.target_index(),
                );
            }
            Ok(())
        }
    }

    /// Takes the leaf at `leaf_index`: its node is combined with the top of
    /// the stack for as long as the two stand at one level, and the result is
    /// put on the stack.
    ///
    /// Refused, with nothing changed, where `leaf_index` is not the position
    /// of the next leaf of the range (`OutOfOrderLeaf`), or where it is but
    /// all leaves of the range have been taken (`InvalidUsage`).
    pub fn update(&mut self, leaf_index: usize) -> (done: Result<(), Error>)
        requires
            old(self).wf(),
        ensures
            final(self).wf(),
            final(self).leaves() == old(self).leaves(),
            done is Ok <==> leaf_index == old(self)@.next_index() && !old(self)@.complete(),
            done is Ok ==> final(self)@ == (TreeHashView {
                consumed: old(self)@.consumed + 1,
                stack: treehash_step(old(self)@.stack, leaf_at(old(self)@.leaves, leaf_index as nat)),
                ..old(self)@
            }),
            done is Ok ==> final(self)@.stack.len() <= old(self)@.target_height + 1,
            done is Err ==> *final(self) == *old(self),
            done matches Err(error) ==> error == if leaf_index != old(self)@.next_index() {
                Error::OutOfOrderLeaf
            } else {
                Error::InvalidUsage
            },
    {
        if leaf_index != self.start_index + self.consumed {
            return Err(Error::OutOfOrderLeaf);
        }
        if self.consumed == self.span {
            return Err(Error::InvalidUsage);
        }
        let ghost leaves = self@.leaves;
        let ghost height = self@.target_height;
        let ghost index = self@.target_index();
        let ghost goal = treehash_stack(leaves, height, index, (self.consumed + 1) as nat);
        let mut node = Node::from_leaf_at(&self.leaves[leaf_index], leaf_index);
        proof {
            // The step on the stack so far gives the stack that one more
            // leaf of the range calls for, and combines siblings only.
            assert(index * pow2(height) == self.start_index) by {
                lemma_fundamental_div_mod(self.start_index as int, pow2(height) as int);
            }
            lemma_treehash_step(
                leaves,
                height,
                index,
                self.consumed as nat,
                Seq::empty(),
                height,
            );
            lemma_treehash_stack_bound(leaves, height, index, (self.consumed + 1) as nat);
        }
        let mut merge = top_is_at(&self.stack, node.height());
        while merge
            invariant
                merge == (self.stack@.len() > 0 && self.stack@.last().height == node@.height),
                treehash_step(self.stack@, node@) == goal,
                joins_siblings(self.stack@, node@, height),
                height == old(self)@.target_height,
                self.leaves == old(self).leaves,
                self.start_index == old(self).start_index,
                self.target_height == old(self).target_height,
                self.span == old(self).span,
                self.consumed == old(self).consumed,
            decreases self.stack@.len(),
        {
            let left = self.stack.pop().unwrap();
            node = left.combine(&node);
            merge = top_is_at(&self.stack, node.height());
        }
        self.stack.push(node);
        self.consumed = self.consumed + 1;
        Ok(())
    }

    /// A copy of the node at the bottom of the stack, or `None` where the
    /// stack is empty.
    pub fn first(&self) -> (bottom: Option<Node>)
        ensures
            bottom is Some <==> self@.stack.len() > 0,
            bottom matches Some(node) ==> node@ == self@.stack[0],
    {
        self.stack.first()
    }

    /// The node that the treehash was made for, once all leaves of its range
    /// have been taken; `None` before that. The treehash is left as it was.
    pub fn result(&self) -> (finished: Option<Node>)
        requires
            self.wf(),
        ensures
            finished is Some <==> self@.complete(),
            finished matches Some(node) ==> node@ == self@.target_node(),
    {
        if self.consumed == self.span {
            self.stack.first()
        } else {
            None
        }
    }

    /// The number of nodes on the stack.
    pub fn depth(&self) -> (depth: usize)
        ensures
            depth == self@.stack.len(),
    {
        self.stack.len()
    }

    /// Whether all leaves of the range have been taken.
    pub fn is_complete(&self) -> (complete: bool)
        requires
            self.wf(),
        ensures
            complete == self@.complete(),
    {
        self.consumed == self.span
    }

    /// The position of the leaf that the treehash takes next.
    pub fn next_index(&self) -> (next: usize)
        requires
            self.wf(),
        ensures
            next == self@.next_index(),
    {
        self.start_index + self.consumed
    }
}

/// Whether the top of `stack` stands at level `height`.
fn top_is_at(stack: &Stack, height: usize) -> (at: bool)
    ensures
        at == (stack@.len() > 0 && stack@.last().height == height),
{
    match stack.peek_height() {
        Some(top) => top == height,
        None => false,
    }
}

} // verus!
