use crate::advance::copy_nodes;
use crate::advance::drive_treehashes;
use crate::advance::keep_left_ancestor;
use crate::advance::refresh_path;
use crate::advance::run_to_completion;
use crate::error::Error;
use crate::model::tree_node;
use crate::model::NodeView;
use crate::node::node_views;
use crate::node::Leaf;
use crate::node::Level;
use crate::node::Node;
use crate::path::authentication_node;
use crate::path::authentication_path;
use crate::powers::trailing_ones;
use crate::powers::two_to_the;
use crate::schedule::level_before;
use crate::schedule::level_within;
use crate::schedule::levels_before;
use crate::stack::Stack;
use crate::tree_hash::leaf_contents;
use crate::tree_hash::TreeHash;
use vstd::arithmetic::div_mod::lemma_div_multiples_vanish;
use vstd::arithmetic::div_mod::lemma_mod_multiples_basic;
use vstd::arithmetic::power2::lemma2_to64;
use vstd::arithmetic::power2::lemma_pow2_pos;
use vstd::arithmetic::power2::lemma_pow2_strictly_increases;
use vstd::arithmetic::power2::lemma_pow2_unfold;
use vstd::arithmetic::power2::pow2;
use vstd::prelude::*;

verus! {

/// What a node that may be absent is.
pub open spec fn option_view(node: Option<Node>) -> Option<NodeView> {
    match node {
        Some(node) => Some(node@),
        None => None,
    }
}

/// The leaf whose authentication path the tree holds when the leaf at `next`
/// comes next: the leaf before it, or the first leaf where none came yet.
pub open spec fn current_leaf(next: nat) -> nat {
    if next == 0 {
        0
    } else {
        (next - 1) as nat
    }
}

/// The node that a tree of height `tree_height` retains from the start: the
/// last node two levels below the root, where the tree has such a level.
pub open spec fn retained_node(leaves: Seq<Seq<char>>, tree_height: nat) -> Option<NodeView> {
    if tree_height >= 2 {
        Some(tree_node(leaves, (tree_height - 2) as nat, 3))
    } else {
        None
    }
}

/// The node kept for level `height` when the leaf at `next` comes next. The
/// leaf before `next` has one ancestor that is the first left child on its way
/// up; the leaf at `next` needs that ancestor as its left sibling at that
/// level, so it is kept there. Nothing is kept before the first leaf and after
/// the last.
pub open spec fn kept_node(
    leaves: Seq<Seq<char>>,
    tree_height: nat,
    next: nat,
    height: nat,
) -> Option<NodeView> {
    if 0 < next < pow2(tree_height) && height == trailing_ones((next - 1) as nat) {
        Some(tree_node(leaves, height, ((next - 1) as nat) / pow2(height)))
    } else {
        None
    }
}

/// The nodes kept for each level when the leaf at `next` comes next.
pub open spec fn kept_nodes(leaves: Seq<Seq<char>>, tree_height: nat, next: nat) -> Seq<
    Option<NodeView>,
> {
    Seq::new(tree_height, |height: int| kept_node(leaves, tree_height, next, height as nat))
}

/// What each of `slots` holds.
pub open spec fn slot_views(slots: Seq<Option<Node>>) -> Seq<Option<NodeView>> {
    slots.map_values(|node: Option<Node>| option_view(node))
}

/// What a tree is: its leaves, the position of the leaf that comes next, the
/// authentication path it holds, the node it retains, and the node it keeps
/// for each level.
pub struct MerkleTreeView {
    pub leaves: Seq<Seq<char>>,
    pub next_index: nat,
    pub current_authentication_path: Seq<NodeView>,
    pub retain: Option<NodeView>,
    pub keep: Seq<Option<NodeView>>,
}

/// A hash tree of height `MERKLE_TREE_HEIGHT` over `2^MERKLE_TREE_HEIGHT`
/// leaves that hands out the authentication path of each leaf in turn.
///
/// * `retain` holds the one right node two levels below the root that no
///   treehash computes later.
/// * `current_authentication_path` holds, for each level below the root, the
///   sibling that the current leaf needs there.
/// * `keep` holds, for a level, the left node that the next leaf needs there.
/// * `treehashes` holds one treehash for each level above the leaves, which
///   computes the right node that the level needs next.
pub struct MerkleTree<'a, const MERKLE_TREE_HEIGHT: usize> {
    retain: Option<Node>,
    treehashes: Vec<TreeHash<'a>>,
    current_authentication_path: Vec<Node>,
    leaves: &'a [Leaf],
    keep: Vec<Option<Node>>,
    next_index: usize,
}

impl<'a, const MERKLE_TREE_HEIGHT: usize> View for MerkleTree<'a, MERKLE_TREE_HEIGHT> {
    type V = MerkleTreeView;

    closed spec fn view(&self) -> MerkleTreeView {
        MerkleTreeView {
            leaves: leaf_contents(self.leaves@),
            next_index: self.next_index as nat,
            current_authentication_path: node_views(self.current_authentication_path@),
            retain: option_view(self.retain),
            keep: slot_views(self.keep@),
        }
    }
}

impl<'a, const MERKLE_TREE_HEIGHT: usize> MerkleTree<'a, MERKLE_TREE_HEIGHT> {
    /// The leaves of the tree.
    pub closed spec fn leaves(&self) -> Seq<Leaf> {
        self.leaves@
    }

    /// The treehashes of the tree: that of level 1 first.
    pub closed spec fn treehashes(&self) -> Seq<TreeHash<'a>> {
        self.treehashes@
    }

    /// The tree has at least one level below the root and a leaf for each
    /// position; it holds the authentication path of its current leaf, its
    /// retained node, and the node that the next leaf needs from the left; and
    /// the treehash of each level has come as far with the right node that the
    /// level needs next as one leaf for each leaf of the tree brings it.
    pub open spec fn wf(&self) -> bool {
        &&& MERKLE_TREE_HEIGHT >= 1
        &&& self@.leaves == leaf_contents(self.leaves())
        &&& self@.leaves.len() == pow2(MERKLE_TREE_HEIGHT as nat)
        &&& self@.next_index <= pow2(MERKLE_TREE_HEIGHT as nat)
        &&& self@.current_authentication_path == authentication_path(
            self@.leaves,
            MERKLE_TREE_HEIGHT as nat,
            current_leaf(self@.next_index),
        )
        &&& self@.retain == retained_node(self@.leaves, MERKLE_TREE_HEIGHT as nat)
        &&& self@.keep == kept_nodes(self@.leaves, MERKLE_TREE_HEIGHT as nat, self@.next_index)
        &&& levels_before(
            self.treehashes(),
            self.leaves(),
            MERKLE_TREE_HEIGHT as nat,
            self@.next_index,
        )
    }

    /// The tree over `leaves`, ready for the leaf at position 0. A leaf's
    /// place in `leaves` is its position in the tree.
    ///
    /// The authentication path of that leaf is computed here: the node of the
    /// leaf at position 1, and for each level above the leaves the node that a
    /// fresh treehash gives over the leaves from `2^level` up to `2^(level+1)`.
    /// The retained node is the one that a treehash gives over the last
    /// quarter of the leaves.
    ///
    /// Refused with `InvalidConfiguration` where the height is zero, and
    /// otherwise with `InvalidLeafCount` where the number of leaves is not
    /// `2^MERKLE_TREE_HEIGHT`.
    pub fn new(leaves: &'a [Leaf]) -> (made: Result<Self, Error>)
        ensures
            made is Ok <==> MERKLE_TREE_HEIGHT >= 1 && leaves@.len() == pow2(
                MERKLE_TREE_HEIGHT as nat,
            ),
            made matches Ok(tree) ==> {
                &&& tree.wf()
                &&& tree.leaves() == leaves@
                &&& tree@.next_index == 0
                &&& tree@.current_authentication_path.len() == MERKLE_TREE_HEIGHT
                &&& forall|level: int|
                    0 <= level < MERKLE_TREE_HEIGHT
                        ==> #[trigger] tree@.current_authentication_path[level].height == level
            },
            made matches Err(error) ==> error == if MERKLE_TREE_HEIGHT == 0 {
                Error::InvalidConfiguration
            } else {
                Error::InvalidLeafCount
            },
    {
        if MERKLE_TREE_HEIGHT == 0 {
            return Err(Error::InvalidConfiguration);
        }
        let leaf_count: usize = leaves.len();
        let fits = match two_to_the(MERKLE_TREE_HEIGHT) {
            Some(count) => count == leaf_count,
            None => false,
        };
        if !fits {
            return Err(Error::InvalidLeafCount);
        }
        let ghost contents = leaf_contents(leaves@);
        let ghost tree_height = MERKLE_TREE_HEIGHT as nat;
        proof {
            lemma2_to64();
            if 1 < tree_height {
                lemma_pow2_strictly_increases(1, tree_height);
            }
        }
        let mut path: Vec<Node> = Vec::new();
        path.push(Node::from_leaf_at(&leaves[1], 1));
        let mut treehashes: Vec<TreeHash<'a>> = Vec::new();
        let mut level: usize = 1;
        let mut span: usize = 2;
        while level < MERKLE_TREE_HEIGHT
            invariant
                1 <= level <= MERKLE_TREE_HEIGHT,
                span == pow2(level as nat),
                leaf_count == leaves@.len(),
                leaf_count == pow2(tree_height),
                tree_height == MERKLE_TREE_HEIGHT,
                contents == leaf_contents(leaves@),
                path@.len() == level,
                forall|j: int|
                    0 <= j < level ==> (#[trigger] path@[j])@ == authentication_node(
                        contents,
                        j as nat,
                        0,
                    ),
                treehashes@.len() + 1 == level,
                forall|i: int|
                    0 <= i < treehashes@.len() ==> level_before(
                        #[trigger] treehashes@[i],
                        leaves@,
                        tree_height,
                        (i + 1) as nat,
                        0,
                    ),
            decreases MERKLE_TREE_HEIGHT - level,
        {
            proof {
                // The leaves from `2^level` up to `2^(level + 1)` are the
                // second subtree of this level, and those from `3 * 2^level`
                // on the fourth, where the tree has one.
                lemma_pow2_pos(level as nat);
                lemma_pow2_unfold((level + 1) as nat);
                lemma_pow2_unfold((level + 2) as nat);
                if level + 2 < tree_height {
                    lemma_pow2_strictly_increases((level + 2) as nat, tree_height);
                }
                lemma_mod_multiples_basic(3, span as int);
            }
            let made = TreeHash::new(Stack::new(), leaves, span, Level(level));
            let mut treehash = made.unwrap();
            run_to_completion(&mut treehash);
            let found = treehash.result();
            path.push(found.unwrap());
            if MERKLE_TREE_HEIGHT - level > 2 {
                let restarted = treehash.initialize(3 * span);
                assert(restarted is Ok);
            }
            treehashes.push(treehash);
            level = level + 1;
            span = span * 2;
        }
        let mut retain: Option<Node> = None;
        if MERKLE_TREE_HEIGHT >= 2 {
            let quarter: usize = leaf_count / 4;
            proof {
                // A quarter of the leaves is one subtree two levels below the
                // root; the last quarter is the fourth of them.
                lemma_pow2_unfold(tree_height);
                lemma_pow2_unfold((tree_height - 1) as nat);
                lemma_mod_multiples_basic(3, quarter as int);
                lemma_div_multiples_vanish(3, quarter as int);
            }
            let made = TreeHash::new(
                Stack::new(),
                leaves,
                3 * quarter,
                Level(MERKLE_TREE_HEIGHT - 2),
            );
            let mut treehash = made.unwrap();
            run_to_completion(&mut treehash);
            retain = treehash.result();
        }
        let mut keep: Vec<Option<Node>> = Vec::new();
        let mut slots: usize = 0;
        while slots < MERKLE_TREE_HEIGHT
            invariant
                slots <= MERKLE_TREE_HEIGHT,
                keep@.len() == slots,
                forall|j: int| 0 <= j < slots ==> (#[trigger] keep@[j]) is None,
            decreases MERKLE_TREE_HEIGHT - slots,
        {
            keep.push(None);
            slots = slots + 1;
        }
        let tree = MerkleTree {
            retain,
            treehashes,
            current_authentication_path: path,
            leaves,
            keep,
            next_index: 0,
        };
        proof {
            assert(tree@.current_authentication_path =~= authentication_path(
                contents,
                tree_height,
                0,
            ));
            assert(tree@.keep =~= kept_nodes(contents, tree_height, 0));
        }
        Ok(tree)
    }

    /// The level of the first ancestor of `leaf`, itself included, that is a
    /// left child of its parent: 0 where the leaf stands at an even position,
    /// and otherwise the number of right children on the way up from it.
    pub fn get_first_left_node_parent_height(leaf: &Leaf) -> (height: usize)
        ensures
            height == trailing_ones(leaf@.index),
    {
        let index: usize = leaf.index();
        let mut position: usize = index;
        let mut height: usize = 0;
        while position % 2 == 1
            invariant
                trailing_ones(position as nat) + height == trailing_ones(index as nat),
                height + position <= index,
            decreases position,
        {
            position = position / 2;
            height = height + 1;
        }
        height
    }

    /// Takes the next leaf and returns its authentication path. Of `leaf`
    /// only the position is read: the tree goes by its own leaves.
    ///
    /// The path that the tree holds is moved on to `leaf`: levels at which the
    /// leaf's ancestor is a left child get a fresh right node (at level 0 the
    /// node of the leaf beside it), and the level above them gets the left
    /// node that was kept. Then the first ancestor of `leaf` that is a left
    /// child is kept for the leaf after it, unless it is the root, and each
    /// treehash that has not finished takes one leaf.
    ///
    /// Refused, with nothing changed, where `leaf` is not at the position that
    /// comes next (`OutOfOrderLeaf`), or where it is but the tree has no leaf
    /// left (`InvalidUsage`).
    pub fn update_and_output(&mut self, leaf: Leaf) -> (output: Result<Vec<Node>, Error>)
        requires
            old(self).wf(),
        ensures
            final(self).wf(),
            final(self).leaves() == old(self).leaves(),
            output is Ok <==> leaf@.index == old(self)@.next_index && old(self)@.next_index < pow2(
                MERKLE_TREE_HEIGHT as nat,
            ),
            output matches Ok(path) ==> {
                &&& node_views(path@) == authentication_path(
                    old(self)@.leaves,
                    MERKLE_TREE_HEIGHT as nat,
                    leaf@.index,
                )
                &&& final(self)@.current_authentication_path == node_views(path@)
                &&& final(self)@.next_index == old(self)@.next_index + 1
            },
            output matches Err(error) ==> {
                &&& *final(self) == *old(self)
                &&& error == if leaf@.index != old(self)@.next_index {
                    Error::OutOfOrderLeaf
                } else {
                    Error::InvalidUsage
                }
            },
    {
        let leaf_count: usize = self.leaves.len();
        if leaf.index() != self.next_index {
            return Err(Error::OutOfOrderLeaf);
        }
        if self.next_index == leaf_count {
            return Err(Error::InvalidUsage);
        }
        let current: usize = self.next_index;
        let first_left: usize = Self::get_first_left_node_parent_height(&leaf);
        let ghost top = MERKLE_TREE_HEIGHT as nat;
        if current > 0 {
            refresh_path(
                &mut self.current_authentication_path,
                &mut self.keep,
                &mut self.treehashes,
                &self.retain,
                self.leaves,
                MERKLE_TREE_HEIGHT,
                current,
            );
        } else {
            proof {
                assert(slot_views(self.keep@) =~= Seq::new(top, |height: int| None::<NodeView>));
                assert forall|i: int| 0 <= i < self.treehashes@.len() implies level_within(
                    #[trigger] self.treehashes@[i],
                    self.leaves@,
                    top,
                    (i + 1) as nat,
                    0,
                ) by {
                    lemma_pow2_pos((i + 2) as nat);
                }
            }
        }
        keep_left_ancestor(
            &self.current_authentication_path,
            &mut self.keep,
            self.leaves,
            MERKLE_TREE_HEIGHT,
            current,
            first_left,
        );
        drive_treehashes(
            &mut self.treehashes,
            Ghost(self.leaves@),
            Ghost(top),
            Ghost(current as nat),
        );
        self.next_index = current + 1;
        Ok(copy_nodes(&self.current_authentication_path))
    }

    /// The authentication path that the tree holds, from the leaves up.
    pub fn current_authentication_path(&self) -> (path: &[Node])
        ensures
            node_views(path@) == self@.current_authentication_path,
    {
        self.current_authentication_path.as_slice()
    }

    /// The node that the tree retains, where it has two levels below the root.
    pub fn retain(&self) -> (retained: Option<&Node>)
        ensures
            retained is Some <==> self@.retain is Some,
            retained matches Some(node) ==> Some(node@) == self@.retain,
    {
        self.retain.as_ref()
    }

    /// The treehash of `level`, for the levels above the leaves and below the
    /// root.
    pub fn treehash(&self, level: usize) -> (found: Option<&TreeHash<'a>>)
        ensures
            found is Some <==> 1 <= level <= self.treehashes().len(),
            found matches Some(treehash) ==> *treehash == self.treehashes()[level - 1],
    {
        if 1 <= level && level <= self.treehashes.len() {
            Some(&self.treehashes[level - 1])
        } else {
            None
        }
    }

    /// The node kept for level `height`, where one is kept.
    pub fn keep(&self, height: usize) -> (kept: Option<&Node>)
        ensures
            kept is Some <==> height < self@.keep.len() && self@.keep[height as int] is Some,
            kept matches Some(node) ==> Some(node@) == self@.keep[height as int],
    {
        if height < self.keep.len() {
            self.keep[height].as_ref()
        } else {
            None
        }
    }

    /// The position of the leaf that comes next.
    pub fn next_index(&self) -> (next: usize)
        ensures
            next == self@.next_index,
    {
        self.next_index
    }
}

} // verus!
