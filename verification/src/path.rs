use crate::model::combine;
use crate::model::leaf_at;
use crate::model::lemma_combine_siblings;
use crate::model::parent_index;
use crate::model::subtree_digest;
use crate::model::tree_node;
use crate::model::NodeView;
use vstd::arithmetic::div_mod::lemma_div_denominator;
use vstd::arithmetic::div_mod::lemma_basic_div;
use vstd::arithmetic::power2::lemma2_to64;
use vstd::arithmetic::power2::lemma_pow2_pos;
use vstd::arithmetic::power2::lemma_pow2_unfold;
use vstd::arithmetic::power2::pow2;
use vstd::prelude::*;

verus! {

/// The position of the other child of the parent of the node at `index`.
pub open spec fn sibling(index: nat) -> nat {
    if index % 2 == 0 {
        index + 1
    } else {
        (index - 1) as nat
    }
}

/// The node that the leaf at `leaf_index` needs at level `height` to get from
/// its ancestor at that level to the ancestor above: the ancestor's sibling.
pub open spec fn authentication_node(leaves: Seq<Seq<char>>, height: nat, leaf_index: nat) -> NodeView {
    tree_node(leaves, height, sibling(leaf_index / pow2(height)))
}

/// The authentication path of the leaf at `leaf_index` in the tree of height
/// `tree_height` over `leaves`: one node for each level below the root, from
/// the leaves up.
pub open spec fn authentication_path(
    leaves: Seq<Seq<char>>,
    tree_height: nat,
    leaf_index: nat,
) -> Seq<NodeView> {
    Seq::new(tree_height, |height: int| authentication_node(leaves, height as nat, leaf_index))
}

/// The node reached from `start` by combining it with each node of `path` in
/// turn.
pub open spec fn climb(start: NodeView, path: Seq<NodeView>) -> NodeView
    decreases path.len(),
{
    if path.len() == 0 {
        start
    } else {
        combine(climb(start, path.drop_last()), path.last())
    }
}

/// The position reached from position `start` by going up once for each node
/// of `path`: each time to the position above the current one and the node's.
pub open spec fn climb_position(start: nat, path: Seq<NodeView>) -> nat
    decreases path.len(),
{
    if path.len() == 0 {
        start
    } else {
        parent_index(climb_position(start, path.drop_last()), path.last().index) as nat
    }
}

/// Whether every step on the way up from position `start` along `path` has a
/// position to go to: the current position and the node's are never both 0.
pub open spec fn climb_defined(start: nat, path: Seq<NodeView>) -> bool
    decreases path.len(),
{
    path.len() == 0 || {
        &&& climb_defined(start, path.drop_last())
        &&& climb_position(start, path.drop_last()) > 0 || path.last().index > 0
    }
}

/// A climb goes up one level for each node of the path, by the positions that
/// `climb_position` gives.
pub proof fn lemma_climb_height(start: NodeView, path: Seq<NodeView>)
    ensures
        climb(start, path).height == start.height + path.len(),
        climb(start, path).index == climb_position(start.index, path),
    decreases path.len(),
{
    if path.len() > 0 {
        lemma_climb_height(start, path.drop_last());
    }
}

/// Where the way up along `path` is defined, so is the way along each of its
/// beginnings.
pub proof fn lemma_climb_defined_prefix(start: nat, path: Seq<NodeView>, length: nat)
    requires
        climb_defined(start, path),
        length <= path.len(),
    ensures
        climb_defined(start, path.take(length as int)),
    decreases path.len(),
{
    if length == path.len() {
        assert(path.take(length as int) =~= path);
    } else {
        lemma_climb_defined_prefix(start, path.drop_last(), length);
        assert(path.drop_last().take(length as int) =~= path.take(length as int));
    }
}

/// Climbing from a leaf along the first `levels` nodes of its authentication
/// path reaches the leaf's ancestor at that level, and every step on the way
/// has a position to go to.
pub proof fn lemma_climb_reaches_ancestor(
    leaves: Seq<Seq<char>>,
    tree_height: nat,
    leaf_index: nat,
    levels: nat,
)
    requires
        levels <= tree_height,
    ensures
        climb(
            leaf_at(leaves, leaf_index),
            authentication_path(leaves, tree_height, leaf_index).take(levels as int),
        ) == tree_node(leaves, levels, leaf_index / pow2(levels)),
        climb_defined(
            leaf_index,
            authentication_path(leaves, tree_height, leaf_index).take(levels as int),
        ),
    decreases levels,
{
    let path = authentication_path(leaves, tree_height, leaf_index);
    let start = leaf_at(leaves, leaf_index);
    if levels == 0 {
        lemma2_to64();
    } else {
        let below = (levels - 1) as nat;
        lemma_climb_reaches_ancestor(leaves, tree_height, leaf_index, below);
        lemma_climb_height(start, path.take(below as int));
        assert(path.take(levels as int).drop_last() =~= path.take(below as int));
        // The ancestor one level below and its sibling on the path are the
        // two children of the ancestor at this level.
        let position = leaf_index / pow2(below);
        lemma_pow2_pos(below);
        lemma_pow2_unfold(levels);
        assert(position / 2 == leaf_index / pow2(levels)) by {
            lemma_div_denominator(leaf_index as int, pow2(below) as int, 2);
        }
        lemma_combine_siblings(leaves, below, position / 2);
    }
}

/// Climbing from any leaf of the tree along its authentication path reaches
/// the root of the tree.
pub proof fn lemma_climb_reaches_root(leaves: Seq<Seq<char>>, tree_height: nat, leaf_index: nat)
    requires
        leaf_index < pow2(tree_height),
    ensures
        climb(
            leaf_at(leaves, leaf_index),
            authentication_path(leaves, tree_height, leaf_index),
        ).digest == subtree_digest(leaves, tree_height, 0),
        climb_defined(leaf_index, authentication_path(leaves, tree_height, leaf_index)),
{
    let path = authentication_path(leaves, tree_height, leaf_index);
    lemma_climb_reaches_ancestor(leaves, tree_height, leaf_index, tree_height);
    assert(path.take(tree_height as int) =~= path);
    lemma_basic_div(leaf_index as int, pow2(tree_height) as int);
}

} // verus!
