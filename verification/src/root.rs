use crate::model::leaf_node;
use crate::node::node_views;
use crate::node::Leaf;
use crate::node::Node;
use crate::model::subtree_digest;
use crate::path::authentication_path;
use crate::path::climb;
use crate::path::lemma_climb_reaches_root;
use crate::tree_hash::leaf_contents;
use vstd::arithmetic::power2::pow2;
use crate::path::climb_defined;
use crate::path::climb_position;
use crate::path::lemma_climb_defined_prefix;
use crate::path::lemma_climb_height;
use vstd::prelude::*;
use vstd::string::StringExecFns;

verus! {

/// Whether every step on the way up from position `leaf_index` along
/// `authentication_path` has a position to go to.
pub fn path_is_defined(leaf_index: usize, authentication_path: &[Node]) -> (defined: bool)
    ensures
        defined == climb_defined(leaf_index as nat, node_views(authentication_path@)),
{
    let ghost path = node_views(authentication_path@);
    let count: usize = authentication_path.len();
    let mut position: usize = leaf_index;
    let mut taken: usize = 0;
    while taken < count
        invariant
            taken <= count,
            count == authentication_path@.len(),
            path == node_views(authentication_path@),
            climb_defined(leaf_index as nat, path.take(taken as int)),
            position == climb_position(leaf_index as nat, path.take(taken as int)),
        decreases count - taken,
    {
        let beside: usize = authentication_path[taken].j();
        proof {
            let next = path.take(taken + 1);
            assert(next.drop_last() =~= path.take(taken as int));
        }
        if position == 0 && beside == 0 {
            proof {
                if climb_defined(leaf_index as nat, path) {
                    lemma_climb_defined_prefix(leaf_index as nat, path, (taken + 1) as nat);
                }
            }
            return false;
        }
        position = if position < beside {
            (beside - 1) / 2
        } else {
            (position - 1) / 2
        };
        taken = taken + 1;
    }
    assert(path.take(count as int) =~= path);
    true
}

/// The digest of the root that a leaf and an authentication path claim.
///
/// The node of `leaf`, taken to stand at position `leaf_index`, is combined
/// with each node of `authentication_path` in turn: the two digests are
/// hashed together, the one at the smaller position first, which gives the
/// node one level up at the position `(max(current, sibling) + 1) / 2 - 1`.
/// The last digest is returned.
///
/// No two nodes at position 0 may meet on the way: they have no parent
/// position.
pub fn calculate_root(leaf_index: usize, leaf: &Leaf, authentication_path: &[Node]) -> (root: String)
    requires
        climb_defined(leaf_index as nat, node_views(authentication_path@)),
    ensures
        root@ == climb(
            leaf_node(leaf@.content, leaf_index as nat),
            node_views(authentication_path@),
        ).digest,
{
    let ghost start = leaf_node(leaf@.content, leaf_index as nat);
    let ghost path = node_views(authentication_path@);
    let mut node = Node::from_leaf_at(leaf, leaf_index);
    let count: usize = authentication_path.len();
    let mut taken: usize = 0;
    while taken < count
        invariant
            taken <= count,
            count == authentication_path@.len(),
            path == node_views(authentication_path@),
            climb_defined(leaf_index as nat, path),
            node@ == climb(start, path.take(taken as int)),
            start == leaf_node(leaf@.content, leaf_index as nat),
        decreases count - taken,
    {
        proof {
            let next = path.take(taken + 1);
            assert(next.drop_last() =~= path.take(taken as int));
            lemma_climb_height(start, path.take(taken as int));
            lemma_climb_defined_prefix(leaf_index as nat, path, (taken + 1) as nat);
        }
        node = node.combine(&authentication_path[taken]);
        taken = taken + 1;
    }
    assert(path.take(count as int) =~= path);
    String::from_str(node.hash())
}

/// The digest of the root that a leaf and an authentication path claim, as
/// `calculate_root` gives it; or `None` where two nodes at position 0 meet on
/// the way, which have no parent position.
pub fn try_calculate_root(leaf_index: usize, leaf: &Leaf, authentication_path: &[Node]) -> (root:
    Option<String>)
    ensures
        root is Some <==> climb_defined(leaf_index as nat, node_views(authentication_path@)),
        root matches Some(digest) ==> digest@ == climb(
            leaf_node(leaf@.content, leaf_index as nat),
            node_views(authentication_path@),
        ).digest,
{
    if path_is_defined(leaf_index, authentication_path) {
        Some(calculate_root(leaf_index, leaf, authentication_path))
    } else {
        None
    }
}

/// The authentication path of a leaf of the tree leads from that leaf to the
/// root of the tree: the way up along it is defined, and the climb ends at
/// the digest of the whole tree over `leaves`.
pub proof fn lemma_path_leads_to_root(
    leaves: Seq<Leaf>,
    tree_height: nat,
    leaf_index: nat,
    path: Seq<Node>,
)
    requires
        leaf_index < pow2(tree_height),
        leaves.len() == pow2(tree_height),
        node_views(path) == authentication_path(leaf_contents(leaves), tree_height, leaf_index),
    ensures
        climb_defined(leaf_index, node_views(path)),
        climb(leaf_node(leaves[leaf_index as int]@.content, leaf_index), node_views(path)).digest
            == subtree_digest(leaf_contents(leaves), tree_height, 0),
{
    lemma_climb_reaches_root(leaf_contents(leaves), tree_height, leaf_index);
}

} // verus!
