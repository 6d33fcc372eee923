use crate::hash::sha256_hex;
use crate::powers::lemma_set_digits_above;
use crate::powers::set_digits;
use vstd::arithmetic::power2::lemma2_to64;
use vstd::arithmetic::power2::lemma_pow2_pos;
use vstd::arithmetic::power2::lemma_pow2_unfold;
use vstd::arithmetic::power2::pow2;
use vstd::prelude::*;

verus! {

/// What a node is: the digest of the subtree below it, its level above the
/// leaves, and its position among the nodes of that level.
pub struct NodeView {
    pub digest: Seq<char>,
    pub height: nat,
    pub index: nat,
}

/// What a leaf is: its position and the content that is hashed.
pub struct LeafView {
    pub index: nat,
    pub content: Seq<char>,
}

/// The node at level 0 and position `index` for a leaf with the given content.
pub open spec fn leaf_node(content: Seq<char>, index: nat) -> NodeView {
    NodeView { digest: sha256_hex(content), height: 0, index }
}

/// The node of the leaf that stands at `position` among `leaves`.
pub open spec fn leaf_at(leaves: Seq<Seq<char>>, position: nat) -> NodeView {
    leaf_node(leaves[position as int], position)
}

/// The position above the positions `a` and `b`: that of the parent where the
/// two are siblings. Two nodes at position 0 have none.
pub open spec fn parent_index(a: nat, b: nat) -> int {
    let larger = if a < b {
        b
    } else {
        a
    };
    (larger + 1) / 2 - 1
}

/// What is hashed for the parent of `a` and `b`: the two child digests one
/// after the other, that of the child at the smaller position first.
pub open spec fn prehash(a: NodeView, b: NodeView) -> Seq<char> {
    if a.index < b.index {
        a.digest + b.digest
    } else {
        b.digest + a.digest
    }
}

/// The parent of `a` and `b` with the given digest: one level above `a`, at
/// the position above the two.
pub open spec fn parent_with(a: NodeView, b: NodeView, digest: Seq<char>) -> NodeView {
    NodeView { digest, height: a.height + 1, index: parent_index(a.index, b.index) as nat }
}

/// The parent of `a` and `b`: its digest is the hash of the two child
/// digests, the child at the smaller position first.
pub open spec fn combine(a: NodeView, b: NodeView) -> NodeView {
    parent_with(a, b, sha256_hex(prehash(a, b)))
}

/// The digest of the subtree whose root stands `height` levels above the
/// leaves at position `index`: the hash of a leaf's content at level 0, the
/// hash of the two child digests, left child first, above it.
pub open spec fn subtree_digest(leaves: Seq<Seq<char>>, height: nat, index: nat) -> Seq<char>
    decreases height,
{
    if height == 0 {
        sha256_hex(leaves[index as int])
    } else {
        sha256_hex(
            subtree_digest(leaves, (height - 1) as nat, 2 * index) + subtree_digest(
                leaves,
                (height - 1) as nat,
                2 * index + 1,
            ),
        )
    }
}

/// The node of the tree over `leaves` at level `height` and position `index`.
pub open spec fn tree_node(leaves: Seq<Seq<char>>, height: nat, index: nat) -> NodeView {
    NodeView { digest: subtree_digest(leaves, height, index), height, index }
}

/// Combining the two children of a tree node, in either order, gives that node.
pub proof fn lemma_combine_siblings(leaves: Seq<Seq<char>>, height: nat, index: nat)
    ensures
        combine(tree_node(leaves, height, 2 * index), tree_node(leaves, height, 2 * index + 1))
            == tree_node(leaves, height + 1, index),
        combine(tree_node(leaves, height, 2 * index + 1), tree_node(leaves, height, 2 * index))
            == tree_node(leaves, height + 1, index),
{
}

/// One step of the treehash algorithm on a stack given bottom first: while the
/// top of the stack stands at the level of `node`, the top is taken off and
/// combined with `node`; what results is put on top.
pub open spec fn treehash_step(stack: Seq<NodeView>, node: NodeView) -> Seq<NodeView>
    decreases stack.len(),
{
    if stack.len() > 0 && stack.last().height == node.height {
        treehash_step(stack.drop_last(), combine(stack.last(), node))
    } else {
        stack.push(node)
    }
}

/// Every combination that `treehash_step` makes on `stack` and `node` joins a
/// left node with the right node beside it, below level `limit`.
pub open spec fn joins_siblings(stack: Seq<NodeView>, node: NodeView, limit: nat) -> bool
    decreases stack.len(),
{
    stack.len() > 0 && stack.last().height == node.height ==> {
        &&& node.height < limit
        &&& node.index % 2 == 1
        &&& stack.last().index + 1 == node.index
        &&& joins_siblings(stack.drop_last(), combine(stack.last(), node), limit)
    }
}

/// The stack of a treehash that works on the subtree at level `height` and
/// position `index` once it has taken the first `consumed` leaves of that
/// subtree: one node for each binary digit of `consumed` that is set, the
/// largest subtree at the bottom, and the subtree's root alone at the end.
pub open spec fn treehash_stack(
    leaves: Seq<Seq<char>>,
    height: nat,
    index: nat,
    consumed: nat,
) -> Seq<NodeView>
    decreases height,
{
    if consumed >= pow2(height) {
        seq![tree_node(leaves, height, index)]
    } else if height == 0 {
        Seq::empty()
    } else {
        let half = pow2((height - 1) as nat);
        if consumed < half {
            treehash_stack(leaves, (height - 1) as nat, 2 * index, consumed)
        } else {
            seq![tree_node(leaves, (height - 1) as nat, 2 * index)] + treehash_stack(
                leaves,
                (height - 1) as nat,
                2 * index + 1,
                (consumed - half) as nat,
            )
        }
    }
}

/// Before the first leaf the stack is empty.
pub proof fn lemma_treehash_stack_empty(leaves: Seq<Seq<char>>, height: nat, index: nat)
    ensures
        treehash_stack(leaves, height, index, 0) == Seq::<NodeView>::empty(),
    decreases height,
{
    lemma_pow2_pos(height);
    if height > 0 {
        lemma_treehash_stack_empty(leaves, (height - 1) as nat, 2 * index);
    }
}

/// The stack never holds more than `height + 1` nodes, and before the last
/// leaf no more than `height`.
pub proof fn lemma_treehash_stack_bound(
    leaves: Seq<Seq<char>>,
    height: nat,
    index: nat,
    consumed: nat,
)
    ensures
        treehash_stack(leaves, height, index, consumed).len() <= height + 1,
        consumed < pow2(height) ==> treehash_stack(leaves, height, index, consumed).len()
            <= height,
    decreases height,
{
    if consumed < pow2(height) && height > 0 {
        let half = pow2((height - 1) as nat);
        if consumed < half {
            lemma_treehash_stack_bound(leaves, (height - 1) as nat, 2 * index, consumed);
        } else {
            lemma_pow2_unfold(height);
            lemma_treehash_stack_bound(
                leaves,
                (height - 1) as nat,
                2 * index + 1,
                (consumed - half) as nat,
            );
        }
    }
}

/// Before the last leaf the stack holds one node for each binary digit of
/// `consumed` that is set; after it, one node.
pub proof fn lemma_treehash_stack_len(
    leaves: Seq<Seq<char>>,
    height: nat,
    index: nat,
    consumed: nat,
)
    ensures
        treehash_stack(leaves, height, index, consumed).len() == if consumed < pow2(height) {
            set_digits(consumed)
        } else {
            1
        },
    decreases height,
{
    if consumed < pow2(height) {
        if height == 0 {
            lemma2_to64();
        } else {
            let below = (height - 1) as nat;
            let half = pow2(below);
            if consumed < half {
                lemma_treehash_stack_len(leaves, below, 2 * index, consumed);
            } else {
                let rest = (consumed - half) as nat;
                lemma_pow2_unfold(height);
                lemma_treehash_stack_len(leaves, below, 2 * index + 1, rest);
                lemma_set_digits_above(below, rest);
            }
        }
    }
}

/// No two nodes of the stack stand at one level: from the bottom up each node
/// stands below the one before, none stands above level `height`, and before
/// the last leaf all stand below it.
pub proof fn lemma_treehash_stack_heights(
    leaves: Seq<Seq<char>>,
    height: nat,
    index: nat,
    consumed: nat,
)
    ensures
        forall|lower: int, upper: int|
            0 <= lower < upper < treehash_stack(leaves, height, index, consumed).len()
                ==> (#[trigger] treehash_stack(leaves, height, index, consumed)[lower]).height
                > (#[trigger] treehash_stack(leaves, height, index, consumed)[upper]).height,
        forall|at: int|
            0 <= at < treehash_stack(leaves, height, index, consumed).len() ==> (
            #[trigger] treehash_stack(leaves, height, index, consumed)[at]).height <= height,
        consumed < pow2(height) ==> forall|at: int|
            0 <= at < treehash_stack(leaves, height, index, consumed).len() ==> (
            #[trigger] treehash_stack(leaves, height, index, consumed)[at]).height < height,
    decreases height,
{
    let stack = treehash_stack(leaves, height, index, consumed);
    if consumed >= pow2(height) {
        assert(stack.len() == 1);
        assert(stack[0] == tree_node(leaves, height, index));
    } else if height == 0 {
        assert(stack.len() == 0);
    } else {
        let below = (height - 1) as nat;
        let half = pow2(below);
        if consumed < half {
            lemma_treehash_stack_heights(leaves, below, 2 * index, consumed);
            assert(stack == treehash_stack(leaves, below, 2 * index, consumed));
        } else {
            lemma_pow2_unfold(height);
            let rest = treehash_stack(leaves, below, 2 * index + 1, (consumed - half) as nat);
            lemma_treehash_stack_heights(leaves, below, 2 * index + 1, (consumed - half) as nat);
            assert(stack == seq![tree_node(leaves, below, 2 * index)] + rest);
            assert forall|at: int| 0 <= at < stack.len() implies (#[trigger] stack[at]).height
                < height by {
                if at > 0 {
                    assert(stack[at] == rest[at - 1]);
                }
            }
            assert forall|lower: int, upper: int| 0 <= lower < upper < stack.len() implies (
            #[trigger] stack[lower]).height > (#[trigger] stack[upper]).height by {
                assert(stack[upper] == rest[upper - 1]);
                if lower > 0 {
                    assert(stack[lower] == rest[lower - 1]);
                }
            }
        }
    }
}

/// Taking the next leaf of the subtree turns the stack after `consumed` leaves
/// into the stack after `consumed + 1` leaves, and on the way only siblings
/// are combined. Stated with any `prefix` below the subtree's own nodes whose
/// top does not stand below the subtree's root.
pub proof fn lemma_treehash_step(
    leaves: Seq<Seq<char>>,
    height: nat,
    index: nat,
    consumed: nat,
    prefix: Seq<NodeView>,
    limit: nat,
)
    requires
        consumed < pow2(height),
        prefix.len() > 0 ==> prefix.last().height >= height,
        consumed + 1 == pow2(height) ==> joins_siblings(
            prefix,
            tree_node(leaves, height, index),
            limit,
        ),
        height <= limit,
    ensures
        treehash_step(
            prefix + treehash_stack(leaves, height, index, consumed),
            leaf_at(leaves, index * pow2(height) + consumed),
        ) == if consumed + 1 == pow2(height) {
            treehash_step(prefix, tree_node(leaves, height, index))
        } else {
            prefix + treehash_stack(leaves, height, index, consumed + 1)
        },
        joins_siblings(
            prefix + treehash_stack(leaves, height, index, consumed),
            leaf_at(leaves, index * pow2(height) + consumed),
            limit,
        ),
    decreases height,
{
    let stack = treehash_stack(leaves, height, index, consumed);
    if height == 0 {
        // No leaf was taken yet, and the leaf is the root of the subtree.
        lemma2_to64();
    } else {
        let below = (height - 1) as nat;
        let half = pow2(below);
        let left = tree_node(leaves, below, 2 * index);
        lemma_pow2_unfold(height);
        assert(index * pow2(height) == (2 * index) * half) by (nonlinear_arith)
            requires
                pow2(height) == 2 * half,
        ;
        assert((2 * index + 1) * half == (2 * index) * half + half) by (nonlinear_arith);
        if consumed < half {
            // The leaf belongs to the left half. Where it is the last leaf of
            // that half, the finished left child comes to rest on `prefix`.
            if consumed + 1 == half {
                assert(treehash_step(prefix, left) == prefix.push(left));
                lemma_treehash_stack_empty(leaves, below, 2 * index + 1);
            }
            lemma_treehash_step(leaves, below, 2 * index, consumed, prefix, limit);
        } else {
            // The leaf belongs to the right half, which is worked on above the
            // finished left child. Where it is the last leaf, the two children
            // are combined into the root of the subtree.
            let rest = (consumed - half) as nat;
            let lower = prefix + seq![left];
            assert(prefix + stack =~= lower + treehash_stack(leaves, below, 2 * index + 1, rest));
            assert(lower.drop_last() =~= prefix);
            lemma_combine_siblings(leaves, below, index);
            lemma_treehash_step(leaves, below, 2 * index + 1, rest, lower, limit);
        }
    }
}

} // verus!
