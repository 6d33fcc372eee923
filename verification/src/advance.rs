use crate::merkle_tree::kept_node;
use crate::merkle_tree::kept_nodes;
use crate::merkle_tree::option_view;
use crate::merkle_tree::retained_node;
use crate::merkle_tree::slot_views;
use crate::model::lemma_combine_siblings;
use crate::model::tree_node;
use crate::model::NodeView;
use crate::node::node_views;
use crate::node::Leaf;
use crate::node::Node;
use crate::path::authentication_node;
use crate::path::authentication_path;
use crate::powers::lemma_multiple;
use crate::powers::lemma_odd_multiple;
use crate::powers::lemma_ones_below;
use crate::powers::lemma_same_ancestor_above;
use crate::powers::lemma_trailing_ones;
use crate::powers::trailing_ones;
use crate::schedule::lemma_schedule_at_turn;
use crate::schedule::lemma_schedule_carries_over;
use crate::schedule::level_within;
use crate::schedule::levels_before;
use crate::schedule::levels_driven;
use crate::schedule::levels_turning;
use crate::tree_hash::leaf_contents;
use crate::tree_hash::TreeHash;
use vstd::arithmetic::div_mod::lemma_mod_multiples_vanish;
use vstd::arithmetic::div_mod::lemma_mod_self_0;
use vstd::arithmetic::power2::lemma2_to64;
use vstd::arithmetic::power2::lemma_pow2_strictly_increases;
use vstd::arithmetic::power2::lemma_pow2_unfold;
use vstd::arithmetic::power2::pow2;
use vstd::prelude::*;

verus! {

/// Takes every leaf of the range of `treehash` that it has not taken yet.
pub(crate) fn run_to_completion<'a>(treehash: &mut TreeHash<'a>)
    requires
        old(treehash).wf(),
    ensures
        final(treehash).wf(),
        final(treehash).leaves() == old(treehash).leaves(),
        final(treehash)@.complete(),
        final(treehash)@.leaves == old(treehash)@.leaves,
        final(treehash)@.start_index == old(treehash)@.start_index,
        final(treehash)@.target_height == old(treehash)@.target_height,
{
    while !treehash.is_complete()
        invariant
            treehash.wf(),
            treehash.leaves() == old(treehash).leaves(),
            treehash@.leaves == old(treehash)@.leaves,
            treehash@.start_index == old(treehash)@.start_index,
            treehash@.target_height == old(treehash)@.target_height,
        decreases pow2(treehash@.target_height) - treehash@.consumed,
    {
        let next: usize = treehash.next_index();
        let taken = treehash.update(next);
        assert(taken is Ok);
    }
}

/// A copy of each of `nodes`, in their order.
pub(crate) fn copy_nodes(nodes: &Vec<Node>) -> (copies: Vec<Node>)
    ensures
        node_views(copies@) == node_views(nodes@),
{
    let mut copies: Vec<Node> = Vec::new();
    let count: usize = nodes.len();
    let mut done: usize = 0;
    while done < count
        invariant
            done <= count,
            count == nodes@.len(),
            copies@.len() == done,
            forall|j: int| 0 <= j < done ==> (#[trigger] copies@[j])@ == nodes@[j]@,
        decreases count - done,
    {
        copies.push(nodes[done].clone());
        done = done + 1;
    }
    copies
}

/// Turns the authentication path of the leaf before `current` into that of
/// the leaf at `current`.
///
/// From the leaves up, for as long as the ancestor of the leaf is a left
/// child, the level gets the right node beside it: the next leaf at level 0,
/// the retained node two levels below the root, and the finished node of the
/// level's treehash between them, which then starts on the right node after
/// that where the tree has one. The first level at which the ancestor is a
/// right child gets the left node that was kept for it.
pub(crate) fn refresh_path<'a>(
    path: &mut Vec<Node>,
    keep: &mut Vec<Option<Node>>,
    treehashes: &mut Vec<TreeHash<'a>>,
    retain: &Option<Node>,
    leaves: &'a [Leaf],
    tree_height: usize,
    current: usize,
)
    requires
        tree_height >= 1,
        leaves@.len() == pow2(tree_height as nat),
        0 < current < pow2(tree_height as nat),
        node_views(old(path)@) == authentication_path(
            leaf_contents(leaves@),
            tree_height as nat,
            (current - 1) as nat,
        ),
        slot_views(old(keep)@) == kept_nodes(
            leaf_contents(leaves@),
            tree_height as nat,
            current as nat,
        ),
        option_view(*retain) == retained_node(leaf_contents(leaves@), tree_height as nat),
        levels_before(old(treehashes)@, leaves@, tree_height as nat, current as nat),
    ensures
        node_views(final(path)@) == authentication_path(
            leaf_contents(leaves@),
            tree_height as nat,
            current as nat,
        ),
        slot_views(final(keep)@) == Seq::new(tree_height as nat, |height: int| None::<NodeView>),
        levels_turning(
            final(treehashes)@,
            leaves@,
            tree_height as nat,
            current as nat,
            tree_height as nat,
        ),
{
    let ghost contents = leaf_contents(leaves@);
    let ghost top = tree_height as nat;
    let leaf_count: usize = leaves.len();
    let mut position: usize = current;
    let mut height: usize = 0;
    let mut span: usize = 1;
    proof {
        lemma2_to64();
        assert(node_views(path@).len() == top);
        assert(slot_views(keep@).len() == top);
        assert forall|j: int| 0 <= j < top implies (#[trigger] path@[j])@ == authentication_node(
            contents,
            j as nat,
            (current - 1) as nat,
        ) by {
            assert(node_views(path@)[j] == path@[j]@);
        }
    }
    while position % 2 == 0
        invariant
            current == position * span,
            span == pow2(height as nat),
            position >= 1,
            height < tree_height,
            top == tree_height,
            contents == leaf_contents(leaves@),
            leaf_count == leaves@.len(),
            leaves@.len() == pow2(top),
            0 < current < pow2(top),
            option_view(*retain) == retained_node(contents, top),
            path@.len() == top,
            forall|j: int|
                0 <= j < top ==> (#[trigger] path@[j])@ == if j < height {
                    authentication_node(contents, j as nat, current as nat)
                } else {
                    authentication_node(contents, j as nat, (current - 1) as nat)
                },
            keep@ == old(keep)@,
            levels_turning(treehashes@, leaves@, top, current as nat, height as nat),
        decreases position,
    {
        let ghost level = height as nat;
        proof {
            // The leaf's ancestor at this level is a left child, so `current`
            // is a multiple of `2^(level + 1)`, which is therefore less than
            // the number of leaves: the level above is still below the root.
            lemma_pow2_unfold(level + 1);
            lemma_multiple(current as nat, position as nat, level);
            assert(current == (position / 2) * pow2(level + 1)) by (nonlinear_arith)
                requires
                    current == position * span,
                    position % 2 == 0,
                    pow2(level + 1) == 2 * span,
            ;
            lemma_multiple(current as nat, (position / 2) as nat, level + 1);
            assert(2 * span <= current) by (nonlinear_arith)
                requires
                    current == position * span,
                    position >= 2,
                    span >= 0,
            ;
        }
        let node: Node;
        if height == 0 {
            proof {
                lemma2_to64();
                lemma_pow2_unfold(top);
            }
            node = Node::from_leaf_at(&leaves[current + 1], current + 1);
        } else if tree_height - height > 2 {
            proof {
                lemma_schedule_at_turn(top, level, current as nat);
            }
            let found = treehashes[height - 1].result();
            node = found.unwrap();
            if span <= (leaf_count - current) / 4 {
                proof {
                    lemma_mod_multiples_vanish(3, current as int, span as int);
                }
                let restarted = treehashes[height - 1].initialize(current + 3 * span);
                assert(restarted is Ok);
            }
        } else {
            proof {
                // Two levels below the root the only left child but the first
                // is the third node: the retained node stands beside it.
                lemma_pow2_unfold(top);
                assert(position < 4) by (nonlinear_arith)
                    requires
                        current == position * span,
                        current < 4 * span,
                        span > 0,
                ;
            }
            node = retain.as_ref().unwrap().clone();
        }
        path[height] = node;
        position = position / 2;
        span = span * 2;
        height = height + 1;
    }
    let ghost level = height as nat;
    proof {
        // The leaf before `current` has `level` right children below its first
        // left ancestor: that ancestor is what was kept.
        lemma_multiple(current as nat, position as nat, level);
        assert(current - 1 == (position - 1) * pow2(level) + pow2(level) - 1) by (nonlinear_arith)
            requires
                current == position * span,
                span == pow2(level),
        ;
        lemma_trailing_ones((current - 1) as nat, (position - 1) as nat, level);
        lemma_ones_below((current - 1) as nat, (position - 1) as nat, level);
        assert(slot_views(keep@)[height as int] == kept_node(
            contents,
            top,
            current as nat,
            level,
        ));
    }
    let ghost kept_before = keep@;
    let kept = keep[height].take();
    path[height] = kept.unwrap();
    proof {
        assert forall|j: int| 0 <= j < top implies (#[trigger] path@[j])@ == authentication_node(
            contents,
            j as nat,
            current as nat,
        ) by {
            if j > height {
                lemma_same_ancestor_above(current as nat, position as nat, level, j as nat);
            }
        }
        assert forall|j: int| 0 <= j < top implies (#[trigger] slot_views(keep@)[j]) is None by {
            if j != height {
                assert(slot_views(kept_before)[j] == kept_nodes(contents, top, current as nat)[j]);
            }
        }
        assert forall|i: int| 0 <= i < treehashes@.len() implies level_within(
            #[trigger] treehashes@[i],
            leaves@,
            top,
            (i + 1) as nat,
            current as nat,
        ) by {
            if i + 1 >= height {
                lemma_odd_multiple(current as nat, position as nat, level, (i + 2) as nat);
                lemma_schedule_carries_over(treehashes@[i]@, top, (i + 1) as nat, current as nat);
            }
        }
    }
}

/// Keeps, for the leaf after `current`, the left node that it needs: the
/// first ancestor of the leaf at `current` that is a left child, which stands
/// at level `first_left`. It is computed from the leaf and the left siblings
/// on its authentication path. Nothing is kept where that ancestor is the
/// root.
pub(crate) fn keep_left_ancestor<'a>(
    path: &Vec<Node>,
    keep: &mut Vec<Option<Node>>,
    leaves: &'a [Leaf],
    tree_height: usize,
    current: usize,
    first_left: usize,
)
    requires
        tree_height >= 1,
        leaves@.len() == pow2(tree_height as nat),
        current < pow2(tree_height as nat),
        first_left == trailing_ones(current as nat),
        node_views(path@) == authentication_path(
            leaf_contents(leaves@),
            tree_height as nat,
            current as nat,
        ),
        slot_views(old(keep)@) == Seq::new(tree_height as nat, |height: int| None::<NodeView>),
    ensures
        slot_views(final(keep)@) == kept_nodes(
            leaf_contents(leaves@),
            tree_height as nat,
            (current + 1) as nat,
        ),
{
    let ghost contents = leaf_contents(leaves@);
    let ghost top = tree_height as nat;
    let mut node = Node::from_leaf_at(&leaves[current], current);
    let mut position: usize = current;
    let mut height: usize = 0;
    proof {
        lemma2_to64();
        assert(node_views(path@).len() == top);
        assert(slot_views(keep@).len() == top);
    }
    while height < first_left
        invariant
            current == position * pow2(height as nat) + pow2(height as nat) - 1,
            trailing_ones(position as nat) + height == first_left,
            node@ == tree_node(contents, height as nat, position as nat),
            top == tree_height,
            current < pow2(top),
            contents == leaf_contents(leaves@),
            node_views(path@) == authentication_path(contents, top, current as nat),
            path@.len() == top,
        decreases first_left - height,
    {
        let ghost level = height as nat;
        proof {
            lemma_pow2_unfold(level + 1);
            // The ancestor at this level is a right child, so `current` is
            // `2^level` at least, and the level lies below the root.
            assert(level < top) by {
                if level >= top {
                    if level > top {
                        lemma_pow2_strictly_increases(top, level);
                    }
                    assert(current >= pow2(level)) by (nonlinear_arith)
                        requires
                            current == position * pow2(level) + pow2(level) - 1,
                            position >= 1,
                            pow2(level) > 0,
                    ;
                }
            }
            // Its sibling is the left node on the authentication path, and
            // the two combine to the ancestor one level up.
            lemma_ones_below(current as nat, position as nat, level);
            lemma_combine_siblings(contents, level, (position / 2) as nat);
            assert(path@[height as int]@ == node_views(path@)[height as int]);
            assert(current == (position / 2) * pow2(level + 1) + pow2(level + 1) - 1)
                by (nonlinear_arith)
                requires
                    current == position * pow2(level) + pow2(level) - 1,
                    position % 2 == 1,
                    pow2(level + 1) == 2 * pow2(level),
            ;
        }
        node = path[height].combine(&node);
        position = position / 2;
        height = height + 1;
    }
    let ghost level = height as nat;
    proof {
        lemma_ones_below(current as nat, position as nat, level);
    }
    if height < tree_height {
        proof {
            // The leaf is not the last one: an odd multiple of `2^height` is
            // not the number of leaves.
            assert(current + 1 == (position + 1) * pow2(level)) by (nonlinear_arith)
                requires
                    current == position * pow2(level) + pow2(level) - 1,
            ;
            lemma_odd_multiple((current + 1) as nat, (position + 1) as nat, level, top);
            lemma_mod_self_0(pow2(top) as int);
        }
        keep[height] = Some(node);
    }
    proof {
        assert forall|j: int| 0 <= j < top implies #[trigger] slot_views(keep@)[j] == kept_node(
            contents,
            top,
            (current + 1) as nat,
            j as nat,
        ) by {
            if j != height {
                assert(slot_views(keep@)[j] == slot_views(old(keep)@)[j]);
            }
        }
    }
}

/// Gives the treehash of each level that has not finished its node the next
/// leaf of its range: one leaf for each level and each leaf of the tree.
pub(crate) fn drive_treehashes<'a>(
    treehashes: &mut Vec<TreeHash<'a>>,
    Ghost(leaves): Ghost<Seq<Leaf>>,
    Ghost(tree_height): Ghost<nat>,
    Ghost(current): Ghost<nat>,
)
    requires
        levels_turning(old(treehashes)@, leaves, tree_height, current, tree_height),
    ensures
        levels_before(final(treehashes)@, leaves, tree_height, current + 1),
{
    let count: usize = treehashes.len();
    let mut driven: usize = 0;
    while driven < count
        invariant
            driven <= count,
            count == treehashes@.len(),
            levels_driven(treehashes@, leaves, tree_height, current, driven as nat),
        decreases count - driven,
    {
        if !treehashes[driven].is_complete() {
            let next: usize = treehashes[driven].next_index();
            let taken = treehashes[driven].update(next);
            assert(taken is Ok);
        }
        driven = driven + 1;
    }
}

} // verus!
