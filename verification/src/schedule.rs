use crate::node::Leaf;
use crate::powers::lemma_multiple;
use crate::powers::lemma_step_back;
use crate::powers::lemma_step_back_multiple;
use crate::tree_hash::TreeHash;
use crate::tree_hash::TreeHashView;
use vstd::arithmetic::div_mod::lemma_fundamental_div_mod;
use vstd::arithmetic::power2::lemma_pow2_adds;
use vstd::arithmetic::power2::lemma_pow2_pos;
use vstd::arithmetic::power2::lemma_pow2_unfold;
use vstd::arithmetic::power2::pow2;
use vstd::prelude::*;

verus! {

/// The first leaf of the right node that level `level` needs next once the
/// leaf at `last` has been reached: the node two to the right of the one that
/// is, or was last, in the authentication path.
pub open spec fn pending_start(level: nat, last: nat) -> nat {
    (2 * (last / pow2(level + 1)) + 3) * pow2(level)
}

/// Whether level `level` has a right node left to compute once the leaf at
/// `last` has been reached. The two levels below the root have none: theirs
/// are known from the start.
pub open spec fn pending_exists(tree_height: nat, level: nat, last: nat) -> bool {
    &&& level + 2 < tree_height
    &&& pending_start(level, last) + pow2(level) <= pow2(tree_height)
}

/// How many leaves a treehash at `level` has taken after `steps` chances to
/// take one.
pub open spec fn progress(level: nat, steps: nat) -> nat {
    if steps < pow2(level) {
        steps
    } else {
        pow2(level)
    }
}

/// The treehash of `level` works on the right node that the level needs next
/// after the leaf at `last` and has had `steps` chances to take a leaf; or the
/// level needs no more nodes and its treehash rests complete.
pub open spec fn scheduled(
    treehash: TreeHashView,
    tree_height: nat,
    level: nat,
    last: nat,
    steps: nat,
) -> bool {
    &&& treehash.target_height == level
    &&& if pending_exists(tree_height, level, last) {
        &&& treehash.start_index == pending_start(level, last)
        &&& treehash.consumed == progress(level, steps)
    } else {
        treehash.complete()
    }
}

/// The state of the treehash of `level` between two leaves, `next` being the
/// leaf that comes next.
pub open spec fn scheduled_before(
    treehash: TreeHashView,
    tree_height: nat,
    level: nat,
    next: nat,
) -> bool {
    if next == 0 {
        scheduled(treehash, tree_height, level, 0, 0)
    } else {
        let last = (next - 1) as nat;
        scheduled(treehash, tree_height, level, last, last % pow2(level + 1) + 1)
    }
}

/// The state of the treehash of `level` while the leaf at `current` is being
/// handled: after its finished node was taken, before it takes a leaf.
pub open spec fn scheduled_within(
    treehash: TreeHashView,
    tree_height: nat,
    level: nat,
    current: nat,
) -> bool {
    scheduled(treehash, tree_height, level, current, current % pow2(level + 1))
}

/// The treehash of `level` is sound, reads `leaves`, and is in its state
/// between two leaves.
pub open spec fn level_before<'a>(
    treehash: TreeHash<'a>,
    leaves: Seq<Leaf>,
    tree_height: nat,
    level: nat,
    next: nat,
) -> bool {
    &&& treehash.wf()
    &&& treehash.leaves() == leaves
    &&& scheduled_before(treehash@, tree_height, level, next)
}

/// The treehash of `level` is sound, reads `leaves`, and is in its state
/// while the leaf at `current` is handled.
pub open spec fn level_within<'a>(
    treehash: TreeHash<'a>,
    leaves: Seq<Leaf>,
    tree_height: nat,
    level: nat,
    current: nat,
) -> bool {
    &&& treehash.wf()
    &&& treehash.leaves() == leaves
    &&& scheduled_within(treehash@, tree_height, level, current)
}

/// One treehash for each level above the leaves and below the root, each in
/// its state between two leaves.
pub open spec fn levels_before<'a>(
    treehashes: Seq<TreeHash<'a>>,
    leaves: Seq<Leaf>,
    tree_height: nat,
    next: nat,
) -> bool {
    &&& treehashes.len() + 1 == tree_height
    &&& forall|i: int|
        0 <= i < treehashes.len() ==> level_before(
            #[trigger] treehashes[i],
            leaves,
            tree_height,
            (i + 1) as nat,
            next,
        )
}

/// One treehash for each level above the leaves and below the root while the
/// leaf at `current` is handled: those of the levels below `reached` are in
/// their state within the handling, the others still in their state before it.
pub open spec fn levels_turning<'a>(
    treehashes: Seq<TreeHash<'a>>,
    leaves: Seq<Leaf>,
    tree_height: nat,
    current: nat,
    reached: nat,
) -> bool {
    &&& treehashes.len() + 1 == tree_height
    &&& forall|i: int|
        0 <= i < treehashes.len() ==> if i + 1 < reached {
            level_within(#[trigger] treehashes[i], leaves, tree_height, (i + 1) as nat, current)
        } else {
            level_before(treehashes[i], leaves, tree_height, (i + 1) as nat, current)
        }
}

/// One treehash for each level above the leaves and below the root while the
/// leaf at `current` is handled: the first `driven` of them have had their
/// chance to take a leaf, the others not yet.
pub open spec fn levels_driven<'a>(
    treehashes: Seq<TreeHash<'a>>,
    leaves: Seq<Leaf>,
    tree_height: nat,
    current: nat,
    driven: nat,
) -> bool {
    &&& treehashes.len() + 1 == tree_height
    &&& forall|i: int|
        0 <= i < treehashes.len() ==> if i < driven {
            level_before(#[trigger] treehashes[i], leaves, tree_height, (i + 1) as nat, current + 1)
        } else {
            level_within(treehashes[i], leaves, tree_height, (i + 1) as nat, current)
        }
}

/// A level that is not reached while a leaf is handled is in the same state
/// before and within the handling.
pub proof fn lemma_schedule_carries_over(
    treehash: TreeHashView,
    tree_height: nat,
    level: nat,
    current: nat,
)
    requires
        current > 0,
        current % pow2(level + 1) != 0,
    ensures
        scheduled_before(treehash, tree_height, level, current) == scheduled_within(
            treehash,
            tree_height,
            level,
            current,
        ),
{
    lemma_pow2_pos(level + 1);
    lemma_step_back(current, pow2(level + 1));
}

/// What the schedule says of a level that is reached while the leaf at
/// `current` is handled: its treehash has finished the right node that the
/// leaf needs, and the next one, if there is one, begins three nodes further.
pub proof fn lemma_schedule_at_turn(tree_height: nat, level: nat, current: nat)
    requires
        0 < current < pow2(tree_height),
        current % pow2(level + 1) == 0,
        level + 2 < tree_height,
    ensures
        pending_exists(tree_height, level, (current - 1) as nat),
        pending_start(level, (current - 1) as nat) == current + pow2(level),
        progress(level, ((current - 1) as nat) % pow2(level + 1) + 1) == pow2(level),
        (current + pow2(level)) / pow2(level) == current / pow2(level) + 1,
        pending_start(level, current) == current + 3 * pow2(level),
        current % pow2(level) == 0,
        current + 2 * pow2(level) <= pow2(tree_height),
{
    let period = pow2(level + 1);
    let span = pow2(level);
    let last = (current - 1) as nat;
    lemma_pow2_pos(level);
    lemma_pow2_unfold(level + 1);
    lemma_step_back_multiple(current, period);
    lemma_fundamental_div_mod(current as int, period as int);
    let turns = current / period;
    assert(current == 2 * turns * span) by (nonlinear_arith)
        requires
            current == period * turns,
            period == 2 * span,
    ;
    assert(pending_start(level, last) == current + span) by (nonlinear_arith)
        requires
            pending_start(level, last) == (2 * (turns - 1) + 3) * span,
            current == 2 * turns * span,
    ;
    assert(pending_start(level, current) == current + 3 * span) by (nonlinear_arith)
        requires
            pending_start(level, current) == (2 * turns + 3) * span,
            current == 2 * turns * span,
    ;
    lemma_multiple(current, 2 * turns, level);
    lemma_multiple(current + span, 2 * turns + 1, level);
    // The tree's leaves are a whole number of periods.
    let above = (tree_height - (level + 1)) as nat;
    lemma_pow2_adds(level + 1, above);
    assert(turns < pow2(above)) by (nonlinear_arith)
        requires
            current == period * turns,
            current < period * pow2(above),
            period > 0,
    ;
    assert(current + period <= pow2(tree_height)) by (nonlinear_arith)
        requires
            current == period * turns,
            pow2(tree_height) == period * pow2(above),
            turns + 1 <= pow2(above),
            period > 0,
    ;
}

} // verus!
