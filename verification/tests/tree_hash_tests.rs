use merkle_tree_log::is_even;
use merkle_tree_log::powers::two_to_the;
use merkle_tree_log::Error;
use merkle_tree_log::Leaf;
use merkle_tree_log::Level;
use merkle_tree_log::Node;
use merkle_tree_log::Stack;
use merkle_tree_log::TreeHash;

const HELLO: &str = "4AE7C3B6AC0BEFF671EFA8CF57386151C06E58CA53A78D83F36107316CEC125F";
const HASH_A: &str = "CA978112CA1BBDCAFAC231B39A23DC4DA786EFF8147C4E72B9807785AFEE48BB";
const HASH_B: &str = "3E23E8160039594A33894F6564E1B1348BBD7A0088D42C4ACB73EEAED59C009D";
const HASH_AB: &str = "6A20F2EE7789E6BB7F404CC2DD729FF308B724D904F6A455B74D4851ADE5AECB";

fn lettered_leaves(count: usize) -> Vec<Leaf> {
    (0..count).map(|index| Leaf::new(format!("{}", index), index)).collect()
}

fn triple(node: &Node) -> (String, usize, usize) {
    (node.hash().to_string(), node.j(), node.height())
}

#[test]
fn the_hash_is_sha256_in_upper_case_hexadecimal() {
    let leaf = Leaf::new(String::from("Hello, world"), 3);
    let node = Node::from(&leaf);
    assert_eq!(node.hash(), HELLO);
    assert_eq!(node.height(), 0);
    assert_eq!(node.j(), 3);
    let empty = Node::from(Leaf::new(String::new(), 0));
    assert_eq!(
        empty.hash(),
        "E3B0C44298FC1C149AFBF4C8996FB92427AE41E4649B934CA495991B7852B855"
    );
}

#[test]
fn a_leaf_holds_its_position_and_content() {
    let leaf = Leaf::new(String::from("some content"), 9);
    assert_eq!(leaf.index(), 9);
    assert_eq!(leaf.print(), "some content");
    let copy = leaf.clone();
    assert_eq!(copy.index(), 9);
    assert_eq!(copy.print(), "some content");
}

#[test]
fn a_node_holds_what_it_was_made_with() {
    let node = Node::new(String::from("ABC"), 6, 2);
    assert_eq!(node.hash(), "ABC");
    assert_eq!(node.j(), 6);
    assert_eq!(node.height(), 2);
    assert!(node.left_node());
    assert!(node.even());
    let odd = Node::new(String::from("ABC"), 7, 2);
    assert!(!odd.left_node());
    assert!(!odd.even());
    assert_eq!(triple(&odd.clone()), triple(&odd));
}

#[test]
fn node_from_leaf_at_takes_the_given_position() {
    let leaf = Leaf::new(String::from("a"), 0);
    let node = Node::from_leaf_at(&leaf, 12);
    assert_eq!(triple(&node), (HASH_A.to_string(), 12, 0));
}

#[test]
fn combine_hashes_the_smaller_position_first() {
    let left = Node::new(String::from(HASH_A), 4, 0);
    let right = Node::new(String::from(HASH_B), 5, 0);
    assert_eq!(triple(&left.combine(&right)), (HASH_AB.to_string(), 2, 1));
    assert_eq!(triple(&right.combine(&left)), (HASH_AB.to_string(), 2, 1));
    let high = Node::new(String::from(HASH_A), 0, 6);
    let beside = Node::new(String::from(HASH_B), 1, 6);
    assert_eq!(triple(&high.combine(&beside)), (HASH_AB.to_string(), 0, 7));
}

#[test]
fn combine_at_equal_positions_puts_the_other_node_first() {
    let one = Node::new(String::from(HASH_B), 3, 0);
    let other = Node::new(String::from(HASH_A), 3, 0);
    assert_eq!(triple(&one.combine(&other)), (HASH_AB.to_string(), 1, 1));
}

#[test]
fn is_even_tells_parity() {
    assert!(is_even(0));
    assert!(!is_even(1));
    assert!(is_even(10));
    assert!(!is_even(usize::MAX));
}

#[test]
fn two_to_the_gives_powers_that_fit() {
    assert_eq!(two_to_the(0), Some(1));
    assert_eq!(two_to_the(1), Some(2));
    assert_eq!(two_to_the(10), Some(1024));
    assert_eq!(two_to_the(usize::BITS as usize - 1), Some(1usize << (usize::BITS - 1)));
    assert_eq!(two_to_the(usize::BITS as usize), None);
    assert_eq!(two_to_the(usize::MAX), None);
}

#[test]
fn a_stack_is_last_in_first_out() {
    let mut stack = Stack::default();
    assert_eq!(stack.len(), 0);
    assert!(stack.pop().is_none());
    assert_eq!(stack.peek_height(), None);
    assert!(stack.first().is_none());
    stack.push(Node::new(String::from("X"), 0, 3));
    stack.push(Node::new(String::from("Y"), 1, 1));
    assert_eq!(stack.len(), 2);
    assert_eq!(stack.peek_height(), Some(1));
    assert_eq!(stack.first().unwrap().hash(), "X");
    assert_eq!(stack.pop().unwrap().hash(), "Y");
    assert_eq!(stack.peek_height(), Some(3));
    assert_eq!(stack.pop().unwrap().hash(), "X");
    assert!(stack.pop().is_none());
    stack.push(Node::new(String::from("Z"), 0, 0));
    stack.clear();
    assert_eq!(stack.len(), 0);
    assert_eq!(Stack::new().len(), 0);
}

#[test]
fn a_treehash_yields_its_node_after_all_leaves() {
    let leaves = vec![
        Leaf::new(String::from("x"), 0),
        Leaf::new(String::from("y"), 1),
        Leaf::new(String::from("a"), 2),
        Leaf::new(String::from("b"), 3),
    ];
    let mut treehash = TreeHash::new(Stack::new(), &leaves, 2, Level(1)).unwrap();
    assert!(treehash.result().is_none());
    assert!(treehash.first().is_none());
    assert!(!treehash.is_complete());
    assert_eq!(treehash.next_index(), 2);
    assert_eq!(treehash.update(2), Ok(()));
    assert!(treehash.result().is_none());
    assert_eq!(triple(&treehash.first().unwrap()), (HASH_A.to_string(), 2, 0));
    assert_eq!(treehash.next_index(), 3);
    assert_eq!(treehash.update(3), Ok(()));
    assert!(treehash.is_complete());
    assert_eq!(triple(&treehash.result().unwrap()), (HASH_AB.to_string(), 1, 1));
    assert_eq!(triple(&treehash.first().unwrap()), (HASH_AB.to_string(), 1, 1));
}

#[test]
fn result_is_the_same_each_time() {
    let leaves = lettered_leaves(8);
    let mut treehash = TreeHash::new(Stack::new(), &leaves, 4, Level(2)).unwrap();
    for index in 4..8 {
        treehash.update(index).unwrap();
    }
    let once = treehash.result().unwrap();
    let twice = treehash.result().unwrap();
    let thrice = treehash.result().unwrap();
    assert_eq!(triple(&once), triple(&twice));
    assert_eq!(triple(&once), triple(&thrice));
    assert_eq!((once.j(), once.height()), (1, 2));
    assert_eq!(triple(&treehash.first().unwrap()), triple(&once));
    assert!(treehash.is_complete());
}

#[test]
fn a_leaf_out_of_order_leaves_the_treehash_as_it_was() {
    let leaves = lettered_leaves(8);
    let mut treehash = TreeHash::new(Stack::new(), &leaves, 4, Level(2)).unwrap();
    assert_eq!(treehash.update(5), Err(Error::OutOfOrderLeaf));
    assert_eq!(treehash.update(0), Err(Error::OutOfOrderLeaf));
    assert!(treehash.first().is_none());
    assert_eq!(treehash.next_index(), 4);
    treehash.update(4).unwrap();
    let before = triple(&treehash.first().unwrap());
    assert_eq!(treehash.update(4), Err(Error::OutOfOrderLeaf));
    assert_eq!(treehash.update(6), Err(Error::OutOfOrderLeaf));
    assert_eq!(treehash.update(100), Err(Error::OutOfOrderLeaf));
    assert_eq!(triple(&treehash.first().unwrap()), before);
    assert_eq!(treehash.next_index(), 5);
    assert_eq!(treehash.update(5), Ok(()));
}

#[test]
fn a_leaf_after_completion_is_invalid_usage() {
    let leaves = lettered_leaves(4);
    let mut treehash = TreeHash::new(Stack::new(), &leaves, 0, Level(1)).unwrap();
    treehash.update(0).unwrap();
    treehash.update(1).unwrap();
    let finished = triple(&treehash.result().unwrap());
    assert_eq!(treehash.update(2), Err(Error::InvalidUsage));
    assert_eq!(treehash.update(1), Err(Error::OutOfOrderLeaf));
    assert_eq!(triple(&treehash.result().unwrap()), finished);
}

#[test]
fn a_range_that_is_no_subtree_is_refused() {
    let leaves = lettered_leaves(8);
    assert_eq!(
        TreeHash::new(Stack::new(), &leaves, 1, Level(1)).err(),
        Some(Error::InvalidConfiguration)
    );
    assert_eq!(
        TreeHash::new(Stack::new(), &leaves, 8, Level(0)).err(),
        Some(Error::InvalidConfiguration)
    );
    assert_eq!(
        TreeHash::new(Stack::new(), &leaves, 0, Level(4)).err(),
        Some(Error::InvalidConfiguration)
    );
    assert_eq!(
        TreeHash::new(Stack::new(), &leaves, 0, Level(usize::MAX)).err(),
        Some(Error::InvalidConfiguration)
    );
    assert!(TreeHash::new(Stack::new(), &leaves, 0, Level(3)).is_ok());
    assert!(TreeHash::new(Stack::new(), &leaves, 7, Level(0)).is_ok());
    assert!(TreeHash::new(Stack::new(), &leaves, 6, Level(1)).is_ok());
}

#[test]
fn a_treehash_starts_with_an_empty_stack() {
    let leaves = lettered_leaves(2);
    let mut stack = Stack::new();
    stack.push(Node::new(String::from("left over"), 0, 0));
    let mut treehash = TreeHash::new(stack, &leaves, 0, Level(1)).unwrap();
    assert!(treehash.first().is_none());
    treehash.update(0).unwrap();
    treehash.update(1).unwrap();
    assert_eq!((treehash.result().unwrap().j(), treehash.result().unwrap().height()), (0, 1));
}

#[test]
fn a_treehash_can_start_over_on_another_range() {
    let leaves = vec![
        Leaf::new(String::from("a"), 0),
        Leaf::new(String::from("b"), 1),
        Leaf::new(String::from("a"), 2),
        Leaf::new(String::from("b"), 3),
    ];
    let mut treehash = TreeHash::new(Stack::new(), &leaves, 0, Level(1)).unwrap();
    treehash.update(0).unwrap();
    assert_eq!(treehash.initialize(1), Err(Error::InvalidConfiguration));
    assert_eq!(treehash.initialize(4), Err(Error::InvalidConfiguration));
    assert_eq!(treehash.next_index(), 1);
    assert_eq!(triple(&treehash.first().unwrap()), (HASH_A.to_string(), 0, 0));
    assert_eq!(treehash.initialize(2), Ok(()));
    assert!(treehash.first().is_none());
    assert_eq!(treehash.next_index(), 2);
    treehash.update(2).unwrap();
    treehash.update(3).unwrap();
    assert_eq!(triple(&treehash.result().unwrap()), (HASH_AB.to_string(), 1, 1));
}

#[test]
fn the_stack_never_grows_beyond_the_target_height_plus_one() {
    let leaves = lettered_leaves(64);
    for height in 0..=6usize {
        let span = 1usize << height;
        let mut start = 0;
        while start + span <= 64 {
            let mut treehash = TreeHash::new(Stack::new(), &leaves, start, Level(height)).unwrap();
            for taken in 0..span {
                assert!(treehash.depth() <= height + 1);
                assert_eq!(treehash.depth(), (taken as u64).count_ones() as usize);
                treehash.update(start + taken).unwrap();
            }
            assert_eq!(treehash.depth(), 1);
            let node = treehash.result().unwrap();
            assert_eq!((node.j(), node.height()), (start / span, height));
            start += span;
        }
    }
}

#[test]
fn prehash_puts_the_smaller_position_first() {
    let left = Node::new(String::from("L"), 2, 0);
    let right = Node::new(String::from("R"), 3, 0);
    assert_eq!(left.prehash(&right), "LR");
    assert_eq!(right.prehash(&left), "LR");
    let same = Node::new(String::from("S"), 2, 0);
    assert_eq!(left.prehash(&same), "SL");
    assert_eq!(same.prehash(&left), "LS");
}

#[test]
fn parent_with_goes_up_one_level_to_the_position_above() {
    let left = Node::new(String::from("L"), 6, 2);
    let right = Node::new(String::from("R"), 7, 5);
    assert_eq!(triple(&left.parent_with(&right, String::from("P"))), ("P".to_string(), 3, 3));
    assert_eq!(triple(&right.parent_with(&left, String::from("P"))), ("P".to_string(), 3, 6));
    let first = Node::new(String::from("L"), 0, 0);
    let second = Node::new(String::from("R"), 1, 0);
    assert_eq!(triple(&first.parent_with(&second, String::new())), (String::new(), 0, 1));
    let far = Node::new(String::from("R"), usize::MAX, 0);
    assert_eq!(
        triple(&first.parent_with(&far, String::new())),
        (String::new(), usize::MAX / 2, 1)
    );
}

#[test]
fn from_a_leaf_owned_or_borrowed() {
    let leaf = Leaf::new(String::from("b"), 11);
    let borrowed = Node::from(&leaf);
    let owned = Node::from(leaf);
    assert_eq!(triple(&borrowed), (HASH_B.to_string(), 11, 0));
    assert_eq!(triple(&owned), (HASH_B.to_string(), 11, 0));
}

#[test]
fn the_stack_of_a_treehash_holds_one_node_for_each_level() {
    let leaves = lettered_leaves(8);
    let mut treehash = TreeHash::new(Stack::new(), &leaves, 0, Level(3)).unwrap();
    let mut depths = Vec::new();
    let mut bottoms = Vec::new();
    for index in 0..8 {
        treehash.update(index).unwrap();
        depths.push(treehash.depth());
        let bottom = treehash.first().unwrap();
        bottoms.push((bottom.j(), bottom.height()));
    }
    assert_eq!(depths, vec![1, 1, 2, 1, 2, 2, 3, 1]);
    assert_eq!(
        bottoms,
        vec![(0, 0), (0, 1), (0, 1), (0, 2), (0, 2), (0, 2), (0, 2), (0, 3)]
    );
}
