use prefix_codec::binarytree::{BTreeNode, BinaryTree};
use prefix_codec::savebits::SaveBits;

fn leaf(v: u8) -> BTreeNode<u8> {
    BTreeNode::Leaf { value: v }
}

fn branch(l: BTreeNode<u8>, r: BTreeNode<u8>) -> BTreeNode<u8> {
    BTreeNode::Branch {
        left: Box::new(l),
        right: Box::new(r),
    }
}

//           O
//         _/ \_
//       _/     \_
//      O         O
//     / \       / \
//    /   \     /   \
//   1     O   4     5
//        / \
//       /   \
//      2     3
fn get_test_tree() -> BinaryTree<u8> {
    BinaryTree {
        root: branch(
            branch(leaf(1), branch(leaf(2), leaf(3))),
            branch(leaf(4), leaf(5)),
        ),
    }
}

fn collect_leaves<T: Copy>(tree: &BinaryTree<T>) -> Vec<(T, Vec<bool>)> {
    let mut out = Vec::new();
    let mut it = tree.leaves();
    while let Some(p) = it.next() {
        out.push(p);
    }
    out
}

#[test]
fn test_map_values() {
    let tree = get_test_tree();
    let tree2 = tree.map_values(&|x: u8| x as i16 + 3i16);

    let mut expected = 4i16;
    let mut it = tree2.leaves();
    while let Some((v, _route)) = it.next() {
        assert_eq!(v, expected);
        expected += 1;
    }
}

#[test]
fn test_add_leaf() {
    let mut tree = BinaryTree::new(3u8);
    let bits: Vec<bool> = vec![
        true, // 4
        false, false, // 1
        false, true, false, // 2
        true, true, // 5
    ];

    let mut pos = 0;
    pos = tree.add_leaf(4, &bits, pos).unwrap().1;
    pos = tree.add_leaf(1, &bits, pos).unwrap().1;
    pos = tree.add_leaf(2, &bits, pos).unwrap().1;
    pos = tree.add_leaf(5, &bits, pos).unwrap().1;
    assert_eq!(pos, bits.len());

    let built = collect_leaves(&tree);
    let expected = collect_leaves(&get_test_tree());
    assert_eq!(built, expected);
    assert_eq!(built.len(), 5);
}

#[test]
fn test_btree_iterator() {
    let tree = get_test_tree();

    assert_eq!(
        collect_leaves(&tree),
        vec![
            (1, vec![false, false]),
            (2, vec![false, true, false]),
            (3, vec![false, true, true]),
            (4, vec![true, false]),
            (5, vec![true, true]),
        ]
    );
}

#[test]
fn test_get_leaf() {
    let tree = get_test_tree();

    let bits1 = vec![false, true, false];
    assert_eq!(tree.get_leaf(&bits1, 0), Some((2, 3)));

    let bits2 = vec![false, false, false];
    // one bit is left unread
    assert_eq!(tree.get_leaf(&bits2, 0), Some((1, 2)));

    let bits3 = vec![false, true];
    assert_eq!(tree.get_leaf(&bits3, 0), None);
}

#[test]
fn test_save_load_tree() {
    let tree = get_test_tree();

    let bits = tree.save_bits();
    let (loaded, consumed) = BinaryTree::<u8>::from_bits(&bits, 0).unwrap();
    assert_eq!(consumed, bits.len());

    let original = collect_leaves(&tree);
    let reloaded = collect_leaves(&loaded);
    assert_eq!(original, reloaded);
    assert_eq!(reloaded.len(), 5);
}
