use persistent_rbtree::{HasColour, Tree, TreeNode};
use std::rc::Rc;

#[test]
fn test_find(){
    let tree = Tree{root: Rc::new(Some(TreeNode {
        is_red: false,
        key: 1,
        val: (),
        left: Rc::new(None),
        right: Rc::new(Some(TreeNode{
            is_red: true,
            key: 6,
            val: (),
            left: Rc::new(None),
            right: Rc::new(None)
        }))
    }))};

    assert_eq!(tree.find(6), Some(&()));
    assert_eq!(tree.find(1), Some(&()));
    assert_eq!(tree.find(12), None);
}

#[test]
fn test_insert_case1(){
    let start = Tree::new();
    let test = start.insert(5, ()).unwrap();
    //  5
    assert_eq!(test.root.is_some(), true);

    let test_root = test.root.as_ref().as_ref().unwrap();
    assert_eq!(test_root.is_red(), false);
    assert_eq!(test_root.key, 5);
    assert_eq!(test_root.left.is_some(), false);
    assert_eq!(test_root.right.is_some(), false);
}

#[test]
fn test_insert_case2_left() {
    let start = Tree::new().insert(5, ()).unwrap();
    let test = start.insert(4, ()).unwrap();
    //    5
    //   /
    //  4
    assert_eq!(test.root.is_some(), true);

    let ref test_root = test.root.as_ref().as_ref().unwrap();
    assert_eq!(test_root.is_red(), false);
    assert_eq!(test_root.key, 5);
    assert_eq!(test_root.left.is_some(), true);
    assert_eq!(test_root.right.is_some(), false);

    let ref test_left = test_root.left.as_ref().as_ref().unwrap();
    assert_eq!(test_left.is_red(), true);
    assert_eq!(test_left.key, 4);
    assert_eq!(test_left.left.is_some(), false);
    assert_eq!(test_left.right.is_some(), false);
}

#[test]
fn test_insert_case2_right() {
    let start = Tree::new().insert(5, ()).unwrap();
    let test = start.insert(6, ()).unwrap();
    //  5
    //   \
    //    6
    assert_eq!(test.root.is_some(), true);

    let ref test_root = test.root.as_ref().as_ref().unwrap();
    assert_eq!(test_root.is_red(), false);
    assert_eq!(test_root.key, 5);
    assert_eq!(test_root.left.is_some(), false);
    assert_eq!(test_root.right.is_some(), true);

    let ref test_right = test_root.right.as_ref().as_ref().unwrap();
    assert_eq!(test_right.is_red(), true);
    assert_eq!(test_right.key, 6);
    assert_eq!(test_right.left.is_some(), false);
    assert_eq!(test_right.right.is_some(), false);
}

#[test]
fn test_insert_case5_left() {
    //      B
    //     /
    //    R
    //   /
    //  R
    let start = Tree::new().insert(6, ()).unwrap().insert(5, ()).unwrap();
    let test = start.insert(4, ()).unwrap();
    //    5
    //   / \
    //  4   6
    assert_eq!(test.root.is_some(), true);

    let ref test_root = test.root.as_ref().as_ref().unwrap();
    assert_eq!(test_root.is_red(), false);
    assert_eq!(test_root.key, 5);
    assert_eq!(test_root.left.is_some(), true);
    assert_eq!(test_root.right.is_some(), true);

    let ref test_left = test_root.left.as_ref().as_ref().unwrap();
    assert_eq!(test_left.is_red(), true);
    assert_eq!(test_left.key, 4);
    assert_eq!(test_left.left.is_some(), false);
    assert_eq!(test_left.right.is_some(), false);

    let ref test_right = test_root.right.as_ref().as_ref().unwrap();
    assert_eq!(test_right.is_red(), true);
    assert_eq!(test_right.key, 6);
    assert_eq!(test_right.left.is_some(), false);
    assert_eq!(test_right.right.is_some(), false);
}

#[test]
fn test_insert_case5_right() {
    //  B
    //   \
    //    R
    //     \
    //      R
    let start = Tree::new().insert(4, ()).unwrap().insert(5, ()).unwrap();
    let test = start.insert(6, ()).unwrap();
    //    5
    //   / \
    //  4   6
    assert_eq!(test.root.is_some(), true);

    let ref test_root = test.root.as_ref().as_ref().unwrap();
    assert_eq!(test_root.is_red(), false);
    assert_eq!(test_root.key, 5);
    assert_eq!(test_root.left.is_some(), true);
    assert_eq!(test_root.right.is_some(), true);

    let ref test_left = test_root.left.as_ref().as_ref().unwrap();
    assert_eq!(test_left.is_red(), true);
    assert_eq!(test_left.key, 4);
    assert_eq!(test_left.left.is_some(), false);
    assert_eq!(test_left.right.is_some(), false);

    let ref test_right = test_root.right.as_ref().as_ref().unwrap();
    assert_eq!(test_right.is_red(), true);
    assert_eq!(test_right.key, 6);
    assert_eq!(test_right.left.is_some(), false);
    assert_eq!(test_right.right.is_some(), false);
}

#[test]
fn test_insert_case4_left() {
    //    B
    //   /
    //  R
    //   \
    //    R
    let start = Tree::new().insert(6, ()).unwrap().insert(4, ()).unwrap();
    let test = start.insert(5, ()).unwrap();
    //    5
    //   / \
    //  4   6
    assert_eq!(test.root.is_some(), true);

    let ref test_root = test.root.as_ref().as_ref().unwrap();
    assert_eq!(test_root.is_red(), false);
    assert_eq!(test_root.key, 5);
    assert_eq!(test_root.left.is_some(), true);
    assert_eq!(test_root.right.is_some(), true);

    let ref test_left = test_root.left.as_ref().as_ref().unwrap();
    assert_eq!(test_left.is_red(), true);
    assert_eq!(test_left.key, 4);
    assert_eq!(test_left.left.is_some(), false);
    assert_eq!(test_left.right.is_some(), false);

    let ref test_right = test_root.right.as_ref().as_ref().unwrap();
    assert_eq!(test_right.is_red(), true);
    assert_eq!(test_right.key, 6);
    assert_eq!(test_right.left.is_some(), false);
    assert_eq!(test_right.right.is_some(), false);
}

#[test]
fn test_insert_case4_right() {
    //  B
    //   \
    //    R
    //   /
    //  R
    let start = Tree::new().insert(4, ()).unwrap().insert(6, ()).unwrap();
    let test = start.insert(5, ()).unwrap();
    //    5
    //   / \
    //  4   6
    assert_eq!(test.root.is_some(), true);

    let ref test_root = test.root.as_ref().as_ref().unwrap();
    assert_eq!(test_root.is_red(), false);
    assert_eq!(test_root.key, 5);
    assert_eq!(test_root.left.is_some(), true);
    assert_eq!(test_root.right.is_some(), true);

    let ref test_left = test_root.left.as_ref().as_ref().unwrap();
    assert_eq!(test_left.is_red(), true);
    assert_eq!(test_left.key, 4);
    assert_eq!(test_left.left.is_some(), false);
    assert_eq!(test_left.right.is_some(), false);

    let ref test_right = test_root.right.as_ref().as_ref().unwrap();
    assert_eq!(test_right.is_red(), true);
    assert_eq!(test_right.key, 6);
    assert_eq!(test_right.left.is_some(), false);
    assert_eq!(test_right.right.is_some(), false);
}

#[test]
fn test_insert_case3_left_a() {
    //      B
    //     / \
    //    R   R
    //   /
    //  R
    let start = Tree::new().insert(5, ()).unwrap().insert(4, ()).unwrap().insert(6, ()).unwrap();
    let test = start.insert(3, ()).unwrap();
    //      5
    //     / \
    //    4   6
    //   /
    //  3
    assert_eq!(test.root.is_some(), true);

    let ref test_root = test.root.as_ref().as_ref().unwrap();
    assert_eq!(test_root.is_red(), false);
    assert_eq!(test_root.key, 5);
    assert_eq!(test_root.left.is_some(), true);
    assert_eq!(test_root.right.is_some(), true);

    let ref test_left = test_root.left.as_ref().as_ref().unwrap();
    assert_eq!(test_left.is_red(), false);
    assert_eq!(test_left.key, 4);
    assert_eq!(test_left.left.is_some(), true);
    assert_eq!(test_left.right.is_some(), false);

    let ref test_right = test_root.right.as_ref().as_ref().unwrap();
    assert_eq!(test_right.is_red(), false);
    assert_eq!(test_right.key, 6);
    assert_eq!(test_right.left.is_some(), false);
    assert_eq!(test_right.right.is_some(), false);

    let ref test_left_left = test_left.left.as_ref().as_ref().unwrap();
    assert_eq!(test_left_left.is_red(), true);
    assert_eq!(test_left_left.key, 3);
    assert_eq!(test_left_left.left.is_some(), false);
    assert_eq!(test_left_left.right.is_some(), false);
}

#[test]
fn test_insert_case3_left_b() {
    //    B
    //   / \
    //  R   R
    //   \
    //    R
    let start = Tree::new().insert(5, ()).unwrap().insert(3, ()).unwrap().insert(6, ()).unwrap();
    let test = start.insert(4, ()).unwrap();
    //    5
    //   / \
    //  3   6
    //   \
    //    4
    assert_eq!(test.root.is_some(), true);

    let ref test_root = test.root.as_ref().as_ref().unwrap();
    assert_eq!(test_root.is_red(), false);
    assert_eq!(test_root.key, 5);
    assert_eq!(test_root.left.is_some(), true);
    assert_eq!(test_root.right.is_some(), true);

    let ref test_left = test_root.left.as_ref().as_ref().unwrap();
    assert_eq!(test_left.is_red(), false);
    assert_eq!(test_left.key, 3);
    assert_eq!(test_left.left.is_some(), false);
    assert_eq!(test_left.right.is_some(), true);

    let ref test_right = test_root.right.as_ref().as_ref().unwrap();
    assert_eq!(test_right.is_red(), false);
    assert_eq!(test_right.key, 6);
    assert_eq!(test_right.left.is_some(), false);
    assert_eq!(test_right.right.is_some(), false);

    let ref test_left_right = test_left.right.as_ref().as_ref().unwrap();
    assert_eq!(test_left_right.is_red(), true);
    assert_eq!(test_left_right.key, 4);
    assert_eq!(test_left_right.left.is_some(), false);
    assert_eq!(test_left_right.right.is_some(), false);
}

#[test]
fn test_insert_case3_right_a() {
    //    B
    //   / \
    //  R   R
    //     /
    //    R
    let start = Tree::new().insert(5, ()).unwrap().insert(4, ()).unwrap().insert(7, ()).unwrap();
    let test = start.insert(6, ()).unwrap();
    //      5
    //     / \
    //    4   7
    //       /
    //      6
    assert_eq!(test.root.is_some(), true);

    let ref test_root = test.root.as_ref().as_ref().unwrap();
    assert_eq!(test_root.is_red(), false);
    assert_eq!(test_root.key, 5);
    assert_eq!(test_root.left.is_some(), true);
    assert_eq!(test_root.right.is_some(), true);

    let ref test_left = test_root.left.as_ref().as_ref().unwrap();
    assert_eq!(test_left.is_red(), false);
    assert_eq!(test_left.key, 4);
    assert_eq!(test_left.left.is_some(), false);
    assert_eq!(test_left.right.is_some(), false);

    let ref test_right = test_root.right.as_ref().as_ref().unwrap();
    assert_eq!(test_right.is_red(), false);
    assert_eq!(test_right.key, 7);
    assert_eq!(test_right.left.is_some(), true);
    assert_eq!(test_right.right.is_some(), false);

    let ref test_right_left = test_right.left.as_ref().as_ref().unwrap();
    assert_eq!(test_right_left.is_red(), true);
    assert_eq!(test_right_left.key, 6);
    assert_eq!(test_right_left.left.is_some(), false);
    assert_eq!(test_right_left.right.is_some(), false);
}

#[test]
fn test_insert_case3_right_b() {
    //    B
    //   / \
    //  R   R
    //       \
    //        R
    let start = Tree::new().insert(5, ()).unwrap().insert(4, ()).unwrap().insert(6, ()).unwrap();
    let test = start.insert(7, ()).unwrap();
    //      5
    //     / \
    //    4   6
    //         \
    //          7
    assert_eq!(test.root.is_some(), true);

    let ref test_root = test.root.as_ref().as_ref().unwrap();
    assert_eq!(test_root.is_red(), false);
    assert_eq!(test_root.key, 5);
    assert_eq!(test_root.left.is_some(), true);
    assert_eq!(test_root.right.is_some(), true);

    let ref test_left = test_root.left.as_ref().as_ref().unwrap();
    assert_eq!(test_left.is_red(), false);
    assert_eq!(test_left.key, 4);
    assert_eq!(test_left.left.is_some(), false);
    assert_eq!(test_left.right.is_some(), false);

    let ref test_right = test_root.right.as_ref().as_ref().unwrap();
    assert_eq!(test_right.is_red(), false);
    assert_eq!(test_right.key, 6);
    assert_eq!(test_right.left.is_some(), false);
    assert_eq!(test_right.right.is_some(), true);

    let ref test_right_right = test_right.right.as_ref().as_ref().unwrap();
    assert_eq!(test_right_right.is_red(), true);
    assert_eq!(test_right_right.key, 7);
    assert_eq!(test_right_right.left.is_some(), false);
    assert_eq!(test_right_right.right.is_some(), false);
}
