use datastructs::bstree;
use datastructs::bstree_box::BSTree;

fn mock_tree(nodes: Vec<i32>) -> bstree::Tree<i32> {
    let mut tree = bstree::Tree::new();
    for n in nodes {
        tree.insert(n);
    }
    tree
}

fn mock_box_tree(nodes: Vec<i32>) -> BSTree<i32> {
    let mut tree = BSTree::new();
    for n in nodes {
        tree.insert(n);
    }
    tree
}

#[test]
fn bstree_traverse_level_order() {
    let nodes = vec![8, 3, 10, 1, 6, 14, 4, 7, 13];
    let tree = mock_tree(nodes.clone());
    assert_eq!(tree.traverse_level_order(), nodes);
}

#[test]
fn bstree_traverse_inorder_recursive() {
    let nodes = vec![8, 3, 10, 1, 6, 14, 4, 7, 13];
    let tree = mock_tree(nodes);
    assert_eq!(
        tree.traverse_inorder_recursive(),
        vec![1, 3, 4, 6, 7, 8, 10, 13, 14]
    );
}

#[test]
fn bstree_traverse_inorder_iterative() {
    let nodes = vec![8, 3, 10, 1, 6, 14, 4, 7, 13];
    let tree = mock_tree(nodes);
    assert_eq!(
        tree.traverse_inorder_iterative(),
        vec![1, 3, 4, 6, 7, 8, 10, 13, 14]
    );
}

#[test]
fn bstree_traverse_pre_order() {
    let nodes = vec![8, 3, 10, 1, 6, 14, 4, 7, 13];
    let tree = mock_tree(nodes);
    assert_eq!(
        tree.traverse_pre_order_iteratively(),
        vec![8, 3, 1, 6, 4, 7, 10, 14, 13]
    );
}

#[test]
fn bstree_iter() {
    let nodes = vec![8, 3, 10, 1, 6, 14, 4, 7, 13];
    let tree = mock_tree(nodes);
    let nums = vec![1, 3, 4, 6, 7, 8, 10, 13, 14];
    let want: Vec<&i32> = nums.iter().collect();
    let mut got: Vec<&i32> = Vec::new();
    let mut it = tree.iter();
    while let Some(v) = it.next() {
        got.push(v);
    }
    assert_eq!(got, want);
}

#[test]
fn bstree_into_iter() {
    let nodes = vec![8, 3, 10, 1, 6, 14, 4, 7, 13];
    let tree = mock_tree(nodes);

    let mut got = Vec::new();
    let mut it = tree.iter();
    while let Some(n) = it.next() {
        got.push(n);
    }

    let nums = vec![1, 3, 4, 6, 7, 8, 10, 13, 14];
    let want: Vec<&i32> = nums.iter().collect();
    assert_eq!(got, want);
}

#[test]
fn bstree_find() {
    let nodes = vec![8, 3, 10, 1, 6, 14, 4, 7, 13];
    let tree = mock_tree(nodes);
    assert!(tree.get(8).is_some());
    assert!(tree.get(13).is_some());
    assert!(tree.get(0).is_none());
    assert!(tree.get(99).is_none());
}

#[test]
fn bstree_box_traverse_level_order() {
    let nodes = vec![8, 3, 10, 1, 6, 14, 4, 7, 13];
    let tree = mock_box_tree(nodes.clone());
    assert_eq!(tree.traverse_level_order(), nodes);
}

#[test]
fn bstree_box_traverse_inorder_recursive() {
    let nodes = vec![8, 3, 10, 1, 6, 14, 4, 7, 13];
    let tree = mock_box_tree(nodes);
    assert_eq!(
        tree.traverse_inorder_recursive(),
        vec![1, 3, 4, 6, 7, 8, 10, 13, 14]
    );
}

#[test]
fn bstree_box_traverse_inorder_iterative() {
    let nodes = vec![8, 3, 10, 1, 6, 14, 4, 7, 13];
    let tree = mock_box_tree(nodes);
    assert_eq!(
        tree.traverse_inorder_iterative(),
        vec![1, 3, 4, 6, 7, 8, 10, 13, 14]
    );
}

#[test]
fn bstree_box_traverse_pre_order() {
    let nodes = vec![8, 3, 10, 1, 6, 14, 4, 7, 13];
    let tree = mock_box_tree(nodes);
    assert_eq!(
        tree.traverse_pre_order_iteratively(),
        vec![8, 3, 1, 6, 4, 7, 10, 14, 13]
    );
}

#[test]
fn bstree_box_iter() {
    let nodes = vec![8, 3, 10, 1, 6, 14, 4, 7, 13];
    let tree = mock_box_tree(nodes);
    let nums = vec![1, 3, 4, 6, 7, 8, 10, 13, 14];
    let want: Vec<&i32> = nums.iter().collect();
    let mut got: Vec<&i32> = Vec::new();
    let mut it = tree.iter();
    while let Some(v) = it.next() {
        got.push(v);
    }
    assert_eq!(got, want);
}

#[test]
fn bstree_box_into_iter() {
    let nodes = vec![8, 3, 10, 1, 6, 14, 4, 7, 13];
    let tree = mock_box_tree(nodes);

    let mut got = Vec::new();
    let mut it = tree.iter();
    while let Some(n) = it.next() {
        got.push(n);
    }

    let nums = vec![1, 3, 4, 6, 7, 8, 10, 13, 14];
    let want: Vec<&i32> = nums.iter().collect();
    assert_eq!(got, want);
}

#[test]
fn bstree_box_find() {
    let nodes = vec![8, 3, 10, 1, 6, 14, 4, 7, 13];
    let tree = mock_box_tree(nodes);
    assert!(tree.get(8).is_some());
    assert!(tree.get(13).is_some());
    assert!(tree.get(0).is_none());
    assert!(tree.get(99).is_none());
}

#[test]
fn find_parent() {
    let nodes = vec![8, 3, 10, 1, 6, 14, 4, 7, 13];
    let tree = mock_box_tree(nodes);

    assert!(tree.find_parent(8).is_none());
    assert_eq!(tree.find_parent(3), Some(&8));
    assert_eq!(tree.find_parent(10), Some(&8));
    assert_eq!(tree.find_parent(1), Some(&3));
    assert_eq!(tree.find_parent(6), Some(&3));
    assert_eq!(tree.find_parent(14), Some(&10));
    assert_eq!(tree.find_parent(4), Some(&6));
    assert_eq!(tree.find_parent(7), Some(&6));
    assert_eq!(tree.find_parent(13), Some(&14));
}

#[test]
fn delete_single_root() {
    let nodes = vec![8];
    let mut tree = mock_box_tree(nodes);
    assert_eq!(tree.delete(&8), Some(8));
    assert_eq!(tree.traverse_inorder_recursive(), vec![]);
}

#[test]
fn delete_root_left() {
    let nodes = vec![8, 1];
    let mut tree = mock_box_tree(nodes);
    assert_eq!(tree.delete(&8), Some(8));
    assert_eq!(tree.traverse_inorder_recursive(), vec![1]);
}

#[test]
fn delete_root_right() {
    let nodes = vec![8, 11];
    let mut tree = mock_box_tree(nodes);
    assert_eq!(tree.delete(&8), Some(8));
    assert_eq!(tree.traverse_inorder_recursive(), vec![11]);
}

#[test]
fn delete_root() {
    let nodes = vec![8, 1, 11, 9];
    let mut tree = mock_box_tree(nodes);
    assert_eq!(tree.delete(&8), Some(8));
    assert_eq!(tree.traverse_inorder_recursive(), vec![1, 9, 11]);
    assert_eq!(tree.find_parent(1), Some(&9));
}

#[test]
fn delete() {
    let nodes = vec![8, 3, 10, 1, 6, 14, 4, 7, 13];
    let mut tree = mock_box_tree(nodes);

    assert_eq!(tree.delete(&8), Some(8));
    assert_eq!(
        tree.traverse_inorder_recursive(),
        vec![1, 3, 4, 6, 7, 10, 13, 14]
    );
    assert_eq!(tree.traverse_pre_order_iteratively()[0], 10);

    assert_eq!(tree.delete(&1), Some(1));
    assert_eq!(
        tree.traverse_inorder_recursive(),
        vec![3, 4, 6, 7, 10, 13, 14]
    );
    assert_eq!(tree.delete(&14), Some(14));
    assert_eq!(tree.traverse_inorder_recursive(), vec![3, 4, 6, 7, 10, 13]);
}

#[test]
fn delete_absent_value() {
    let mut tree = mock_box_tree(vec![5, 2, 9]);
    assert_eq!(tree.delete(&7), None);
    assert_eq!(tree.traverse_inorder_recursive(), vec![2, 5, 9]);
}

#[test]
fn duplicate_insert_is_dropped() {
    let mut tree = mock_box_tree(vec![5, 2, 9]);
    tree.insert(2);
    tree.insert_iterative(9);
    assert_eq!(tree.traverse_inorder_recursive(), vec![2, 5, 9]);
}

#[test]
fn node_new_is_leaf() {
    let node = datastructs::bstree_box::Node::new(4);
    assert!(node.is_leaf());
    let other = bstree::Node::new(7);
    let _ = other;
}
