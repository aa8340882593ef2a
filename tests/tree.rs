use artoo::{BoxNode, Node, Tree};
use std::mem::size_of;

fn tree_with_n_keys(n: usize) -> Tree<usize> {
    let mut tree = Tree::<usize>::new();
    for i in 0..n {
        let arr = i.to_be_bytes();
        let key = &arr[..];
        let ins = tree.insert(key, i);
        assert_eq!(ins, None);
        assert_eq!(tree.get(key), Some(&i));
    }
    tree
}

#[test]
fn test_sizeof_node() {
    assert_eq!(size_of::<Node<i32>>(), 24);
    assert_eq!(size_of::<Node<i64>>(), 24);
    assert!(page_size::get() > size_of::<Node<i32>>());
}

#[test]
fn test_tree_insert() {
    let mut tree = Tree::<i32>::new();
    let ins1 = tree.insert(b"a", 1);
    assert_eq!(ins1, None);
    match tree.root {
        Node::BoxNode(bn) => match bn {
            BoxNode::Node4(n4) => {
                // 97 is 'a'
                assert_eq!(n4.count, 1);
                assert_eq!(n4.key, [97, 0, 0, 0]);
                assert!(n4.children[0].is_none() == false);
                assert!(n4.children[1].is_none() == true);
                assert!(n4.children[2].is_none() == true);
                assert!(n4.children[3].is_none() == true);

                let node: &Node<i32> = &n4.children[0];
                match node {
                    Node::Leaf(leaf) => {
                        assert_eq!(leaf.val, 1);
                    }
                    _ => panic!("expected Node::Leaf got: {:?}", node),
                }
            }
            got => panic!("BoxNode was not a Node4 - got: {:?}", got),
        },
        got => panic!("tree.root was not a BoxNode - got: {:?}", got),
    }
}

#[test]
fn test_tree_insert_replaces_previous_value() {
    let mut tree = Tree::<i32>::new();
    let ins1 = tree.insert(b"a", 1);
    assert_eq!(ins1, None);
    let ins2 = tree.insert(b"a", 2);
    assert_eq!(tree.count, 1);
    assert_eq!(ins2, Some(1));
}

#[test]
fn test_tree_get() {
    let mut tree = Tree::<i32>::new();
    let ins1 = tree.insert(b"a", 1);
    assert_eq!(ins1, None);
    let got1 = tree.get(b"a");
    assert_eq!(got1, Some(&1));
    let ins2 = tree.insert(b"a", 2);
    let got2 = tree.get(b"a");
    assert_eq!(ins2, Some(1));
    assert_eq!(got2, Some(&2));
}

#[test]
fn test_tree_can_grow_bigger_than_4_keys() {
    let _ = tree_with_n_keys(5);
}

#[test]
fn test_tree_can_grow_bigger_than_16_keys() {
    let _ = tree_with_n_keys(17);
}

#[test]
fn test_tree_can_grow_bigger_than_48_keys() {
    let _ = tree_with_n_keys(49);
}

#[test]
fn test_tree_can_grow_bigger_than_256_keys() {
    let _ = tree_with_n_keys(257);
}

#[test]
fn test_tree_handle_100k_keys() {
    let _ = tree_with_n_keys(100_000);
}

