use artoo::{BoxNode, Node, Tree};

fn root_kind<V>(tree: &Tree<V>) -> usize {
    let bn = match &tree.root {
        Node::BoxNode(bn) => bn,
        Node::BoxNodeLeaf(bn, _) => bn,
        _ => return 0,
    };
    match bn {
        BoxNode::Node4(_) => 4,
        BoxNode::Node16(_) => 16,
        BoxNode::Node48(_) => 48,
        BoxNode::Node256(_) => 256,
        BoxNode::Empty => 0,
    }
}

#[test]
fn overwrite_returns_previous_value() {
    let mut tree = Tree::<i32>::new();
    assert_eq!(tree.insert(b"a", 1), None);
    assert_eq!(tree.get(b"a"), Some(&1));
    assert_eq!(tree.insert(b"a", 2), Some(1));
    assert_eq!(tree.get(b"a"), Some(&2));
    assert_eq!(tree.len(), 1);
}

#[test]
fn five_single_byte_keys_promote_root_to_node16() {
    let mut tree = Tree::<i32>::new();
    let keys: [&[u8]; 5] = [b"a", b"b", b"c", b"d", b"e"];
    for (i, k) in keys.iter().enumerate() {
        assert_eq!(tree.insert(k, i as i32), None);
    }
    for (i, k) in keys.iter().enumerate() {
        assert_eq!(tree.get(k), Some(&(i as i32)));
    }
    assert_eq!(root_kind(&tree), 16);
    assert_eq!(tree.len(), 5);
}

#[test]
fn seventeen_keys_promote_root_to_node48() {
    let mut tree = Tree::<u8>::new();
    for b in 0u8..=0x10 {
        assert_eq!(tree.insert(&[b], b), None);
    }
    assert_eq!(root_kind(&tree), 48);
    for b in 0u8..=0x10 {
        assert_eq!(tree.get(&[b]), Some(&b));
    }
    assert_eq!(tree.len(), 17);
}

#[test]
fn forty_nine_keys_promote_root_to_node256() {
    let mut tree = Tree::<u8>::new();
    for b in 0u8..=0x30 {
        assert_eq!(tree.insert(&[b], b), None);
    }
    assert_eq!(root_kind(&tree), 256);
    for b in 0u8..=0x30 {
        assert_eq!(tree.get(&[b]), Some(&b));
    }
    assert_eq!(tree.len(), 49);
}

#[test]
fn hundred_thousand_big_endian_keys() {
    let mut tree = Tree::<u64>::new();
    for i in 0u64..100_000 {
        assert_eq!(tree.insert(&i.to_be_bytes(), i), None);
    }
    for i in 0u64..100_000 {
        assert_eq!(tree.get(&i.to_be_bytes()), Some(&i));
    }
    assert_eq!(tree.len(), 100_000);
}

#[test]
fn key_that_is_prefix_of_another() {
    let mut tree = Tree::<i32>::new();
    assert_eq!(tree.insert(b"ab", 1), None);
    assert_eq!(tree.insert(b"abc", 2), None);
    assert_eq!(tree.get(b"ab"), Some(&1));
    assert_eq!(tree.get(b"abc"), Some(&2));
    assert_eq!(tree.get(b"a"), None);
    assert_eq!(tree.remove(b"ab"), Some(1));
    assert_eq!(tree.get(b"abc"), Some(&2));
    assert_eq!(tree.get(b"ab"), None);
    assert_eq!(tree.len(), 1);
}

#[test]
fn prefix_inserted_after_longer_key() {
    let mut tree = Tree::<i32>::new();
    assert_eq!(tree.insert(b"abc", 2), None);
    assert_eq!(tree.insert(b"ab", 1), None);
    assert_eq!(tree.get(b"ab"), Some(&1));
    assert_eq!(tree.get(b"abc"), Some(&2));
    assert_eq!(tree.get(b"abcd"), None);
}

#[test]
fn empty_key_is_stored_at_the_root() {
    let mut tree = Tree::<i32>::new();
    assert_eq!(tree.get(b""), None);
    assert_eq!(tree.insert(b"", 7), None);
    assert!(matches!(tree.root, Node::Leaf(_)));
    assert_eq!(tree.get(b""), Some(&7));
    assert_eq!(tree.insert(b"x", 8), None);
    assert!(matches!(tree.root, Node::BoxNodeLeaf(_, _)));
    assert_eq!(tree.get(b""), Some(&7));
    assert_eq!(tree.get(b"x"), Some(&8));
    assert_eq!(tree.remove(b""), Some(7));
    assert_eq!(tree.get(b""), None);
    assert_eq!(tree.get(b"x"), Some(&8));
    assert_eq!(tree.len(), 1);
}

#[test]
fn remove_absent_key_changes_nothing() {
    let mut tree = Tree::<i32>::new();
    assert_eq!(tree.remove(b"a"), None);
    tree.insert(b"ab", 1);
    assert_eq!(tree.remove(b"a"), None);
    assert_eq!(tree.remove(b"abc"), None);
    assert_eq!(tree.remove(b"b"), None);
    assert_eq!(tree.len(), 1);
    assert_eq!(tree.get(b"ab"), Some(&1));
}

#[test]
fn remove_then_reinsert_counts_once() {
    let mut tree = Tree::<i32>::new();
    for _ in 0..3 {
        assert_eq!(tree.insert(b"k", 1), None);
        assert_eq!(tree.len(), 1);
        assert_eq!(tree.remove(b"k"), Some(1));
        assert_eq!(tree.len(), 0);
        assert_eq!(tree.remove(b"k"), None);
        assert_eq!(tree.len(), 0);
    }
}

#[test]
fn node256_count_follows_removals() {
    let mut tree = Tree::<u8>::new();
    for b in 0u8..=0x30 {
        tree.insert(&[b], b);
    }
    for _ in 0..3 {
        assert_eq!(tree.remove(&[5]), Some(5));
        assert_eq!(tree.insert(&[5], 5), None);
    }
    assert_eq!(tree.remove(&[6]), Some(6));
    match &tree.root {
        Node::BoxNode(BoxNode::Node256(n)) => assert_eq!(n.count, 48),
        _ => panic!("root is not a Node256"),
    }
}

#[test]
fn removed_slot_in_small_node_is_reused() {
    let mut tree = Tree::<i32>::new();
    tree.insert(b"a", 1);
    tree.insert(b"b", 2);
    assert_eq!(tree.remove(b"a"), Some(1));
    assert_eq!(tree.insert(b"a", 3), None);
    match &tree.root {
        Node::BoxNode(BoxNode::Node4(n)) => assert_eq!(n.count, 2),
        _ => panic!("root is not a Node4"),
    }
    assert_eq!(tree.get(b"a"), Some(&3));
    assert_eq!(tree.get(b"b"), Some(&2));
}

#[test]
fn growth_after_removals_keeps_every_key() {
    let mut tree = Tree::<u8>::new();
    for b in 0u8..48 {
        tree.insert(&[b], b);
    }
    assert_eq!(tree.remove(&[3]), Some(3));
    for b in 48u8..60 {
        tree.insert(&[b], b);
    }
    assert_eq!(root_kind(&tree), 256);
    for b in 0u8..60 {
        if b == 3 {
            assert_eq!(tree.get(&[b]), None);
        } else {
            assert_eq!(tree.get(&[b]), Some(&b));
        }
    }
    assert_eq!(tree.len(), 59);
}

#[test]
fn get_mut_changes_the_stored_value() {
    let mut tree = Tree::<i32>::new();
    tree.insert(b"abc", 1);
    tree.insert(b"abd", 2);
    assert_eq!(tree.get_mut(b"ab"), None);
    assert_eq!(tree.get_mut(b"abz"), None);
    *tree.get_mut(b"abc").unwrap() = 10;
    assert_eq!(tree.get(b"abc"), Some(&10));
    assert_eq!(tree.get(b"abd"), Some(&2));
    assert_eq!(tree.len(), 2);
}

#[test]
fn last_write_wins_over_mixed_operations() {
    let mut tree = Tree::<i32>::new();
    tree.insert(b"x", 1);
    tree.insert(b"y", 2);
    tree.remove(b"x");
    tree.insert(b"y", 3);
    tree.insert(b"z", 4);
    tree.remove(b"z");
    tree.insert(b"z", 5);
    assert_eq!(tree.get(b"x"), None);
    assert_eq!(tree.get(b"y"), Some(&3));
    assert_eq!(tree.get(b"z"), Some(&5));
    assert_eq!(tree.len(), 2);
}

#[test]
fn insertion_order_does_not_matter() {
    let pairs: Vec<(Vec<u8>, i32)> = vec![
        (b"alpha".to_vec(), 1),
        (b"al".to_vec(), 2),
        (b"beta".to_vec(), 3),
        (b"".to_vec(), 4),
        (vec![0, 255, 7], 5),
        (b"alphabet".to_vec(), 6),
    ];
    let mut forward = Tree::new();
    for (k, v) in pairs.iter() {
        forward.insert(k, *v);
    }
    let mut backward = Tree::new();
    for (k, v) in pairs.iter().rev() {
        backward.insert(k, *v);
    }
    let queries: [&[u8]; 8] = [b"alpha", b"al", b"a", b"beta", b"", &[0, 255, 7], b"alphabet", b"alphab"];
    for q in queries.iter() {
        assert_eq!(forward.get(q), backward.get(q));
    }
    assert_eq!(forward.len(), backward.len());
}

#[test]
fn distinct_keys_round_trip() {
    let mut tree = Tree::<usize>::new();
    let mut keys: Vec<Vec<u8>> = Vec::new();
    for i in 0..300usize {
        let k = vec![(i % 7) as u8, (i * 31 % 256) as u8, (i / 256) as u8];
        if !keys.contains(&k) {
            keys.push(k);
        }
    }
    for (i, k) in keys.iter().enumerate().rev() {
        assert_eq!(tree.insert(k, i), None);
    }
    for (i, k) in keys.iter().enumerate() {
        assert_eq!(tree.get(k), Some(&i));
    }
    assert_eq!(tree.len(), keys.len());
}

fn check_counts<V>(node: &Node<V>) {
    let bn = match node {
        Node::BoxNode(bn) => bn,
        Node::BoxNodeLeaf(bn, _) => bn,
        _ => return,
    };
    let (count, children): (usize, Vec<&Node<V>>) = match bn {
        BoxNode::Node4(n) => (n.count as usize, n.children.iter().collect()),
        BoxNode::Node16(n) => {
            let c = n.count as usize;
            assert!(n.key[..c].windows(2).all(|w| w[0] < w[1]));
            (c, n.children.iter().collect())
        }
        BoxNode::Node48(n) => (n.count as usize, n.children.iter().collect()),
        BoxNode::Node256(n) => (n.count as usize, n.children.iter().collect()),
        BoxNode::Empty => panic!("placeholder left in the tree"),
    };
    let non_empty = children.iter().filter(|c| !matches!(c, Node::Empty)).count();
    assert_eq!(count, non_empty);
    for c in children {
        check_counts(c);
    }
}

#[test]
fn counts_match_non_empty_children_after_inserts() {
    let mut tree = Tree::<u32>::new();
    for i in 0u32..5000 {
        let k = (i.wrapping_mul(2654435761)).to_be_bytes();
        tree.insert(&k[..(1 + (i as usize % 4))], i);
    }
    check_counts(&tree.root);
}

fn spread_key(i: u32) -> Vec<u8> {
    let mut k = ((i * 37 % 3000) as u16).to_be_bytes().to_vec();
    if i % 3 == 1 {
        k.push(1);
    }
    k
}

#[test]
fn counts_match_non_empty_children_after_removals() {
    let mut tree = Tree::<u32>::new();
    for i in 0u32..3000 {
        assert_eq!(tree.insert(&spread_key(i), i), None);
    }
    for i in (0u32..3000).step_by(3) {
        assert_eq!(tree.remove(&spread_key(i)), Some(i));
    }
    check_counts(&tree.root);
    for i in 0u32..3000 {
        let got = tree.get(&spread_key(i));
        if i % 3 == 0 {
            assert_eq!(got, None);
        } else {
            assert_eq!(got, Some(&i));
        }
    }
    assert_eq!(tree.len(), 2000);
}

#[test]
fn remove_compacts_small_nodes() {
    let mut tree = Tree::<i32>::new();
    for (i, k) in [b"c", b"a", b"d", b"b"].iter().enumerate() {
        tree.insert(*k, i as i32);
    }
    assert_eq!(tree.remove(b"a"), Some(1));
    match &tree.root {
        Node::BoxNode(BoxNode::Node4(n)) => {
            assert_eq!(n.count, 3);
            assert_eq!(&n.key[..3], b"cdb");
            assert!(n.children[3].is_none());
        }
        _ => panic!("root is not a Node4"),
    }
    for b in 0u8..16 {
        tree.insert(&[b], b as i32);
    }
    assert_eq!(root_kind(&tree), 48);
    assert_eq!(tree.remove(&[7]), Some(7));
    match &tree.root {
        Node::BoxNode(BoxNode::Node48(n)) => {
            assert_eq!(n.count, 18);
            assert_eq!(n.children_index[7], 0);
        }
        _ => panic!("root is not a Node48"),
    }
    check_counts(&tree.root);
    assert_eq!(tree.get(&[15]), Some(&15));
    assert_eq!(tree.get(b"d"), Some(&2));
}

#[test]
fn new_tree_has_an_empty_root() {
    let tree = Tree::<i32>::new();
    assert!(matches!(tree.root, Node::Empty));
    assert_eq!(tree.len(), 0);
}

#[test]
fn node256_root_counts_its_children() {
    let mut tree = Tree::<u8>::new();
    for b in 0u8..=0x30 {
        tree.insert(&[b], b);
    }
    match &tree.root {
        Node::BoxNode(BoxNode::Node256(n)) => assert_eq!(n.count, 49),
        _ => panic!("root is not a Node256"),
    }
}
