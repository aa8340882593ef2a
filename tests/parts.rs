use artoo::{
    swap_unchecked, Branch, Describe, Describer, Key, Leaf, Node, Node16, Node256, Node4,
    Node48, Seek,
};

fn seek_of(key: &[u8]) -> Seek<'_> {
    Seek::new(key)
}

#[test]
fn test_key_sizeof_is_24() {
    assert_eq!(std::mem::size_of::<Key>(), 24);
}

#[test]
fn key_layout_by_length() {
    assert!(matches!(Key::from_slice(b""), Key::Empty));
    assert!(matches!(Key::from_slice(b"abc"), Key::Small(3, _)));
    assert!(matches!(Key::from_slice(&[1u8; 22]), Key::Small(22, _)));
    assert!(matches!(Key::from_slice(&[1u8; 23]), Key::Medium(_)));
    assert!(matches!(Key::from_slice(&[1u8; 24]), Key::Large(_)));
    assert!(matches!(Key::from_vec(vec![9u8; 30]), Key::Large(_)));
    assert!(matches!(Key::from(&b"xy"[..]), Key::Small(2, _)));
}

#[test]
fn key_bytes_and_length() {
    let long: Vec<u8> = (0u8..40).collect();
    let k = Key::from_slice(&long);
    assert_eq!(k.as_slice(), &long[..]);
    assert_eq!(k.len(), 40);
    let k = Key::from_vec(long.clone());
    assert_eq!(k.as_slice(), &long[..]);
    let k = Key::from_slice(b"hello");
    assert_eq!(k.as_slice(), b"hello");
    assert_eq!(k.len(), 5);
    assert_eq!(Key::Empty.len(), 0);
    assert_eq!(Key::Empty.as_slice(), b"");
}

#[test]
fn key_concat_walks_through_every_layout() {
    let mut k = Key::Empty;
    let mut expected: Vec<u8> = Vec::new();
    for b in 0u8..30 {
        k = k.concat(b);
        expected.push(b);
        assert_eq!(k.as_slice(), &expected[..]);
        assert_eq!(k.len(), expected.len());
    }
    assert!(matches!(Key::from_slice(&[0u8; 21]).concat(1), Key::Small(22, _)));
    assert!(matches!(Key::from_slice(&[0u8; 22]).concat(1), Key::Medium(_)));
    assert!(matches!(Key::from_slice(&[0u8; 23]).concat(1), Key::Large(_)));
    assert!(matches!(Key::from_slice(&[0u8; 15]).concat(1), Key::Small(16, _)));
}

#[test]
fn key_equality_and_clone_follow_bytes() {
    let a = Key::from_slice(b"abc");
    let b = Key::Empty.concat(b'a').concat(b'b').concat(b'c');
    assert!(a == b);
    assert!(a != Key::from_slice(b"abd"));
    assert!(a != Key::from_slice(b"ab"));
    let long = Key::from_slice(&[5u8; 50]);
    assert!(long.clone() == long);
    assert!(long.clone().as_slice() == &[5u8; 50][..]);
}

#[test]
fn leaf_insert_swaps_value() {
    let mut leaf = Leaf::new(1);
    assert_eq!(leaf.insert(2), 1);
    assert_eq!(leaf.val, 2);
}

#[test]
fn seek_points_at_a_byte() {
    let s = Seek::new(b"xyz");
    assert_eq!((s.byte, s.idx), (b'x', 0));
    let s = Seek::at(b"xyz", 2);
    assert_eq!((s.byte, s.idx), (b'z', 2));
}

#[test]
fn swap_unchecked_exchanges_two_elements() {
    let mut v = [1, 2, 3, 4];
    swap_unchecked(&mut v, 0, 3);
    assert_eq!(v, [4, 2, 3, 1]);
    swap_unchecked(&mut v, 1, 2);
    assert_eq!(v, [4, 3, 2, 1]);
}

#[test]
fn node4_keeps_insertion_order_and_grows_sorted() {
    let mut n = Node4::<i32>::new();
    assert!(n.children.iter().all(|c| c.is_none()));
    for (i, b) in [9u8, 3, 7, 1].iter().enumerate() {
        let key = [*b];
        n.add_child(seek_of(&key), Node::Leaf(Leaf::new(i as i32)));
    }
    assert!(n.is_full());
    assert_eq!(n.key, [9, 3, 7, 1]);
    assert!(n.find_child(seek_of(&[7])).is_some());
    assert!(n.find_child(seek_of(&[8])).is_none());
    let mut it = n.iter();
    assert_eq!(it.next().map(|(b, _)| b), Some(9));
    let n16 = n.grow();
    assert_eq!(n16.count, 4);
    assert_eq!(&n16.key[..4], &[1, 3, 7, 9]);
    match n16.find_child(seek_of(&[3])) {
        Some(Node::Leaf(l)) => assert_eq!(l.val, 1),
        _ => panic!("child of byte 3 lost"),
    }
}

#[test]
fn node4_into_iter_hands_out_children() {
    let mut n = Node4::<i32>::new();
    n.add_child(seek_of(&[5]), Node::Leaf(Leaf::new(50)));
    n.add_child(seek_of(&[2]), Node::Leaf(Leaf::new(20)));
    let mut it = n.into_iter();
    match it.next() {
        Some((5, Node::Leaf(l))) => assert_eq!(l.val, 50),
        _ => panic!("expected byte 5"),
    }
    match it.next() {
        Some((2, Node::Leaf(l))) => assert_eq!(l.val, 20),
        _ => panic!("expected byte 2"),
    }
    assert!(it.next().is_none());
}

#[test]
fn node16_add_child_keeps_bytes_ascending() {
    let mut n = Node16::<u8>::new();
    for b in [200u8, 4, 90, 17, 255, 0, 63].iter() {
        n.add_child(seek_of(&[*b]), Node::Leaf(Leaf::new(*b)));
        let c = n.count as usize;
        assert!(n.key[..c].windows(2).all(|w| w[0] < w[1]));
    }
    assert_eq!(&n.key[..7], &[0, 4, 17, 63, 90, 200, 255]);
    for b in [200u8, 4, 90, 17, 255, 0, 63].iter() {
        match n.find_child(seek_of(&[*b])) {
            Some(Node::Leaf(l)) => assert_eq!(l.val, *b),
            _ => panic!("missing child"),
        }
    }
    assert!(n.find_child(seek_of(&[1])).is_none());
    let mut it = n.iter();
    let mut seen = Vec::new();
    while let Some((b, _)) = it.next() {
        seen.push(b);
    }
    assert_eq!(seen, vec![0, 4, 17, 63, 90, 200, 255]);
}

#[test]
fn node16_grow_indexes_every_child() {
    let mut n = Node16::<u8>::new();
    for b in 0u8..16 {
        n.add_child(seek_of(&[b * 3]), Node::Leaf(Leaf::new(b)));
    }
    assert!(n.is_full());
    let n48 = n.grow();
    assert_eq!(n48.count, 16);
    for b in 0u8..16 {
        assert_eq!(n48.children_index[(b * 3) as usize], b + 1);
        match n48.find_child(seek_of(&[b * 3])) {
            Some(Node::Leaf(l)) => assert_eq!(l.val, b),
            _ => panic!("missing child"),
        }
    }
    assert!(n48.find_child(seek_of(&[1])).is_none());
}

#[test]
fn node48_grow_places_children_by_byte() {
    let mut n = Node48::<u8>::new();
    for b in 0u8..48 {
        n.add_child(seek_of(&[255 - b]), Node::Leaf(Leaf::new(b)));
    }
    assert!(n.is_full());
    let mut it = artoo::Node48Iter::new(&n);
    assert_eq!(it.next().map(|(b, _)| b), Some(208));
    let n256 = n.grow();
    assert_eq!(n256.count, 48);
    for b in 0u8..48 {
        match n256.find_child(seek_of(&[255 - b])) {
            Some(Node::Leaf(l)) => assert_eq!(l.val, b),
            _ => panic!("missing child"),
        }
    }
    assert!(n256.find_child(seek_of(&[0])).is_none());
    assert!(!n256.is_full());
}

#[test]
fn node256_iterators_visit_non_empty_children() {
    let mut n = Node256::<u8>::new();
    n.add_child(seek_of(&[10]), Node::Leaf(Leaf::new(1)));
    n.add_child(seek_of(&[3]), Node::Leaf(Leaf::new(2)));
    assert_eq!(n.count, 2);
    let mut it = artoo::Node256Iter::new(&n);
    assert_eq!(it.next().map(|(b, _)| b), Some(3));
    assert_eq!(it.next().map(|(b, _)| b), Some(10));
    assert!(it.next().is_none());
    let mut it = artoo::Node256IntoIter::new(n);
    assert!(matches!(it.next(), Some((3, Node::Leaf(_)))));
    assert!(matches!(it.next(), Some((10, Node::Leaf(_)))));
    assert!(it.next().is_none());
    assert_eq!(it.node256.count, 0);
}

#[test]
fn node48_into_iter_visits_by_byte() {
    let mut n = Node48::<u8>::new();
    n.add_child(seek_of(&[40]), Node::Leaf(Leaf::new(1)));
    n.add_child(seek_of(&[4]), Node::Leaf(Leaf::new(2)));
    let mut it = artoo::Node48IntoIter::new(n);
    assert!(matches!(it.next(), Some((4, Node::Leaf(_)))));
    assert!(matches!(it.next(), Some((40, Node::Leaf(_)))));
    assert!(it.next().is_none());
}

#[test]
fn node_transitions() {
    let mut n: Node<i32> = Node::default();
    assert!(n.is_none());
    assert_eq!(n.insert_in_leaf(1), None);
    assert!(matches!(n, Node::Leaf(_)));
    assert_eq!(n.insert_in_leaf(2), Some(1));
    n.grow_if_full();
    assert!(matches!(n, Node::BoxNodeLeaf(_, _)));
    n.add_child(seek_of(&[1]), Node::Leaf(Leaf::new(3)));
    assert!(n.find_child(seek_of(&[1])).is_some());
    assert_eq!(n.remove_leaf(), Some(2));
    assert!(matches!(n, Node::BoxNode(_)));
    assert_eq!(n.insert_in_leaf(4), None);
    assert!(matches!(n, Node::BoxNodeLeaf(_, _)));
    let mut e: Node<i32> = Node::Empty;
    e.grow_if_full();
    assert!(matches!(e, Node::BoxNode(artoo::BoxNode::Node4(_))));
}

#[test]
fn describe_builds_indented_text() {
    let mut d = Describe::new();
    d.push_str("top\n");
    d.nest(|d| {
        d.indent();
        d.push_str("inner\n");
    });
    d.eat_next_indent();
    d.indent();
    d.push_str("end");
    assert_eq!(d.as_str(), "top\n  inner\nend");
    let n = Node4::<i32>::new();
    let mut d = Describe::new();
    n.describe(&mut d);
    assert_eq!(d.as_str(), "Node4");
}

#[test]
fn branch_keeps_its_sequence() {
    let b = Branch::<i32>::new(b"shared", Node::Empty);
    assert_eq!(b.sequence(), b"shared");
}

#[test]
fn key_order_is_lexicographic_on_bytes() {
    let a = Key::from("ab");
    let b = Key::from("abc");
    let c = Key::from("b");
    assert!(a < b);
    assert!(b < c);
    assert!(a < c);
    assert!(Key::Empty < a);
    assert!(Key::from_slice(&[1u8; 30]) > Key::from_slice(&[1u8; 29]));
    assert!(Key::from_slice(&[2u8; 3]) > Key::from_slice(&[1u8; 40]));
    assert_eq!(a.partial_cmp(&Key::from_slice(b"ab")), Some(std::cmp::Ordering::Equal));
}

#[test]
fn key_from_boxed_and_str() {
    let boxed: Box<[u8]> = vec![1u8, 2, 3].into_boxed_slice();
    let k = Key::from(boxed);
    assert!(matches!(k, Key::Large(_)));
    assert_eq!(k.as_slice(), &[1, 2, 3]);
    let k = Key::from("héllo");
    assert_eq!(k.as_slice(), "héllo".as_bytes());
    assert!(k == Key::from_vec("héllo".as_bytes().to_vec()));
}
