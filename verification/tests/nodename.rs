use fspke::nodename::NodeName;

#[test]
fn left_child() {
    assert_eq!(NodeName::root().left(), NodeName::new(1, 0));
}

#[test]
fn right_child() {
    assert_eq!(NodeName::root().right(), NodeName::new(1, 1));
}

#[test]
fn walk() {
    let node = NodeName::root().left().right().right();
    let walk = node.walk();
    assert_eq!(
        walk,
        vec![
            NodeName::root(),
            NodeName::root().left(),
            NodeName::root().left().right(),
            NodeName::root().left().right().right()
        ]
    );
}

#[test]
fn from_numbering_root() {
    assert_eq!(NodeName::from_numbering(0), NodeName::root());
}

#[test]
fn from_numbering_node() {
    assert_eq!(
        NodeName::from_numbering(2u64.pow(32) + 1),
        NodeName::root().right().left()
    );
}

#[test]
fn to_numbering_root() {
    assert_eq!(NodeName::root().to_numbering(), 0);
}

#[test]
fn to_numbering_node() {
    assert_eq!(
        NodeName::root().right().left().to_numbering(),
        2u64.pow(32) + 1,
    );
}

#[test]
fn numbering_roundtrip() {
    let tests = [0u64, 1, 13, 42, 1337, 41238, 9182736, 1826455];
    for test in tests {
        assert_eq!(NodeName::from_numbering(test).to_numbering(), test);
    }
}

#[test]
fn test_is_leaf() {
    let mut node = NodeName::root();

    assert!(!node.is_leaf());

    for _ in 0..=30 {
        node = node.left();
        assert!(!node.is_leaf(), "{:?} is a leaf", node);
    }

    node = node.left();
    assert!(node.is_leaf());
}

#[test]
fn test_next() {
    let mut node = NodeName::root();

    for _ in 0..=31 {
        node = node.left();
    }

    node = node.next().unwrap();

    let mut correct = NodeName::root();
    for _ in 0..=30 {
        correct = correct.left();
    }
    correct = correct.right();

    assert_eq!(node, correct);
}

#[test]
fn test_in_subtree() {
    assert!(NodeName::root().in_subtree(NodeName::root()));
    assert!(NodeName::root().left().in_subtree(NodeName::root().left()));
    assert!(NodeName::root().left().in_subtree(NodeName::root()));
    assert!(NodeName::root().right().in_subtree(NodeName::root()));
    assert!(NodeName::root().left().right().in_subtree(NodeName::root()));
    assert!(NodeName::root().left().left().in_subtree(NodeName::root()));
    assert!(!NodeName::root().in_subtree(NodeName::root().left()));
    assert!(!NodeName::root().in_subtree(NodeName::root().right()));
    assert!(!NodeName::root().right().in_subtree(NodeName::root().left()));
    assert!(!NodeName::root().left().in_subtree(NodeName::root().right()));
}

#[test]
fn root_is_empty() {
    let root = NodeName::root();
    assert_eq!(root.len(), 0);
    assert_eq!(root.path(), 0);
    assert!(root.is_empty());
    assert!(!root.is_leaf());
    assert!(!root.left().is_empty());
}

#[test]
fn max_is_the_rightmost_leaf() {
    let max = NodeName::max();
    assert_eq!(max.len(), 32);
    assert_eq!(max.path(), u32::MAX);
    assert!(max.is_leaf());
    assert_eq!(max, NodeName::new(32, u32::MAX));
}

#[test]
fn parent_of_children() {
    let nodes = [
        NodeName::root(),
        NodeName::new(1, 1),
        NodeName::new(5, 0b10110),
        NodeName::new(31, 0x7fff_ffff),
        NodeName::new(31, 0),
    ];
    for n in nodes {
        assert_eq!(n.left().parent(), n);
        assert_eq!(n.right().parent(), n);
        assert_eq!(n.left().len(), n.len() + 1);
        assert_eq!(n.left().path(), n.path() * 2);
        assert_eq!(n.right().path(), n.path() * 2 + 1);
    }
}

#[test]
fn new_clears_the_bits_above_the_length() {
    assert_eq!(NodeName::new(0, u32::MAX).path(), 0);
    assert_eq!(NodeName::new(0, u32::MAX), NodeName::root());
    assert_eq!(NodeName::new(1, 0b110).path(), 0);
    assert_eq!(NodeName::new(3, 0b1111_0101).path(), 0b101);
    assert_eq!(NodeName::new(31, u32::MAX).path(), 0x7fff_ffff);
    assert_eq!(NodeName::new(32, u32::MAX).path(), u32::MAX);
    assert_eq!(NodeName::new(32, 0x8000_0001).path(), 0x8000_0001);
    for length in 0..=32u8 {
        let path = NodeName::new(length, 0xdead_beef).path();
        assert_eq!(u64::from(path) >> length, 0);
        assert_eq!(u64::from(path), 0xdead_beefu64 % (1u64 << length));
    }
}

#[test]
fn next_of_root_is_its_left_child() {
    assert_eq!(NodeName::root().next(), Some(NodeName::root().left()));
}

#[test]
fn next_of_max_is_none() {
    assert_eq!(NodeName::max().next(), None);
}

#[test]
fn next_of_an_inner_node_is_its_left_child() {
    let node = NodeName::new(7, 0b1011011);
    assert_eq!(node.next(), Some(node.left()));
}

#[test]
fn next_of_a_leaf_climbs_to_the_pending_right_subtree() {
    // A left leaf is followed by its sibling.
    assert_eq!(NodeName::new(32, 6).next(), Some(NodeName::new(32, 7)));
    // A right leaf is followed by the right sibling of the nearest ancestor
    // that is a left child.
    assert_eq!(NodeName::new(32, 7).next(), Some(NodeName::new(29, 1)));
    assert_eq!(NodeName::new(32, 0b1011).next(), Some(NodeName::new(30, 0b11)));
    // The last leaf of the left half is followed by the right child of the root.
    assert_eq!(NodeName::new(32, 0x7fff_ffff).next(), Some(NodeName::new(1, 1)));
    assert_eq!(NodeName::new(32, u32::MAX - 1).next(), Some(NodeName::max()));
}

#[test]
fn next_counts_the_numbering_up() {
    let mut node = NodeName::root();
    for expected in 0..200u64 {
        assert_eq!(node.to_numbering(), expected);
        assert_eq!(NodeName::from_numbering(expected), node);
        node = node.next().unwrap();
    }
    let mut node = NodeName::new(32, 0x7fff_fff0);
    let mut number = node.to_numbering();
    for _ in 0..200 {
        let next = node.next().unwrap();
        assert_ne!(next, node);
        assert_eq!(next.to_numbering(), number + 1);
        node = next;
        number += 1;
    }
}

#[test]
fn numbering_of_the_ends() {
    assert_eq!(NodeName::root().to_numbering(), 0);
    assert_eq!(NodeName::root().left().to_numbering(), 1);
    assert_eq!(NodeName::root().right().to_numbering(), 2u64.pow(32));
    assert_eq!(NodeName::new(32, 0).to_numbering(), 32);
    assert_eq!(NodeName::max().to_numbering(), 2u64.pow(33) - 2);
    assert_eq!(NodeName::from_numbering(2u64.pow(33) - 2), NodeName::max());
    assert_eq!(NodeName::from_numbering(1), NodeName::root().left());
    assert_eq!(NodeName::from_numbering(2u64.pow(32)), NodeName::root().right());
    assert_eq!(NodeName::from_numbering(2u64.pow(32) - 1), NodeName::new(32, 0x7fff_ffff));
    assert_eq!(NodeName::new(2, 0b01).to_numbering(), 1 + 2u64.pow(31));
}

#[test]
fn numbering_roundtrip_from_names() {
    let names = [
        NodeName::root(),
        NodeName::max(),
        NodeName::new(1, 1),
        NodeName::new(13, 0x1abc),
        NodeName::new(32, 0),
        NodeName::new(32, 0x1234_5678),
        NodeName::new(31, 0x7fff_ffff),
    ];
    for name in names {
        let number = name.to_numbering();
        assert!(number < 2u64.pow(33) - 1);
        assert_eq!(NodeName::from_numbering(number), name);
    }
}

#[test]
fn walk_of_root_and_of_a_leaf() {
    assert_eq!(NodeName::root().walk(), vec![NodeName::root()]);
    let walk = NodeName::max().walk();
    assert_eq!(walk.len(), 33);
    for (depth, node) in walk.iter().enumerate() {
        assert_eq!(usize::from(node.len()), depth);
        assert!(NodeName::max().in_subtree(*node));
    }
    assert_eq!(walk[0], NodeName::root());
    assert_eq!(walk[32], NodeName::max());
    assert_eq!(walk[3], NodeName::new(3, 0b111));
}

#[test]
fn sibling_subtrees_exclude_each_other() {
    let nodes = [NodeName::root(), NodeName::new(4, 0b1001), NodeName::new(31, 5)];
    for n in nodes {
        assert!(!n.left().in_subtree(n.right()));
        assert!(!n.right().in_subtree(n.left()));
        assert!(n.left().in_subtree(n));
        assert!(n.right().in_subtree(n));
        assert!(n.in_subtree(n));
        assert!(n.left().in_subtree(NodeName::root()));
    }
    let deep = NodeName::new(4, 0b1001).left().right().left();
    assert!(deep.in_subtree(NodeName::new(4, 0b1001)));
    assert!(deep.in_subtree(NodeName::new(2, 0b10)));
    assert!(!deep.in_subtree(NodeName::new(4, 0b1000)));
    assert!(!NodeName::new(4, 0b1001).in_subtree(deep));
}

#[test]
fn frontier_names() {
    assert_eq!(NodeName::root().frontier(), vec![NodeName::root()]);
    assert_eq!(
        NodeName::root().left().frontier(),
        vec![NodeName::root().right(), NodeName::root().left()]
    );
    assert_eq!(NodeName::root().right().frontier(), vec![NodeName::root().right()]);
    assert_eq!(
        NodeName::new(3, 0b010).frontier(),
        vec![NodeName::new(1, 1), NodeName::new(3, 0b011), NodeName::new(3, 0b010)]
    );
    assert_eq!(NodeName::new(32, 0).frontier().len(), 33);
    assert_eq!(NodeName::max().frontier(), vec![NodeName::max()]);
}
