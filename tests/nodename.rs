use aimless_onions::nodename::NodeName;

#[test]
fn left_child() {
    assert_eq!(NodeName::root().left(), NodeName::new(1, 0));
}

#[test]
fn right_child() {
    assert_eq!(NodeName::root().right(), NodeName::new(1, 1));
}

#[test]
fn walk() {
    let node = NodeName::root().left().right().right();
    let walk = node.walk();
    assert_eq!(
        walk,
        vec![
            NodeName::root().left(),
            NodeName::root().left().right(),
            NodeName::root().left().right().right()
        ]
    );
}

#[test]
fn contains() {
    assert!(NodeName::root().contains(NodeName::root()));
    assert!(NodeName::root().contains(NodeName::root().left()));
    assert!(NodeName::root().contains(NodeName::root().right()));
    assert!(NodeName::root().contains(NodeName::root().right().left()));
    assert!(NodeName::root().left().contains(NodeName::root().left().left()));

    assert!(!NodeName::root().left().contains(NodeName::root()));
    assert!(!NodeName::root().left().contains(NodeName::root().right()));
}

#[test]
fn number_keeps_low_bits() {
    assert_eq!(NodeName::number(0xDEADCAFE).path(), 0xDEADCAFE);
    assert_eq!(NodeName::number(0x1_0000_0005).path(), 5);
    assert!(NodeName::number(7).is_leaf());
}

#[test]
fn new_clears_high_bits() {
    assert_eq!(NodeName::new(3, 0b1101).path(), 0b101);
    assert_eq!(NodeName::new(0, 42), NodeName::root());
}

#[test]
fn walk_of_leaf_ends_at_leaf() {
    let leaf = NodeName::number(0xCAFEBABE);
    let walk = leaf.walk();
    assert_eq!(walk.len(), 32);
    assert_eq!(*walk.last().unwrap(), leaf);
    assert_eq!(walk[0], NodeName::new(1, 1));
    for pair in walk.windows(2) {
        assert_eq!(pair[1].parent(), pair[0]);
    }
}

#[test]
fn contains_is_transitive_and_follows_parents() {
    let leaf = NodeName::number(0x12345678);
    let mid = NodeName::new(10, 0x12345678 >> 22);
    let top = mid.parent().parent();
    assert!(top.contains(mid));
    assert!(mid.contains(leaf));
    assert!(top.contains(leaf));
    assert!(leaf.parent().contains(leaf));
    assert!(!leaf.contains(leaf.parent()));
    assert!(leaf.contains(leaf));
}

#[test]
fn subtree_sizes() {
    assert_eq!(NodeName::root().subtree_size(), 1u128 << 32);
    assert_eq!(NodeName::new(2, 1).subtree_size(), 1u128 << 30);
    assert_eq!(NodeName::number(9).subtree_size(), 1);
}

#[test]
fn left_and_right_leaves() {
    assert!(NodeName::number(4).is_left());
    assert!(!NodeName::number(4).is_right());
    assert!(NodeName::number(5).is_right());
    assert!(!NodeName::new(3, 4).is_left());
    assert!(NodeName::root().is_empty());
    assert_eq!(NodeName::new(5, 3).len(), 5);
}
