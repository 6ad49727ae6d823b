use itrees::{Node, PackedNode, Ref, Tree, UnpackedRef, UnpackedWord, Word};

#[test]
fn packed_node_layout() {
    assert_eq!(Node::Era.pack(), PackedNode(0));
    assert_eq!(Node::Ctr(3).pack(), PackedNode(7));
    assert_eq!(Node::Principal(Tree(5)).pack(), PackedNode(22));
    assert_eq!(Node::Auxiliary(Tree(5)).pack(), PackedNode(20));
    for n in [
        Node::Era,
        Node::Ctr(0),
        Node::Ctr(9),
        Node::Principal(Tree(0)),
        Node::Principal(Tree(12)),
        Node::Auxiliary(Tree(1)),
    ] {
        assert_eq!(n.pack().unpack(), n);
    }
    for x in 0..64usize {
        assert_eq!(PackedNode(x).unpack().pack(), PackedNode(x));
    }
}

#[test]
fn ref_layout() {
    assert_eq!(UnpackedRef::Principal(Tree(3)).pack(), Ref(14));
    assert_eq!(UnpackedRef::Auxiliary(Tree(3)).pack(), Ref(12));
    assert_eq!(Ref(14).unpack(), UnpackedRef::Principal(Tree(3)));
    assert_eq!(Ref(12).unpack(), UnpackedRef::Auxiliary(Tree(3)));
}

#[test]
fn word_layout() {
    assert_eq!(Word(0).unpack(), UnpackedWord::Era);
    assert_eq!(Word(5).unpack(), UnpackedWord::Ctr(5));
    assert_eq!(Word(8).unpack(), UnpackedWord::Ref(Ref(8)));
    assert_eq!(UnpackedWord::Ctr(4).pack(), Word(5));
    assert_eq!(UnpackedWord::Ctr(7).length(), 7);
    assert_eq!(UnpackedWord::Era.length(), 1);
    assert_eq!(UnpackedWord::Ref(Ref(8)).length(), 1);
}

#[test]
fn tree_reads() {
    let heap = vec![PackedNode(0), Node::Ctr(2).pack(), PackedNode(0), PackedNode(0)];
    assert_eq!(Tree(1).kind(&heap), Some(2));
    assert_eq!(Tree(2).kind(&heap), None);
    assert_eq!(Tree(1).node(1, &heap), Node::Era);
    assert_eq!(Tree(1).offset(2), Tree(3));
    let mut h = heap.clone();
    let c = Tree::clone(Tree(1), 3, &mut h);
    assert_eq!(c, Tree(4));
    assert_eq!(&h[4..7], &heap[1..4]);
}
