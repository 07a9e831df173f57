use pdxl::node::{Node, NodeId, NodeKind, Operator, SyntaxTree, TextRange};

fn node(kind: NodeKind, start: u32, end: u32, child_start: u32, child_end: u32) -> Node {
    Node { kind, range: TextRange { start, end }, operator: if kind == NodeKind::Field { Operator::Equal } else { Operator::Invalid }, child_start, child_end }
}

/// `a = b`
fn tree_with(root: NodeKind, ids: Vec<u32>) -> SyntaxTree {
    let nodes = vec![
        node(root, 0, 5, 0, 1),
        node(NodeKind::Field, 0, 5, 1, 3),
        node(NodeKind::Scalar, 0, 1, 0, 0),
        node(NodeKind::Scalar, 4, 5, 0, 0),
    ];
    SyntaxTree::from_parts(b"a = b".to_vec(), nodes, ids.into_iter().map(NodeId::new).collect())
}

#[test]
fn kinds_round_trip_through_their_byte() {
    for b in 0u8..=4 {
        assert_eq!(NodeKind::from_u8(b).unwrap().as_u8(), b);
    }
    assert!(NodeKind::from_u8(5).is_none());
    assert!(NodeKind::from_u8(255).is_none());
    assert_eq!(NodeKind::TaggedBlock.as_str(), "tagged_block");
    assert_eq!(NodeKind::File.as_str(), "file");
}

#[test]
fn ids_are_plain_indices() {
    assert_eq!(NodeId::root_id().raw(), 0);
    assert_eq!(NodeId::new(7).index(), 7);
}

#[test]
fn a_well_formed_tree_answers_navigation() {
    let t = tree_with(NodeKind::File, vec![1, 2, 3]);
    assert!(t.validate());
    assert_eq!(t.len(), 4);
    assert!(!t.is_empty());
    assert_eq!(t.root(), NodeId::root_id());
    let kids: Vec<u32> = t.children(NodeId::new(1)).iter().map(|k| k.raw()).collect();
    assert_eq!(kids, vec![2, 3]);
    assert_eq!(t.node_text(NodeId::new(3)), b"b");
    assert_eq!(t.child_ids(NodeId::new(0)).len(), 1);
    assert_eq!(t.node(NodeId::new(2)).kind, NodeKind::Scalar);
}

#[test]
fn validation_rejects_broken_layouts() {
    assert!(!tree_with(NodeKind::Block, vec![1, 2, 3]).validate());
    assert!(!tree_with(NodeKind::File, vec![1, 2, 9]).validate());
    assert!(!tree_with(NodeKind::File, vec![1, 0, 3]).validate());
    let empty = SyntaxTree::from_parts(Vec::new(), Vec::new(), Vec::new());
    assert!(!empty.validate());
    let out_of_source = SyntaxTree::from_parts(
        b"a".to_vec(),
        vec![node(NodeKind::File, 0, 2, 0, 0)],
        Vec::new(),
    );
    assert!(!out_of_source.validate());
}

#[test]
fn operators_render_as_their_symbol() {
    let t = tree_with(NodeKind::File, vec![1, 2, 3]);
    assert_eq!(t.node(NodeId::new(1)).op_string(), "=");
    assert_eq!(t.node(NodeId::new(2)).op_string(), "invalid");
    let mut n = *t.node(NodeId::new(1));
    n.operator = Operator::QuestionEqual;
    assert_eq!(n.op_string(), "?=");
    n.operator = Operator::LessEqual;
    assert_eq!(n.op_string(), "<=");
    for b in 0u8..9 {
        assert_eq!(Operator::from_u8(b).unwrap().as_u8(), b);
    }
    assert!(Operator::from_u8(9).is_none());
}

#[test]
fn validation_rejects_shared_children() {
    // Child id 2 listed twice.
    assert!(!tree_with(NodeKind::File, vec![1, 2, 2]).validate());
    // The root's range overlaps the field's: node 2 would have two parents.
    let nodes = vec![
        node(NodeKind::File, 0, 5, 0, 2),
        node(NodeKind::Field, 0, 5, 1, 3),
        node(NodeKind::Scalar, 0, 1, 0, 0),
        node(NodeKind::Scalar, 4, 5, 0, 0),
    ];
    let t = SyntaxTree::from_parts(b"a = b".to_vec(), nodes, [1u32, 2, 3].into_iter().map(NodeId::new).collect());
    assert!(!t.validate());
}
