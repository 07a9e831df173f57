use pdxl::entry::{Diagnostic, DiskEntry, NodeRepr, FORMAT_VERSION};
use pdxl::fingerprint::content_hash;
use pdxl::node::{Node, NodeId, NodeKind, Operator, SyntaxTree, TextRange, SYNTAX_VERSION};

fn node(kind: NodeKind, start: u32, end: u32, child_start: u32, child_end: u32) -> Node {
    Node {
        kind,
        range: TextRange { start, end },
        operator: if kind == NodeKind::Field { Operator::Equal } else { Operator::Invalid },
        child_start,
        child_end,
    }
}

/// `a = { b = 1` as a tree: file → field(a, block(field(b, 1))).
fn sample() -> (Vec<u8>, SyntaxTree, Vec<Diagnostic>) {
    let src = b"a = { b = 1".to_vec();
    let nodes = vec![
        node(NodeKind::File, 0, 11, 0, 1),
        node(NodeKind::Field, 0, 11, 1, 3),
        node(NodeKind::Scalar, 0, 1, 0, 0),
        node(NodeKind::Block, 4, 11, 3, 4),
        node(NodeKind::Field, 6, 11, 4, 6),
        node(NodeKind::Scalar, 6, 7, 0, 0),
        node(NodeKind::Scalar, 10, 11, 0, 0),
    ];
    let ids = [1u32, 2, 3, 4, 5, 6].iter().map(|&i| NodeId::new(i)).collect();
    let tree = SyntaxTree::from_parts(src.clone(), nodes, ids);
    let diags = vec![Diagnostic {
        filename: "test".to_string(),
        offset: 11,
        message: "unclosed block".to_string(),
        severity: 0,
    }];
    (src, tree, diags)
}

fn copy_diags(d: &[Diagnostic]) -> Vec<Diagnostic> {
    d.iter()
        .map(|d| Diagnostic {
            filename: d.filename.clone(),
            offset: d.offset,
            message: d.message.clone(),
            severity: d.severity,
        })
        .collect()
}

fn same_diags(a: &[Diagnostic], b: &[Diagnostic]) -> bool {
    a.len() == b.len()
        && a.iter().zip(b).all(|(x, y)| {
            x.filename == y.filename && x.offset == y.offset && x.message == y.message && x.severity == y.severity
        })
}

#[test]
fn roundtrip_preserves_everything() {
    let (src, tree, diags) = sample();
    assert!(tree.validate());
    let hash = content_hash(&src);
    let entry = DiskEntry::build(42, hash, &src, &tree, &diags, &[]);
    let decoded = entry.validate().expect("valid entry");
    assert_eq!(decoded.mtime_nanos, 42);
    assert_eq!(decoded.sha256, hash);

    let (tree2, diags2, docs2) = decoded.reconstruct();
    assert_eq!(tree2.nodes(), tree.nodes());
    assert_eq!(tree2.child_index(), tree.child_index());
    assert_eq!(tree2.source(), &src[..]);
    assert_eq!(&tree2.source_arc()[..], &src[..]);
    assert!(same_diags(&diags2, &diags));
    assert!(docs2.is_empty());
    assert!(tree2.validate());
}

#[test]
fn roundtrip_preserves_doc_comments() {
    let src = b"#! Doc for ![brave].\n#! Second line.\na = { b = 1 }\n".to_vec();
    let nodes = vec![
        node(NodeKind::File, 0, 51, 0, 1),
        node(NodeKind::Field, 37, 50, 1, 3),
        node(NodeKind::Scalar, 37, 38, 0, 0),
        node(NodeKind::Block, 41, 50, 3, 4),
        node(NodeKind::Field, 43, 48, 4, 6),
        node(NodeKind::Scalar, 43, 44, 0, 0),
        node(NodeKind::Scalar, 47, 48, 0, 0),
    ];
    let ids = [1u32, 2, 3, 4, 5, 6].iter().map(|&i| NodeId::new(i)).collect();
    let tree = SyntaxTree::from_parts(src.clone(), nodes, ids);
    let docs = vec![TextRange { start: 0, end: 20 }, TextRange { start: 21, end: 36 }];
    assert_eq!(docs.len(), 2);

    let hash = content_hash(&src);
    let entry = DiskEntry::build(1, hash, &src, &tree, &[], &docs);
    let (tree2, _, docs2) = entry.validate().expect("valid entry").reconstruct();
    assert_eq!(docs2, docs);
    let first = docs2[0];
    assert_eq!(&tree2.source()[first.start as usize..first.end as usize], b"#! Doc for ![brave].");
}

#[test]
fn odd_doc_comment_length_is_a_miss() {
    let (src, tree, diags) = sample();
    let mut entry = DiskEntry::build(1, content_hash(&src), &src, &tree, &diags, &[]);
    entry.doc_comments = vec![7];
    assert!(entry.validate().is_none());
}

#[test]
fn version_mismatch_is_a_miss() {
    let (src, tree, diags) = sample();
    let hash = content_hash(&src);

    let mut entry = DiskEntry::build(1, hash, &src, &tree, &copy_diags(&diags), &[]);
    entry.format_version = FORMAT_VERSION + 1;
    assert!(entry.validate().is_none(), "format bump");

    let mut entry = DiskEntry::build(1, hash, &src, &tree, &diags, &[]);
    entry.syntax_version = SYNTAX_VERSION + 1;
    assert!(entry.validate().is_none(), "syntax bump");
}

#[test]
fn an_unknown_kind_byte_is_a_miss() {
    let (src, tree, diags) = sample();
    let mut entry = DiskEntry::build(1, content_hash(&src), &src, &tree, &diags, &[]);
    entry.nodes[3].kind = 5;
    assert!(entry.validate().is_none());
}

#[test]
fn build_stores_kinds_as_bytes_and_ids_raw() {
    let (src, tree, diags) = sample();
    let entry = DiskEntry::build(7, content_hash(&src), &src, &tree, &diags, &[TextRange { start: 2, end: 9 }]);
    assert_eq!(entry.format_version, 2);
    assert_eq!(entry.syntax_version, SYNTAX_VERSION);
    assert_eq!(
        entry.nodes[1],
        NodeRepr { kind: 1, start: 0, end: 11, operator: 1, child_start: 1, child_end: 3 }
    );
    assert_eq!(entry.nodes[3].kind, 2);
    assert_eq!(entry.child_ids, vec![1, 2, 3, 4, 5, 6]);
    assert_eq!(entry.doc_comments, vec![2, 9]);
    assert_eq!(entry.src, src);
}

#[test]
fn an_unknown_operator_or_severity_byte_is_a_miss() {
    let (src, tree, diags) = sample();
    let mut entry = DiskEntry::build(1, content_hash(&src), &src, &tree, &diags, &[]);
    entry.nodes[1].operator = 255;
    assert!(entry.validate().is_none());
    let mut entry = DiskEntry::build(1, content_hash(&src), &src, &tree, &diags, &[]);
    entry.diags[0].severity = 255;
    assert!(entry.validate().is_none());
    let mut entry = DiskEntry::build(1, content_hash(&src), &src, &tree, &diags, &[]);
    entry.diags[0].severity = 1;
    entry.nodes[4].operator = 8;
    assert!(entry.validate().is_some());
}
