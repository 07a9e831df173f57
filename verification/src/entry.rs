//! The versioned on-disk cache entry.
//!
//! Two version keys lead the entry: `format_version` is bumped when the
//! entry's shape changes, `syntax_version` when the tree a source parses to
//! changes. Either mismatching on read is a clean miss. Enum-valued fields
//! are stored as raw bytes and checked before reconstruction, so a corrupted
//! byte can never materialise an invalid value; an entry either passes the
//! whole check or is discarded. The byte encoding itself lives with the
//! serialisation layer, which hands decoded entries to [`DiskEntry::validate`].

use vstd::prelude::*;
use crate::node::{
    byte_operator, kind_byte, lemma_operator_byte, operator_byte, Node, NodeId, NodeKind, Operator, SyntaxTree, TextRange,
    OPERATOR_KINDS, SYNTAX_VERSION,
};

verus! {

/// Version of this on-disk layout. Bump on any change to [`DiskEntry`]'s
/// shape (2: doc-comment side channel).
pub const FORMAT_VERSION: u32 = 2;

/// The number of severity bytes a stored diagnostic may carry: `0` error,
/// `1` warning.
pub const SEVERITY_KINDS: u8 = 2;

/// A stored node; the kind is kept as its raw byte.
#[derive(Clone, Copy, Debug, PartialEq, Eq, Structural)]
pub struct NodeRepr {
    pub kind: u8,
    pub start: u32,
    pub end: u32,
    pub operator: u8,
    pub child_start: u32,
    pub child_end: u32,
}

/// A parser diagnostic as plain values (the severity as its raw byte).
#[derive(Debug)]
pub struct Diagnostic {
    pub filename: String,
    pub offset: u32,
    pub message: String,
    pub severity: u8,
}

/// One cached parse result, self-contained: versions, freshness metadata,
/// the exact source bytes, the flat tree (its two arrays), the diagnostics
/// and the doc-comment ranges as flattened `[start, end]` pairs.
#[derive(Debug)]
pub struct DiskEntry {
    pub format_version: u32,
    pub syntax_version: u32,
    pub mtime_nanos: i64,
    pub sha256: [u8; 32],
    pub src: Vec<u8>,
    pub nodes: Vec<NodeRepr>,
    pub child_ids: Vec<u32>,
    pub diags: Vec<Diagnostic>,
    pub doc_comments: Vec<u32>,
}

/// The node kind a valid kind byte stands for.
pub open spec fn byte_kind(b: u8) -> NodeKind {
    match b {
        0u8 => NodeKind::File,
        1u8 => NodeKind::Field,
        2u8 => NodeKind::Block,
        3u8 => NodeKind::TaggedBlock,
        _ => NodeKind::Scalar,
    }
}

/// How a node is stored.
pub open spec fn repr_of(n: Node) -> NodeRepr {
    NodeRepr {
        kind: kind_byte(n.kind),
        start: n.range.start,
        end: n.range.end,
        operator: operator_byte(n.operator),
        child_start: n.child_start,
        child_end: n.child_end,
    }
}

/// The node a stored node stands for.
pub open spec fn node_of(r: NodeRepr) -> Node {
    Node {
        kind: byte_kind(r.kind),
        range: TextRange { start: r.start, end: r.end },
        operator: byte_operator(r.operator),
        child_start: r.child_start,
        child_end: r.child_end,
    }
}

/// How a node pool is stored.
pub open spec fn reprs(ns: Seq<Node>) -> Seq<NodeRepr> {
    ns.map_values(|n: Node| repr_of(n))
}

/// The node pool stored nodes stand for.
pub open spec fn nodes_of(rs: Seq<NodeRepr>) -> Seq<Node> {
    rs.map_values(|r: NodeRepr| node_of(r))
}

/// How a child-index array is stored.
pub open spec fn raw_ids(ids: Seq<NodeId>) -> Seq<u32> {
    ids.map_values(|n: NodeId| n@)
}

/// The child-index array raw indices stand for.
pub open spec fn ids_of(raw: Seq<u32>) -> Seq<NodeId> {
    raw.map_values(|r: u32| NodeId::spec_new(r))
}

/// Ranges flattened into `[start, end]` pairs.
pub open spec fn flat_ranges(rs: Seq<TextRange>) -> Seq<u32> {
    Seq::new(2 * rs.len(), |i: int| if i % 2 == 0 { rs[i / 2].start } else { rs[i / 2].end })
}

/// The ranges whole `[start, end]` pairs stand for (an odd tail is ignored).
pub open spec fn range_pairs(v: Seq<u32>) -> Seq<TextRange> {
    Seq::new(v.len() / 2, |i: int| TextRange { start: v[2 * i], end: v[2 * i + 1] })
}

/// Every stored kind byte names a node kind.
pub open spec fn kinds_valid(rs: Seq<NodeRepr>) -> bool {
    forall|i: int| 0 <= i < rs.len() ==> #[trigger] rs[i].kind <= 4
}

/// Every stored operator byte names an operator.
pub open spec fn operators_valid(rs: Seq<NodeRepr>) -> bool {
    forall|i: int| 0 <= i < rs.len() ==> #[trigger] rs[i].operator < OPERATOR_KINDS
}

/// Every stored severity byte names a severity.
pub open spec fn severities_valid(ds: Seq<Diagnostic>) -> bool {
    forall|i: int| 0 <= i < ds.len() ==> #[trigger] ds[i].severity < SEVERITY_KINDS
}

impl DiskEntry {
    /// The entry was written under the current layout and syntax versions,
    /// every kind, operator and severity byte is valid, and the doc-comment
    /// pairs are whole.
    pub open spec fn acceptable(&self) -> bool {
        &&& self.format_version == FORMAT_VERSION
        &&& self.syntax_version == SYNTAX_VERSION
        &&& kinds_valid(self.nodes@)
        &&& operators_valid(self.nodes@)
        &&& severities_valid(self.diags@)
        &&& self.doc_comments@.len() % 2 == 0
    }

    /// Builds an entry from a parse result. `src` must be the exact bytes the
    /// tree was parsed from; `sha256` their fingerprint (see
    /// [`crate::fingerprint::content_hash`]).
    pub fn build(
        mtime_nanos: i64,
        sha256: [u8; 32],
        src: &[u8],
        tree: &SyntaxTree,
        diags: &[Diagnostic],
        doc_comments: &[TextRange],
    ) -> (e: DiskEntry)
        requires
            2 * doc_comments@.len() <= usize::MAX,
        ensures
            e.format_version == FORMAT_VERSION,
            e.syntax_version == SYNTAX_VERSION,
            e.mtime_nanos == mtime_nanos,
            e.sha256 == sha256,
            e.src@ == src@,
            e.nodes@ == reprs(tree.spec_nodes()),
            e.child_ids@ == raw_ids(tree.spec_child_index()),
            e.diags@ == diags@,
            e.doc_comments@ == flat_ranges(doc_comments@),
    {
        let mut src_copy: Vec<u8> = Vec::new();
        let mut i: usize = 0;
        while i < src.len()
            invariant
                i <= src@.len(),
                src_copy@ == src@.take(i as int),
            decreases src@.len() - i,
        {
            src_copy.push(src[i]);
            assert(src@.take(i as int + 1) =~= src@.take(i as int).push(src@[i as int]));
            i += 1;
        }
        assert(src@.take(src@.len() as int) =~= src@);

        let pool = tree.nodes();
        let mut nodes: Vec<NodeRepr> = Vec::new();
        let mut k: usize = 0;
        while k < pool.len()
            invariant
                k <= pool@.len(),
                pool@ == tree.spec_nodes(),
                nodes@ == reprs(pool@.take(k as int)),
            decreases pool@.len() - k,
        {
            let n = pool[k];
            nodes.push(NodeRepr {
                kind: n.kind.as_u8(),
                start: n.range.start,
                end: n.range.end,
                operator: n.operator.as_u8(),
                child_start: n.child_start,
                child_end: n.child_end,
            });
            assert(reprs(pool@.take(k as int + 1)) =~= reprs(pool@.take(k as int)).push(repr_of(n)));
            k += 1;
        }
        assert(pool@.take(pool@.len() as int) =~= pool@);

        let index = tree.child_index();
        let mut child_ids: Vec<u32> = Vec::new();
        let mut c: usize = 0;
        while c < index.len()
            invariant
                c <= index@.len(),
                index@ == tree.spec_child_index(),
                child_ids@ == raw_ids(index@.take(c as int)),
            decreases index@.len() - c,
        {
            child_ids.push(index[c].raw());
            assert(raw_ids(index@.take(c as int + 1)) =~= raw_ids(index@.take(c as int)).push(index@[c as int]@));
            c += 1;
        }
        assert(index@.take(index@.len() as int) =~= index@);

        let mut ds: Vec<Diagnostic> = Vec::new();
        let mut d: usize = 0;
        while d < diags.len()
            invariant
                d <= diags@.len(),
                ds@ == diags@.take(d as int),
            decreases diags@.len() - d,
        {
            let g = &diags[d];
            ds.push(Diagnostic {
                filename: g.filename.clone(),
                offset: g.offset,
                message: g.message.clone(),
                severity: g.severity,
            });
            assert(ds@ =~= diags@.take(d as int + 1));
            d += 1;
        }
        assert(diags@.take(diags@.len() as int) =~= diags@);

        let mut docs: Vec<u32> = Vec::new();
        let mut r: usize = 0;
        while r < doc_comments.len()
            invariant
                r <= doc_comments@.len(),
                2 * doc_comments@.len() <= usize::MAX,
                docs@ == flat_ranges(doc_comments@.take(r as int)),
            decreases doc_comments@.len() - r,
        {
            docs.push(doc_comments[r].start);
            docs.push(doc_comments[r].end);
            assert(docs@ =~= flat_ranges(doc_comments@.take(r as int + 1)));
            r += 1;
        }
        assert(doc_comments@.take(doc_comments@.len() as int) =~= doc_comments@);

        DiskEntry {
            format_version: FORMAT_VERSION,
            syntax_version: SYNTAX_VERSION,
            mtime_nanos,
            sha256,
            src: src_copy,
            nodes,
            child_ids,
            diags: ds,
            doc_comments: docs,
        }
    }

    /// Checks a decoded entry in full, or reports a miss (`None`).
    ///
    /// Rejects version mismatches, any kind, operator or severity byte that
    /// names no variant, and an odd doc-comment length (a truncated pair). A surviving
    /// entry is safe to reconstruct.
    pub fn validate(self) -> (r: Option<DiskEntry>)
        ensures
            r is Some <==> self.acceptable(),
            r matches Some(e) ==> e == self,
    {
        if self.format_version != FORMAT_VERSION || self.syntax_version != SYNTAX_VERSION {
            return None;
        }
        let mut i: usize = 0;
        while i < self.nodes.len()
            invariant
                i <= self.nodes@.len(),
                forall|k: int| 0 <= k < i ==> #[trigger] self.nodes@[k].kind <= 4,
                forall|k: int| 0 <= k < i ==> #[trigger] self.nodes@[k].operator < OPERATOR_KINDS,
            decreases self.nodes@.len() - i,
        {
            if NodeKind::from_u8(self.nodes[i].kind).is_none() {
                return None;
            }
            if self.nodes[i].operator >= OPERATOR_KINDS {
                return None;
            }
            i += 1;
        }
        let mut d: usize = 0;
        while d < self.diags.len()
            invariant
                d <= self.diags@.len(),
                forall|k: int| 0 <= k < d ==> #[trigger] self.diags@[k].severity < SEVERITY_KINDS,
            decreases self.diags@.len() - d,
        {
            if self.diags[d].severity >= SEVERITY_KINDS {
                return None;
            }
            d += 1;
        }
        if self.doc_comments.len() % 2 != 0 {
            return None;
        }
        Some(self)
    }

    /// Rebuilds the tree, the diagnostics and the doc-comment ranges.
    /// Consumes the entry so the source and message buffers move rather than
    /// copy.
    pub fn reconstruct(self) -> (r: (SyntaxTree, Vec<Diagnostic>, Vec<TextRange>))
        requires
            kinds_valid(self.nodes@),
            operators_valid(self.nodes@),
        ensures
            r.0.spec_source() == self.src@,
            r.0.spec_nodes() == nodes_of(self.nodes@),
            r.0.spec_child_index() == ids_of(self.child_ids@),
            r.1@ == self.diags@,
            r.2@ == range_pairs(self.doc_comments@),
    {
        let DiskEntry { src, nodes: reprs_in, child_ids: raw_in, diags, doc_comments, .. } = self;
        let mut nodes: Vec<Node> = Vec::new();
        let mut k: usize = 0;
        while k < reprs_in.len()
            invariant
                k <= reprs_in@.len(),
                kinds_valid(reprs_in@),
                operators_valid(reprs_in@),
                nodes@ == nodes_of(reprs_in@.take(k as int)),
            decreases reprs_in@.len() - k,
        {
            let n = reprs_in[k];
            assert(n.kind <= 4);
            let kind = match NodeKind::from_u8(n.kind) {
                Some(kind) => kind,
                None => NodeKind::Scalar,
            };
            assert(kind == byte_kind(n.kind));
            assert(n.operator < OPERATOR_KINDS);
            let operator = match Operator::from_u8(n.operator) {
                Some(o) => o,
                None => Operator::Invalid,
            };
            nodes.push(Node {
                kind,
                range: TextRange { start: n.start, end: n.end },
                operator,
                child_start: n.child_start,
                child_end: n.child_end,
            });
            assert(nodes@ =~= nodes_of(reprs_in@.take(k as int + 1)));
            k += 1;
        }
        assert(reprs_in@.take(reprs_in@.len() as int) =~= reprs_in@);

        let mut ids: Vec<NodeId> = Vec::new();
        let mut c: usize = 0;
        while c < raw_in.len()
            invariant
                c <= raw_in@.len(),
                ids@ == ids_of(raw_in@.take(c as int)),
            decreases raw_in@.len() - c,
        {
            ids.push(NodeId::new(raw_in[c]));
            assert(ids@ =~= ids_of(raw_in@.take(c as int + 1)));
            c += 1;
        }
        assert(raw_in@.take(raw_in@.len() as int) =~= raw_in@);

        let mut docs: Vec<TextRange> = Vec::new();
        let mut p: usize = 0;
        let pairs = doc_comments.len() / 2;
        while p < pairs
            invariant
                pairs == doc_comments@.len() / 2,
                doc_comments@.len() <= usize::MAX,
                p <= pairs,
                docs@ == range_pairs(doc_comments@).take(p as int),
            decreases pairs - p,
        {
            docs.push(TextRange { start: doc_comments[2 * p], end: doc_comments[2 * p + 1] });
            assert(docs@ =~= range_pairs(doc_comments@).take(p as int + 1));
            p += 1;
        }
        assert(range_pairs(doc_comments@).take(pairs as int) =~= range_pairs(doc_comments@));

        let tree = SyntaxTree::from_parts(src, nodes, ids);
        (tree, diags, docs)
    }
}

/// What a cache read gives back is what was written: reconstructing a built
/// entry yields the same node pool, child index and doc-comment ranges, and a
/// freshly built entry passes validation's kind, operator and pairing
/// checks.
pub proof fn law_entry_roundtrip(ns: Seq<Node>, ids: Seq<NodeId>, docs: Seq<TextRange>)
    ensures
        operators_valid(reprs(ns)),
        nodes_of(reprs(ns)) == ns,
        ids_of(raw_ids(ids)) == ids,
        range_pairs(flat_ranges(docs)) == docs,
        kinds_valid(reprs(ns)),
        flat_ranges(docs).len() % 2 == 0,
{
    assert forall|i: int| 0 <= i < ns.len() implies #[trigger] node_of(repr_of(ns[i])) == ns[i] by {
        let n = ns[i];
        match n.kind {
            NodeKind::File => {},
            NodeKind::Field => {},
            NodeKind::Block => {},
            NodeKind::TaggedBlock => {},
            NodeKind::Scalar => {},
        }
        assert(node_of(repr_of(n)).range == n.range);
        lemma_operator_byte(n.operator);
    }
    assert forall|i: int| 0 <= i < ns.len() implies #[trigger] reprs(ns)[i].operator < OPERATOR_KINDS by {
        lemma_operator_byte(ns[i].operator);
    }
    assert(nodes_of(reprs(ns)) =~= ns);
    assert forall|i: int| 0 <= i < ids.len() implies #[trigger] NodeId::spec_new(ids[i]@) == ids[i] by {
        NodeId::lemma_spec_new(0, ids[i]);
    }
    assert(ids_of(raw_ids(ids)) =~= ids);
    let f = flat_ranges(docs);
    assert forall|i: int| 0 <= i < docs.len() implies #[trigger] range_pairs(f)[i] == docs[i] by {
        assert((2 * i) % 2 == 0);
        assert((2 * i + 1) % 2 == 1);
        assert((2 * i) / 2 == i);
        assert((2 * i + 1) / 2 == i);
    }
    assert(range_pairs(f) =~= docs);
    assert forall|i: int| 0 <= i < ns.len() implies #[trigger] reprs(ns)[i].kind <= 4 by {
        match ns[i].kind {
            NodeKind::File => {},
            NodeKind::Field => {},
            NodeKind::Block => {},
            NodeKind::TaggedBlock => {},
            NodeKind::Scalar => {},
        }
    }
}

} // verus!
