//! Flat node-pool syntax tree.
//!
//! All nodes live in one contiguous pool; parent→child relationships are a
//! separate child-index array (a node's children are
//! `child_ids[child_start..child_end]`). `nodes[0]` is the file root, every
//! child id indexes the pool, every node range lies within the source, and
//! scalar text is recovered from the source range, never copied.

use std::sync::Arc;

use vstd::prelude::*;

verus! {

/// Version of the tree's lexical and structural semantics: bumped whenever
/// the tree a given source parses to changes, so persisted trees built under
/// an older version are recognised as stale.
pub const SYNTAX_VERSION: u32 = 1;

/// The number of operator bytes a node may carry, one per [`Operator`]:
/// `0` for a node without an operator, `1` to `8` for the field operators.
pub const OPERATOR_KINDS: u8 = 9;

/// A reference-counted copy of some bytes.
///
/// Calls `Arc::<[u8]>::from` on a slice, which copies the bytes into a new
/// shared allocation; the contract claims the copy holds the same bytes.
#[verifier::external_body]
fn shared_bytes(v: &[u8]) -> (r: Arc<[u8]>)
    ensures
        r@ == v@,
{
    Arc::from(v)
}

/// A half-open byte range `[start, end)` into a source text.
#[derive(Clone, Copy, Debug, PartialEq, Eq, Structural)]
pub struct TextRange {
    pub start: u32,
    pub end: u32,
}

/// A typed identifier for a node within one [`SyntaxTree`]: an index into
/// its node pool.
#[derive(Clone, Copy, Debug, PartialEq, Eq, Hash, PartialOrd, Ord, Structural)]
pub struct NodeId(u32);

impl View for NodeId {
    type V = u32;

    closed spec fn view(&self) -> u32 {
        self.0
    }
}

impl NodeId {
    /// The root id, as a spec value.
    pub closed spec fn spec_root() -> NodeId {
        NodeId(0)
    }

    /// The root id is 0.
    pub proof fn lemma_spec_root()
        ensures
            Self::spec_root()@ == 0,
    {
    }

    /// The file root, always present and always id `0`.
    pub fn root_id() -> (n: NodeId)
        ensures
            n@ == 0,
            n == Self::spec_root(),
    {
        NodeId(0)
    }

    /// The id with raw index `raw`, as a spec value.
    pub closed spec fn spec_new(raw: u32) -> NodeId {
        NodeId(raw)
    }

    /// An id is determined by its raw index.
    pub proof fn lemma_spec_new(raw: u32, n: NodeId)
        ensures
            Self::spec_new(raw)@ == raw,
            Self::spec_new(n@) == n,
    {
    }

    /// Creates a node id from a raw index.
    pub fn new(raw: u32) -> (n: NodeId)
        ensures
            n@ == raw,
            n == Self::spec_new(raw),
    {
        NodeId(raw)
    }

    /// The raw `u32` index.
    pub fn raw(self) -> (r: u32)
        ensures
            r == self@,
    {
        self.0
    }

    /// The index as a `usize`, for slicing the node pool.
    pub fn index(self) -> (r: usize)
        ensures
            r == self@,
    {
        self.0 as usize
    }
}

/// The kind of a syntax node; the discriminant order is `File=0 … Scalar=4`.
#[derive(Clone, Copy, Debug, PartialEq, Eq, Hash, Structural)]
pub enum NodeKind {
    /// Root; children are the top-level items.
    File,
    /// `key OP value`; child 0 is the key scalar, child 1 the value.
    Field,
    /// `{ … }`; children are the block items.
    Block,
    /// `tag = { … }` style; the range covers the tag text.
    TaggedBlock,
    /// A leaf; the range is its literal source text.
    Scalar,
}

/// The byte a node kind is stored as.
pub open spec fn kind_byte(k: NodeKind) -> u8 {
    match k {
        NodeKind::File => 0,
        NodeKind::Field => 1,
        NodeKind::Block => 2,
        NodeKind::TaggedBlock => 3,
        NodeKind::Scalar => 4,
    }
}

impl NodeKind {
    /// The kind whose discriminant is `v`, or `None` for an out-of-range byte.
    pub fn from_u8(v: u8) -> (r: Option<NodeKind>)
        ensures
            r is None <==> v > 4,
            r matches Some(k) ==> kind_byte(k) == v,
    {
        match v {
            0 => Some(NodeKind::File),
            1 => Some(NodeKind::Field),
            2 => Some(NodeKind::Block),
            3 => Some(NodeKind::TaggedBlock),
            4 => Some(NodeKind::Scalar),
            _ => None,
        }
    }

    /// The discriminant byte (inverse of [`NodeKind::from_u8`]).
    pub fn as_u8(self) -> (r: u8)
        ensures
            r == kind_byte(self),
    {
        match self {
            NodeKind::File => 0,
            NodeKind::Field => 1,
            NodeKind::Block => 2,
            NodeKind::TaggedBlock => 3,
            NodeKind::Scalar => 4,
        }
    }

    /// Stable lowercase name used in structured dumps.
    pub fn as_str(self) -> (s: &'static str)
        ensures
            s@ == match self {
                NodeKind::File => "file"@,
                NodeKind::Field => "field"@,
                NodeKind::Block => "block"@,
                NodeKind::TaggedBlock => "tagged_block"@,
                NodeKind::Scalar => "scalar"@,
            },
    {
        match self {
            NodeKind::File => "file",
            NodeKind::Field => "field",
            NodeKind::Block => "block",
            NodeKind::TaggedBlock => "tagged_block",
            NodeKind::Scalar => "scalar",
        }
    }
}

/// The operator token a node carries: a field's comparison or assignment
/// operator, or `Invalid` for every node that is not a field (the parser
/// stores no other token there). The discriminant order is `Invalid=0 …
/// LessEqual=8`.
#[derive(Clone, Copy, Debug, PartialEq, Eq, Hash, Structural)]
pub enum Operator {
    Invalid,
    Equal,
    EqualEqual,
    NotEqual,
    QuestionEqual,
    GreaterThan,
    GreaterEqual,
    LessThan,
    LessEqual,
}

/// The byte an operator is stored as.
pub open spec fn operator_byte(o: Operator) -> u8 {
    match o {
        Operator::Invalid => 0,
        Operator::Equal => 1,
        Operator::EqualEqual => 2,
        Operator::NotEqual => 3,
        Operator::QuestionEqual => 4,
        Operator::GreaterThan => 5,
        Operator::GreaterEqual => 6,
        Operator::LessThan => 7,
        Operator::LessEqual => 8,
    }
}

/// The operator a stored byte names (meaningful below [`OPERATOR_KINDS`]).
pub open spec fn byte_operator(b: u8) -> Operator {
    match b {
        0u8 => Operator::Invalid,
        1u8 => Operator::Equal,
        2u8 => Operator::EqualEqual,
        3u8 => Operator::NotEqual,
        4u8 => Operator::QuestionEqual,
        5u8 => Operator::GreaterThan,
        6u8 => Operator::GreaterEqual,
        7u8 => Operator::LessThan,
        _ => Operator::LessEqual,
    }
}

/// An operator's byte names it back, and lies below [`OPERATOR_KINDS`].
pub proof fn lemma_operator_byte(o: Operator)
    ensures
        operator_byte(o) < OPERATOR_KINDS,
        byte_operator(operator_byte(o)) == o,
{
}

impl Operator {
    /// The operator whose discriminant is `v`, or `None` for a byte that
    /// names none.
    pub fn from_u8(v: u8) -> (r: Option<Operator>)
        ensures
            r is None <==> v >= OPERATOR_KINDS,
            r matches Some(o) ==> operator_byte(o) == v && o == byte_operator(v),
    {
        match v {
            0 => Some(Operator::Invalid),
            1 => Some(Operator::Equal),
            2 => Some(Operator::EqualEqual),
            3 => Some(Operator::NotEqual),
            4 => Some(Operator::QuestionEqual),
            5 => Some(Operator::GreaterThan),
            6 => Some(Operator::GreaterEqual),
            7 => Some(Operator::LessThan),
            8 => Some(Operator::LessEqual),
            _ => None,
        }
    }

    /// The discriminant byte (inverse of [`Operator::from_u8`]).
    pub fn as_u8(self) -> (r: u8)
        ensures
            r == operator_byte(self),
    {
        match self {
            Operator::Invalid => 0,
            Operator::Equal => 1,
            Operator::EqualEqual => 2,
            Operator::NotEqual => 3,
            Operator::QuestionEqual => 4,
            Operator::GreaterThan => 5,
            Operator::GreaterEqual => 6,
            Operator::LessThan => 7,
            Operator::LessEqual => 8,
        }
    }
}

/// The source symbol of an operator, `invalid` for none.
pub open spec fn operator_text(o: Operator) -> Seq<char> {
    match o {
        Operator::Invalid => "invalid"@,
        Operator::Equal => "="@,
        Operator::EqualEqual => "=="@,
        Operator::NotEqual => "!="@,
        Operator::QuestionEqual => "?="@,
        Operator::GreaterThan => ">"@,
        Operator::GreaterEqual => ">="@,
        Operator::LessThan => "<"@,
        Operator::LessEqual => "<="@,
    }
}

/// A pointer-free syntax node: kind, source range, the field operator, and
/// the half-open range of its children in the child-index array.
#[derive(Clone, Copy, Debug, PartialEq, Eq, Structural)]
pub struct Node {
    pub kind: NodeKind,
    pub range: TextRange,
    pub operator: Operator,
    pub child_start: u32,
    pub child_end: u32,
}

impl Node {
    /// The operator rendered as its source symbol (`=`, `?=`, `>=`, …) for
    /// fields, and as the token name `invalid` for nodes without one.
    pub fn op_string(&self) -> (s: &'static str)
        ensures
            s@ == operator_text(self.operator),
    {
        match self.operator {
            Operator::Equal => "=",
            Operator::EqualEqual => "==",
            Operator::NotEqual => "!=",
            Operator::QuestionEqual => "?=",
            Operator::GreaterThan => ">",
            Operator::GreaterEqual => ">=",
            Operator::LessThan => "<",
            Operator::LessEqual => "<=",
            Operator::Invalid => "invalid",
        }
    }
}

/// The result of parsing: a flat node pool, a child-index array, and the
/// source bytes.
pub struct SyntaxTree {
    source: Vec<u8>,
    nodes: Vec<Node>,
    child_ids: Vec<NodeId>,
}

impl SyntaxTree {
    /// The source bytes.
    pub closed spec fn spec_source(&self) -> Seq<u8> {
        self.source@
    }

    /// The node pool.
    pub closed spec fn spec_nodes(&self) -> Seq<Node> {
        self.nodes@
    }

    /// The child-index array.
    pub closed spec fn spec_child_index(&self) -> Seq<NodeId> {
        self.child_ids@
    }

    /// The children of node `i`, in order.
    pub open spec fn spec_children(&self, i: int) -> Seq<NodeId> {
        self.spec_child_index().subrange(
            self.spec_nodes()[i].child_start as int,
            self.spec_nodes()[i].child_end as int,
        )
    }

    /// The text of node `i`.
    pub open spec fn spec_text(&self, i: int) -> Seq<u8> {
        self.spec_source().subrange(
            self.spec_nodes()[i].range.start as int,
            self.spec_nodes()[i].range.end as int,
        )
    }

    /// Node 0 is the file root, every node's range lies in the source and
    /// its children in the child index, and every child id indexes the pool.
    pub open spec fn in_bounds(&self) -> bool {
        &&& self.spec_nodes().len() > 0
        &&& self.spec_nodes()[0].kind is File
        &&& self.spec_nodes().len() <= u32::MAX
        &&& forall|i: int|
            0 <= i < self.spec_nodes().len() ==> {
                let n = #[trigger] self.spec_nodes()[i];
                &&& n.range.start <= n.range.end <= self.spec_source().len()
                &&& n.child_start <= n.child_end <= self.spec_child_index().len()
            }
        &&& forall|j: int|
            0 <= j < self.spec_child_index().len() ==> (#[trigger] self.spec_child_index()[j])@
                < self.spec_nodes().len()
    }

    /// `rank` strictly decreases from every node to each of its children.
    pub open spec fn ranks_ok(&self, rank: Seq<nat>) -> bool {
        &&& rank.len() == self.spec_nodes().len()
        &&& forall|i: int| 0 <= i < rank.len() ==> #[trigger] rank[i] < rank.len()
        &&& forall|i: int, j: int|
            #![trigger self.spec_nodes()[i], self.spec_child_index()[j]]
            0 <= i < self.spec_nodes().len() && self.spec_nodes()[i].child_start <= j
                < self.spec_nodes()[i].child_end ==> rank[self.spec_child_index()[j]@ as int] < rank[i]
    }

    /// A well-formed tree: in bounds, and acyclic (some rank strictly
    /// decreases along every parent→child edge).
    pub open spec fn wf(&self) -> bool {
        &&& self.in_bounds()
        &&& exists|rank: Seq<nat>| self.ranks_ok(rank)
        &&& self.tree_shaped()
    }

    /// No id occurs twice in the child index.
    pub open spec fn child_ids_distinct(&self) -> bool {
        forall|j1: int, j2: int|
            0 <= j1 < j2 < self.spec_child_index().len() ==> (#[trigger] self.spec_child_index()[j1])@
                != (#[trigger] self.spec_child_index()[j2])@
    }

    /// Node `i`'s child range covers child-index position `j`.
    pub open spec fn covers(&self, i: int, j: int) -> bool {
        self.spec_nodes()[i].child_start <= j < self.spec_nodes()[i].child_end
    }

    /// No two nodes' child ranges overlap.
    pub open spec fn ranges_disjoint(&self) -> bool {
        forall|a: int, b: int, j: int|
            0 <= a < b < self.spec_nodes().len() && #[trigger] self.covers(a, j) ==> !#[trigger] self.covers(b, j)
    }

    /// The root is no node's child.
    pub open spec fn root_not_child(&self) -> bool {
        forall|i: int, j: int|
            #![trigger self.spec_nodes()[i], self.spec_child_index()[j]]
            0 <= i < self.spec_nodes().len() && self.spec_nodes()[i].child_start <= j
                < self.spec_nodes()[i].child_end ==> self.spec_child_index()[j]@ != 0
    }

    /// The pool is a tree: every node is the child of at most one node (each
    /// id sits at one place in the child index, in one node's range), and
    /// the root of none.
    pub open spec fn tree_shaped(&self) -> bool {
        &&& self.child_ids_distinct()
        &&& self.ranges_disjoint()
        &&& self.root_not_child()
    }

    /// A witness rank of a well-formed tree.
    pub open spec fn rank(&self) -> Seq<nat> {
        choose|rank: Seq<nat>| self.ranks_ok(rank)
    }

    /// Every child id is greater than its parent's id (pre-order layout).
    pub open spec fn children_after_parents(&self) -> bool {
        forall|i: int, j: int|
            #![trigger self.spec_nodes()[i], self.spec_child_index()[j]]
            0 <= i < self.spec_nodes().len() && self.spec_nodes()[i].child_start <= j
                < self.spec_nodes()[i].child_end ==> self.spec_child_index()[j]@ > i
    }

    /// Assembles a tree from its raw parts (the producer upholds the layout).
    pub fn from_parts(source: Vec<u8>, nodes: Vec<Node>, child_ids: Vec<NodeId>) -> (t: SyntaxTree)
        ensures
            t.spec_source() == source@,
            t.spec_nodes() == nodes@,
            t.spec_child_index() == child_ids@,
    {
        SyntaxTree { source, nodes, child_ids }
    }

    /// Checks the layout: a root exists, ranges and child runs are in bounds,
    /// child ids index the pool, and each child comes after its parent. A
    /// tree that passes is well-formed.
    pub fn validate(&self) -> (r: bool)
        ensures
            r == (self.in_bounds() && self.children_after_parents() && self.child_ids_distinct()
                && self.ranges_disjoint()),
            r ==> self.wf(),
    {
        let n = self.nodes.len();
        if n == 0 || n > 0xffff_ffffusize || self.nodes[0].kind != NodeKind::File {
            return false;
        }
        let mut seen: Vec<bool> = Vec::new();
        while seen.len() < n
            invariant
                seen@.len() <= n,
                forall|v: int| 0 <= v < seen@.len() ==> !seen@[v],
            decreases n - seen@.len(),
        {
            seen.push(false);
        }
        let mut j: usize = 0;
        while j < self.child_ids.len()
            invariant
                j <= self.child_ids@.len(),
                n == self.nodes@.len(),
                seen@.len() == n,
                forall|k: int| 0 <= k < j ==> (#[trigger] self.child_ids@[k])@ < n,
                forall|k: int| 0 <= k < j ==> seen@[(#[trigger] self.child_ids@[k])@ as int],
                forall|v: int| 0 <= v < n && seen@[v] ==> exists|k: int| 0 <= k < j && (#[trigger] self.child_ids@[k])@ == v,
                forall|k1: int, k2: int|
                    0 <= k1 < k2 < j ==> (#[trigger] self.child_ids@[k1])@ != (#[trigger] self.child_ids@[k2])@,
            decreases self.child_ids@.len() - j,
        {
            let id = self.child_ids[j].index();
            if id >= n {
                assert(self.spec_child_index()[j as int]@ >= self.spec_nodes().len());
                return false;
            }
            if seen[id] {
                proof {
                    let k = choose|k: int| 0 <= k < j && (#[trigger] self.child_ids@[k])@ == id;
                    assert(self.spec_child_index()[k]@ == self.spec_child_index()[j as int]@);
                }
                return false;
            }
            seen.set(id, true);
            j += 1;
        }
        let mut owned: Vec<bool> = Vec::new();
        while owned.len() < self.child_ids.len()
            invariant
                owned@.len() <= self.child_ids@.len(),
                forall|c: int| 0 <= c < owned@.len() ==> !owned@[c],
            decreases self.child_ids@.len() - owned@.len(),
        {
            owned.push(false);
        }
        assert(self.child_ids_distinct());
        let mut i: usize = 0;
        while i < n
            invariant
                i <= n,
                n == self.nodes@.len(),
                0 < n <= u32::MAX,
                self.child_ids_distinct(),
                owned@.len() == self.child_ids@.len(),
                forall|k: int| 0 <= k < self.child_ids@.len() ==> (#[trigger] self.child_ids@[k])@ < n,
                forall|k: int|
                    0 <= k < i ==> {
                        let nd = #[trigger] self.nodes@[k];
                        &&& nd.range.start <= nd.range.end <= self.source@.len()
                        &&& nd.child_start <= nd.child_end <= self.child_ids@.len()
                    },
                forall|k: int, j: int|
                    #![trigger self.nodes@[k], self.child_ids@[j]]
                    0 <= k < i && self.nodes@[k].child_start <= j < self.nodes@[k].child_end
                        ==> self.child_ids@[j]@ > k,
                forall|c: int| 0 <= c < owned@.len() ==> (owned@[c] <==> exists|k: int| 0 <= k < i && #[trigger] self.covers(k, c)),
                forall|a: int, b: int, c: int| 0 <= a < b < i && #[trigger] self.covers(a, c) ==> !#[trigger] self.covers(b, c),
            decreases n - i,
        {
            let nd = self.nodes[i];
            if !(nd.range.start <= nd.range.end && (nd.range.end as usize) <= self.source.len()) {
                return false;
            }
            if !(nd.child_start <= nd.child_end && (nd.child_end as usize) <= self.child_ids.len()) {
                return false;
            }
            let mut c = nd.child_start as usize;
            while c < nd.child_end as usize
                invariant
                    i < self.nodes@.len(),
                    nd == self.nodes@[i as int],
                    nd.child_start <= c <= nd.child_end,
                    nd.child_end <= self.child_ids@.len(),
                    owned@.len() == self.child_ids@.len(),
                    forall|j: int| nd.child_start <= j < c ==> (#[trigger] self.child_ids@[j])@ > i,
                    forall|c2: int|
                        0 <= c2 < owned@.len() ==> (owned@[c2] <==> ((exists|k: int| 0 <= k < i && #[trigger] self.covers(k, c2))
                            || (nd.child_start <= c2 < c))),
                    forall|k: int, c2: int| 0 <= k < i && #[trigger] self.covers(k, c2) ==> !(nd.child_start <= c2 < c),
                    forall|a: int, b: int, c3: int| 0 <= a < b < i && #[trigger] self.covers(a, c3) ==> !#[trigger] self.covers(b, c3),
                decreases nd.child_end - c,
            {
                if self.child_ids[c].index() <= i {
                    assert(self.spec_nodes()[i as int] == nd);
                    assert(self.spec_child_index()[c as int]@ <= i);
                    return false;
                }
                if owned[c] {
                    proof {
                        let k = choose|k: int| 0 <= k < i && #[trigger] self.covers(k, c as int);
                        assert(self.spec_nodes()[i as int] == nd);
                        assert(self.covers(i as int, c as int));
                        assert(!self.ranges_disjoint());
                    }
                    return false;
                }
                let ghost before = owned@;
                owned.set(c, true);
                proof {
                    assert forall|c2: int| 0 <= c2 < owned@.len() implies (owned@[c2] <==> ((exists|k: int|
                        0 <= k < i && #[trigger] self.covers(k, c2)) || (nd.child_start <= c2 < c + 1))) by {
                        if c2 != c {
                            assert(owned@[c2] == before[c2]);
                        }
                    }
                    assert forall|k: int, c2: int| 0 <= k < i && #[trigger] self.covers(k, c2) implies !(nd.child_start
                        <= c2 < c + 1) by {
                        if c2 == c {
                            assert(before[c as int]);
                        }
                    }
                }
                c += 1;
            }
            proof {
                assert(self.spec_nodes()[i as int] == nd);
                assert forall|c2: int| 0 <= c2 < owned@.len() implies (owned@[c2] <==> exists|k: int|
                    0 <= k < i + 1 && #[trigger] self.covers(k, c2)) by {
                    if nd.child_start <= c2 < nd.child_end {
                        assert(self.covers(i as int, c2));
                    }
                    if exists|k: int| 0 <= k < i + 1 && #[trigger] self.covers(k, c2) {
                        let k = choose|k: int| 0 <= k < i + 1 && #[trigger] self.covers(k, c2);
                        if k < i {
                            assert(exists|k2: int| 0 <= k2 < i && #[trigger] self.covers(k2, c2));
                        }
                    }
                }
                assert forall|a: int, b: int, c3: int| 0 <= a < b < i + 1 && #[trigger] self.covers(a, c3) implies !#[trigger] self.covers(b, c3) by {
                }
            }
            i += 1;
        }
        proof {
            let rank = Seq::new(n as nat, |k: int| (n - 1 - k) as nat);
            assert(self.ranks_ok(rank));
            assert(self.ranges_disjoint());
            assert(self.root_not_child());
        }
        true
    }

    /// The source bytes this tree was parsed from.
    pub fn source(&self) -> (r: &[u8])
        ensures
            r@ == self.spec_source(),
    {
        self.source.as_slice()
    }

    /// The source bytes as a shared, reference-counted buffer.
    pub fn source_arc(&self) -> (r: Arc<[u8]>)
        ensures
            r@ == self.spec_source(),
    {
        shared_bytes(self.source.as_slice())
    }

    /// The file root node id.
    pub fn root(&self) -> (r: NodeId)
        ensures
            r@ == 0,
            r == NodeId::spec_root(),
    {
        NodeId::root_id()
    }

    /// The total number of nodes in the pool.
    pub fn len(&self) -> (r: usize)
        ensures
            r == self.spec_nodes().len(),
    {
        self.nodes.len()
    }

    /// Whether the pool is empty.
    pub fn is_empty(&self) -> (r: bool)
        ensures
            r == (self.spec_nodes().len() == 0),
    {
        self.nodes.len() == 0
    }

    /// Borrows a node by id.
    pub fn node(&self, id: NodeId) -> (r: &Node)
        requires
            id@ < self.spec_nodes().len(),
        ensures
            *r == self.spec_nodes()[id@ as int],
    {
        &self.nodes[id.index()]
    }

    /// All nodes in pool order.
    pub fn nodes(&self) -> (r: &[Node])
        ensures
            r@ == self.spec_nodes(),
    {
        self.nodes.as_slice()
    }

    /// The complete child-index array.
    pub fn child_index(&self) -> (r: &[NodeId])
        ensures
            r@ == self.spec_child_index(),
    {
        self.child_ids.as_slice()
    }

    /// The source text of a node.
    pub fn node_text(&self, id: NodeId) -> (r: &[u8])
        requires
            self.in_bounds(),
            id@ < self.spec_nodes().len(),
        ensures
            r@ == self.spec_text(id@ as int),
    {
        let n = self.node(id);
        slice_range(self.source.as_slice(), n.range.start as usize, n.range.end as usize)
    }

    /// The immediate child ids of a node.
    pub fn child_ids(&self, id: NodeId) -> (r: &[NodeId])
        requires
            self.in_bounds(),
            id@ < self.spec_nodes().len(),
        ensures
            r@ == self.spec_children(id@ as int),
    {
        let n = self.node(id);
        slice_range(self.child_ids.as_slice(), n.child_start as usize, n.child_end as usize)
    }

    /// A node's immediate children, in order.
    pub fn children(&self, id: NodeId) -> (r: &[NodeId])
        requires
            self.in_bounds(),
            id@ < self.spec_nodes().len(),
        ensures
            r@ == self.spec_children(id@ as int),
    {
        self.child_ids(id)
    }
}

/// A child of a node of a well-formed tree indexes the pool and has a
/// smaller rank.
pub proof fn lemma_child(t: &SyntaxTree, p: int, j: int)
    requires
        t.wf(),
        0 <= p < t.spec_nodes().len(),
        0 <= j < t.spec_children(p).len(),
    ensures
        t.spec_children(p)[j]@ < t.spec_nodes().len(),
        t.rank()[t.spec_children(p)[j]@ as int] < t.rank()[p],
        t.rank()[p] < t.spec_nodes().len(),
        t.rank().len() == t.spec_nodes().len(),
{
    let n = t.spec_nodes()[p];
    assert(n.child_start <= n.child_end <= t.spec_child_index().len());
    let k = n.child_start + j;
    assert(t.spec_children(p)[j] == t.spec_child_index()[k]);
    assert(t.ranks_ok(t.rank()));
    assert(t.spec_nodes()[p] == n);
}

/// `s[lo..hi]`.
pub fn slice_range<T>(s: &[T], lo: usize, hi: usize) -> (r: &[T])
    requires
        lo <= hi <= s@.len(),
    ensures
        r@ == s@.subrange(lo as int, hi as int),
{
    &s[lo..hi]
}

} // verus!
