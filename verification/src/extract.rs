//! The extraction engine: one tree walk → [`FileFacts`].
//!
//! Every game-specific decision arrives through the [`Schema`]. Each
//! harvesting and reference pass is stated as a spec function over the
//! tree (walks in document order), and the executable walk is proved to
//! produce exactly that.

use vstd::prelude::*;
use vstd::string::{StrSliceExecFns, StringExecFns, StringSliceAdditionalSpecFns};

use crate::kind::{script_constant, CallKinds, KindId};
use crate::model::{CallTargets, FileFacts, Ref, RefView, Symbol, SymbolView};
use crate::node::{lemma_child, NodeId, NodeKind, SyntaxTree};
use crate::order::{sort_unique, sorted_set, texts};
use crate::schema::{
    is_list_form, last_aliases, last_by_bytes, matching_def_rules, rules_under_key_bytes, spec_skips_value,
    DefRule, DefShape, KeyForm, KeyRule, Schema, ScopeRule,
};
use crate::text::{
    bytes_start_with, find_byte_from, is_alnum, is_digit, lemma_find_byte_from, slice_eq, slice_find_byte_from,
    slice_starts_with, ascii_alnum,
};
use crate::node::slice_range;

verus! {

// ---------------------------------------------------------------------------
// Text conversion.

/// The text `String::from_utf8_lossy` makes of some bytes.
pub uninterp spec fn lossy_text(b: Seq<u8>) -> Seq<char>;

/// `String::from_utf8_lossy(b).into_owned()`: the result is named
/// `lossy_text` of the bytes; as std documents, valid UTF-8 comes back
/// unchanged. How invalid sequences are replaced is not restated.
#[verifier::external_body]
fn lossy_string(b: &[u8]) -> (r: String)
    ensures
        r@ == lossy_text(b@),
        vstd::utf8::valid_utf8(b@) ==> r@ == vstd::utf8::decode_utf8(b@),
{
    String::from_utf8_lossy(b).into_owned()
}

/// An owned copy of a path.
fn path_string(p: &str) -> (r: String)
    ensures
        r@ == p@,
{
    String::from_str(p)
}

// ---------------------------------------------------------------------------
// Byte-level helpers.

/// ASCII word byte (`[0-9A-Za-z_]`).
pub open spec fn is_word(b: u8) -> bool {
    is_alnum(b) || b == 95u8
}

fn is_word_byte(b: u8) -> (r: bool)
    ensures
        r == is_word(b),
{
    ascii_alnum(b) || b == 95u8
}

/// Whether `s` begins with an ASCII digit.
pub open spec fn spec_starts_with_digit(s: Seq<u8>) -> bool {
    s.len() > 0 && is_digit(s[0])
}

fn starts_with_digit(s: &[u8]) -> (r: bool)
    ensures
        r == spec_starts_with_digit(s@),
{
    s.len() > 0 && s[0] >= 48u8 && s[0] <= 57u8
}

/// `s` without its leading `"` bytes.
pub open spec fn trim_lead(s: Seq<u8>) -> Seq<u8>
    decreases s.len(),
{
    if s.len() > 0 && s[0] == 34u8 {
        trim_lead(s.drop_first())
    } else {
        s
    }
}

/// `s` without its trailing `"` bytes.
pub open spec fn trim_trail(s: Seq<u8>) -> Seq<u8>
    decreases s.len(),
{
    if s.len() > 0 && s.last() == 34u8 {
        trim_trail(s.drop_last())
    } else {
        s
    }
}

/// `s` with all leading and trailing `"` bytes stripped.
pub open spec fn spec_trim_quotes(s: Seq<u8>) -> Seq<u8> {
    trim_trail(trim_lead(s))
}

/// Strips all leading and trailing `"` bytes.
fn trim_quotes(b: &[u8]) -> (r: &[u8])
    ensures
        r@ == spec_trim_quotes(b@),
{
    let mut lo: usize = 0;
    assert(b@.subrange(0, b@.len() as int) =~= b@);
    while lo < b.len() && b[lo] == 34u8
        invariant
            lo <= b@.len(),
            trim_lead(b@) == trim_lead(b@.subrange(lo as int, b@.len() as int)),
        decreases b@.len() - lo,
    {
        assert(b@.subrange(lo as int, b@.len() as int).drop_first() =~= b@.subrange(lo as int + 1, b@.len() as int));
        lo += 1;
    }
    let mut hi: usize = b.len();
    assert(trim_lead(b@) == b@.subrange(lo as int, b@.len() as int));
    while hi > lo && b[hi - 1] == 34u8
        invariant
            lo <= hi <= b@.len(),
            trim_trail(trim_lead(b@)) == trim_trail(b@.subrange(lo as int, hi as int)),
        decreases hi,
    {
        assert(b@.subrange(lo as int, hi as int).drop_last() =~= b@.subrange(lo as int, hi as int - 1));
        hi -= 1;
    }
    slice_range(b, lo, hi)
}

/// The end of the run of word bytes of `s` starting at `i`.
pub open spec fn word_end(s: Seq<u8>, i: int) -> int
    decreases s.len() - i,
{
    if i >= s.len() || !is_word(s[i]) {
        i
    } else {
        word_end(s, i + 1)
    }
}

pub proof fn lemma_word_end(s: Seq<u8>, i: int)
    requires
        0 <= i <= s.len(),
    ensures
        i <= word_end(s, i) <= s.len(),
    decreases s.len() - i,
{
    if i < s.len() && is_word(s[i]) {
        lemma_word_end(s, i + 1);
    }
}

/// Every `$NAME$` in `s` from `i`, left to right, non-overlapping (a match
/// resumes the scan past its closing `$`); `NAME` is a non-empty run of word
/// bytes.
pub open spec fn params_from(s: Seq<u8>, i: int) -> Seq<Seq<u8>>
    decreases s.len() - i,
{
    if i < 0 || i >= s.len() {
        Seq::empty()
    } else if s[i] != 36u8 {
        params_from(s, i + 1)
    } else {
        proof {
            lemma_word_end(s, i + 1);
        }
        let j = word_end(s, i + 1);
        if j > i + 1 && j < s.len() && s[j] == 36u8 {
            seq![s.subrange(i + 1, j)] + params_from(s, j + 1)
        } else {
            params_from(s, i + 1)
        }
    }
}

/// The texts of some byte names.
pub open spec fn lossy_all(v: Seq<Seq<u8>>) -> Seq<Seq<char>> {
    v.map_values(|b: Seq<u8>| lossy_text(b))
}

/// Appends the `$NAME$` parameter names of `text` to `out`.
fn find_macro_params(text: &[u8], out: &mut Vec<String>)
    ensures
        texts(final(out)@) == texts(old(out)@) + lossy_all(params_from(text@, 0)),
{
    let ghost target = texts(old(out)@) + lossy_all(params_from(text@, 0));
    let mut i: usize = 0;
    while i < text.len()
        invariant
            i <= text@.len(),
            texts(out@) + lossy_all(params_from(text@, i as int)) == target,
        decreases text@.len() - i,
    {
        if text[i] != 36u8 {
            i += 1;
            continue;
        }
        let mut j = i + 1;
        proof {
            lemma_word_end(text@, i + 1);
        }
        while j < text.len() && is_word_byte(text[j])
            invariant
                i + 1 <= j <= text@.len(),
                word_end(text@, i + 1) == word_end(text@, j as int),
            decreases text@.len() - j,
        {
            j += 1;
        }
        if j > i + 1 && j < text.len() && text[j] == 36u8 {
            let name = lossy_string(slice_range(text, i + 1, j));
            let ghost before = texts(out@);
            out.push(name);
            proof {
                assert(texts(out@) =~= before.push(lossy_text(text@.subrange(i + 1, j as int))));
                assert(lossy_all(seq![text@.subrange(i + 1, j as int)] + params_from(text@, j + 1)) =~= seq![
                    lossy_text(text@.subrange(i + 1, j as int)),
                ] + lossy_all(params_from(text@, j + 1)));
                assert(texts(out@) + lossy_all(params_from(text@, j + 1)) =~= before + lossy_all(
                    params_from(text@, i as int),
                ));
            }
            i = j + 1;
        } else {
            i += 1;
        }
    }
    assert(texts(out@) =~= texts(out@) + lossy_all(params_from(text@, i as int)));
}

// ---------------------------------------------------------------------------
// Tree accessors.

/// The kind of node `n`.
pub open spec fn nkind(t: SyntaxTree, n: NodeId) -> NodeKind {
    t.spec_nodes()[n@ as int].kind
}

/// The children of node `n`.
pub open spec fn nkids(t: SyntaxTree, n: NodeId) -> Seq<NodeId> {
    t.spec_children(n@ as int)
}

/// The text of node `n`.
pub open spec fn ntext(t: SyntaxTree, n: NodeId) -> Seq<u8> {
    t.spec_text(n@ as int)
}

/// The start offset of node `n`.
pub open spec fn nstart(t: SyntaxTree, n: NodeId) -> u32 {
    t.spec_nodes()[n@ as int].range.start
}

/// The end offset of node `n`.
pub open spec fn nend(t: SyntaxTree, n: NodeId) -> u32 {
    t.spec_nodes()[n@ as int].range.end
}

/// `n` is a node of the well-formed tree `t`.
pub open spec fn okn(t: SyntaxTree, n: NodeId) -> bool {
    t.wf() && n@ < t.spec_nodes().len()
}

/// A block or tagged block.
pub open spec fn blockish(k: NodeKind) -> bool {
    k is Block || k is TaggedBlock
}

/// `n` is a `key = value` field (exactly two children).
pub open spec fn is_pair(t: SyntaxTree, n: NodeId) -> bool {
    nkind(t, n) is Field && nkids(t, n).len() == 2
}

pub proof fn lemma_kid(t: SyntaxTree, p: NodeId, j: int)
    requires
        okn(t, p),
        0 <= j < nkids(t, p).len(),
    ensures
        okn(t, nkids(t, p)[j]),
        t.rank()[nkids(t, p)[j]@ as int] < t.rank()[p@ as int],
{
    lemma_child(&t, p@ as int, j);
}

// ---------------------------------------------------------------------------
// Parameters.

/// The `$PARAM$` names in the scalar and tagged-block texts of the subtree of
/// `n`, in document order.
pub open spec fn subtree_params(t: SyntaxTree, n: NodeId) -> Seq<Seq<u8>>
    decreases t.rank()[n@ as int], 1nat, 0nat,
{
    if !okn(t, n) {
        Seq::empty()
    } else {
        let own = if nkind(t, n) is Scalar || nkind(t, n) is TaggedBlock {
            params_from(ntext(t, n), 0)
        } else {
            Seq::empty()
        };
        own + kids_params(t, n, 0)
    }
}

/// The parameters of the subtrees of the children of `p` from the `j`-th on.
pub open spec fn kids_params(t: SyntaxTree, p: NodeId, j: int) -> Seq<Seq<u8>>
    decreases t.rank()[p@ as int], 0nat, nkids(t, p).len() - j,
{
    if !okn(t, p) || j < 0 || j >= nkids(t, p).len() {
        Seq::empty()
    } else {
        proof {
            lemma_kid(t, p, j);
        }
        subtree_params(t, nkids(t, p)[j]) + kids_params(t, p, j + 1)
    }
}

/// Appends the `$PARAM$` names of the subtree of `n` to `out`.
fn collect_params(tree: &SyntaxTree, n: NodeId, out: &mut Vec<String>)
    requires
        okn(*tree, n),
    ensures
        texts(final(out)@) == texts(old(out)@) + lossy_all(subtree_params(*tree, n)),
    decreases tree.rank()[n@ as int], 1nat,
{
    let ghost t = *tree;
    let ghost target = texts(old(out)@) + lossy_all(subtree_params(t, n));
    let node = tree.node(n);
    if node.kind == NodeKind::Scalar || node.kind == NodeKind::TaggedBlock {
        find_macro_params(tree.node_text(n), out);
    }
    assert(lossy_all(subtree_params(t, n)) =~= (if nkind(t, n) is Scalar || nkind(t, n) is TaggedBlock {
        lossy_all(params_from(ntext(t, n), 0))
    } else {
        Seq::empty()
    }) + lossy_all(kids_params(t, n, 0)));
    let kids = tree.children(n);
    let mut j: usize = 0;
    while j < kids.len()
        invariant
            okn(t, n),
            t == *tree,
            kids@ == nkids(t, n),
            j <= kids@.len(),
            texts(out@) + lossy_all(kids_params(t, n, j as int)) == target,
        decreases kids@.len() - j,
    {
        proof {
            lemma_kid(t, n, j as int);
        }
        let ghost before = texts(out@);
        collect_params(tree, kids[j], out);
        proof {
            assert(lossy_all(kids_params(t, n, j as int)) =~= lossy_all(subtree_params(t, kids@[j as int]))
                + lossy_all(kids_params(t, n, j + 1)));
            assert(texts(out@) + lossy_all(kids_params(t, n, j + 1)) =~= before + lossy_all(
                kids_params(t, n, j as int),
            ));
        }
        j += 1;
    }
    assert(texts(out@) =~= texts(out@) + lossy_all(kids_params(t, n, j as int)));
}

/// The parameter list a definition body carries: its `$PARAM$` names, once
/// each, in byte order.
pub open spec fn body_params(t: SyntaxTree, body: NodeId) -> Seq<Seq<char>> {
    sorted_set(lossy_all(subtree_params(t, body)))
}

fn params_of(tree: &SyntaxTree, body: NodeId) -> (r: Vec<String>)
    requires
        okn(*tree, body),
    ensures
        texts(r@) == body_params(*tree, body),
{
    let mut found: Vec<String> = Vec::new();
    collect_params(tree, body, &mut found);
    assert(texts(found@) =~= lossy_all(subtree_params(*tree, body)));
    sort_unique(found)
}


// ---------------------------------------------------------------------------
// Definitions.

/// The contents of some symbols.
pub open spec fn sviews(v: Seq<Symbol>) -> Seq<SymbolView> {
    v.map_values(|s: Symbol| s@)
}

/// Pairwise concatenation of (definitions, aliases).
pub open spec fn cat2(a: (Seq<SymbolView>, Seq<SymbolView>), b: (Seq<SymbolView>, Seq<SymbolView>)) -> (
    Seq<SymbolView>,
    Seq<SymbolView>,
) {
    (a.0 + b.0, a.1 + b.1)
}

/// No definitions, no aliases.
pub open spec fn none2() -> (Seq<SymbolView>, Seq<SymbolView>) {
    (Seq::empty(), Seq::empty())
}

/// A symbol with no parameters.
pub open spec fn plain_symbol(name: Seq<char>, kind: Seq<char>, rel: Seq<char>, offset: u32, end_offset: u32) -> SymbolView {
    SymbolView { name, kind, file: rel, offset, end_offset, params: Seq::empty() }
}

/// The value node of the first direct child `key = value` field of `block`
/// (from the `j`-th child on) whose key text is `key`.
pub open spec fn direct_field_from(t: SyntaxTree, block: NodeId, key: Seq<u8>, j: int) -> Option<NodeId>
    decreases nkids(t, block).len() - j,
{
    if !okn(t, block) || j < 0 || j >= nkids(t, block).len() {
        None
    } else {
        let c = nkids(t, block)[j];
        if is_pair(t, c) && ntext(t, nkids(t, c)[0]) == key {
            Some(nkids(t, c)[1])
        } else {
            direct_field_from(t, block, key, j + 1)
        }
    }
}

fn direct_field_node(tree: &SyntaxTree, block: NodeId, key: &[u8]) -> (r: Option<NodeId>)
    requires
        okn(*tree, block),
    ensures
        r == direct_field_from(*tree, block, key@, 0),
        r matches Some(v) ==> okn(*tree, v),
{
    let ghost t = *tree;
    let kids = tree.children(block);
    let mut j: usize = 0;
    while j < kids.len()
        invariant
            okn(t, block),
            t == *tree,
            kids@ == nkids(t, block),
            j <= kids@.len(),
            direct_field_from(t, block, key@, 0) == direct_field_from(t, block, key@, j as int),
            forall|k: int| 0 <= k < kids@.len() ==> okn(t, #[trigger] kids@[k]),
        decreases kids@.len() - j,
    {
        let c = kids[j];
        if tree.node(c).kind == NodeKind::Field {
            let ck = tree.child_ids(c);
            if ck.len() == 2 && slice_eq(tree.node_text(ck[0]), key) {
                proof {
                    lemma_kid(t, c, 1);
                }
                return Some(ck[1]);
            }
        }
        j += 1;
    }
    None
}

/// An alias of a definition starting at `start`: offset and end both at the
/// definition's start.
pub open spec fn alias_view(name: Seq<char>, kind: KindId, rel: Seq<char>, start: u32) -> SymbolView {
    plain_symbol(name, kind@, rel, start, start)
}

/// The aliases the loose scalar items of a list give (empty names skipped).
pub open spec fn item_aliases(t: SyntaxTree, items: Seq<NodeId>, kind: KindId, rel: Seq<char>, start: u32) -> Seq<SymbolView>
    decreases items.len(),
{
    if items.len() == 0 {
        Seq::empty()
    } else {
        let prev = item_aliases(t, items.drop_last(), kind, rel, start);
        let it = items.last();
        if nkind(t, it) is Scalar && lossy_text(ntext(t, it)).len() > 0 {
            prev.push(alias_view(lossy_text(ntext(t, it)), kind, rel, start))
        } else {
            prev
        }
    }
}

/// The aliases an alias field's value gives: its scalar text, or the loose
/// scalar items of its block.
pub open spec fn value_aliases(t: SyntaxTree, fv: NodeId, kind: KindId, rel: Seq<char>, start: u32) -> Seq<SymbolView> {
    if nkind(t, fv) is Scalar {
        if lossy_text(ntext(t, fv)).len() > 0 {
            seq![alias_view(lossy_text(ntext(t, fv)), kind, rel, start)]
        } else {
            Seq::empty()
        }
    } else if blockish(nkind(t, fv)) {
        item_aliases(t, nkids(t, fv), kind, rel, start)
    } else {
        Seq::empty()
    }
}

/// The aliases the alias fields `keys` of a definition body give, key after key.
pub open spec fn keys_aliases(t: SyntaxTree, body: NodeId, keys: Seq<&'static str>, kind: KindId, rel: Seq<char>, start: u32) -> Seq<SymbolView>
    decreases keys.len(),
{
    if keys.len() == 0 {
        Seq::empty()
    } else {
        keys_aliases(t, body, keys.drop_last(), kind, rel, start) + match direct_field_from(
            t,
            body,
            keys.last().spec_bytes(),
            0,
        ) {
            Some(fv) => value_aliases(t, fv, kind, rel, start),
            None => Seq::empty(),
        }
    }
}

/// `n` is a `NAME = { … }` field.
pub open spec fn is_block_def(t: SyntaxTree, n: NodeId) -> bool {
    okn(t, n) && is_pair(t, n) && blockish(nkind(t, nkids(t, n)[1]))
}

#[verifier::opaque]
/// What harvesting the `NAME = { … }` field `n` as a definition of `kind`
/// gives: the definition (named by its key, spanning from the field's start
/// to the key's end, with its body's parameters) and the aliases its alias
/// fields name; nothing when `n` is not such a field.
pub open spec fn spec_harvest_def(
    t: SyntaxTree,
    n: NodeId,
    kind: KindId,
    rel: Seq<char>,
    alias_keys: Option<&'static [&'static str]>,
) -> (Seq<SymbolView>, Seq<SymbolView>) {
    if !is_block_def(t, n) {
        none2()
    } else {
        let key = nkids(t, n)[0];
        let body = nkids(t, n)[1];
        let def = SymbolView {
            name: lossy_text(ntext(t, key)),
            kind: kind@,
            file: rel,
            offset: nstart(t, n),
            end_offset: nend(t, key),
            params: body_params(t, body),
        };
        (
            seq![def],
            match alias_keys {
                Some(ks) => keys_aliases(t, body, ks@, kind, rel, nstart(t, n)),
                None => Seq::empty(),
            },
        )
    }
}

fn push_alias(aliases: &mut Vec<Symbol>, name: String, kind: KindId, rel_path: &str, def_start: u32)
    ensures
        sviews(final(aliases)@) == sviews(old(aliases)@).push(alias_view(name@, kind, rel_path@, def_start)),
{
    let ghost before = sviews(aliases@);
    let sym = Symbol { name, kind, file: path_string(rel_path), offset: def_start, end_offset: def_start, params: Vec::new() };
    assert(sym@.params =~= Seq::<Seq<char>>::empty());
    assert(sym@ == alias_view(sym.name@, kind, rel_path@, def_start));
    aliases.push(sym);
    assert(sviews(aliases@) =~= before.push(alias_view(name@, kind, rel_path@, def_start)));
}

fn harvest_value_aliases(tree: &SyntaxTree, fv: NodeId, kind: KindId, rel_path: &str, start: u32, aliases: &mut Vec<Symbol>)
    requires
        okn(*tree, fv),
    ensures
        sviews(final(aliases)@) == sviews(old(aliases)@) + value_aliases(*tree, fv, kind, rel_path@, start),
{
    let ghost t = *tree;
    let ghost base = sviews(aliases@);
    let k = tree.node(fv).kind;
    if k == NodeKind::Scalar {
        let name = lossy_string(tree.node_text(fv));
        if !name.as_str().is_empty() {
            push_alias(aliases, name, kind, rel_path, start);
            assert(sviews(aliases@) =~= base + value_aliases(t, fv, kind, rel_path@, start));
        } else {
            assert(sviews(aliases@) =~= base + value_aliases(t, fv, kind, rel_path@, start));
        }
    } else if k == NodeKind::Block || k == NodeKind::TaggedBlock {
        let items = tree.children(fv);
        let mut j: usize = 0;
        while j < items.len()
            invariant
                t == *tree,
                okn(t, fv),
                items@ == nkids(t, fv),
                j <= items@.len(),
                sviews(aliases@) == base + item_aliases(t, items@.take(j as int), kind, rel_path@, start),
            decreases items@.len() - j,
        {
            proof {
                lemma_kid(t, fv, j as int);
                assert(items@.take(j as int + 1).drop_last() =~= items@.take(j as int));
            }
            let it = items[j];
            if tree.node(it).kind == NodeKind::Scalar {
                let name = lossy_string(tree.node_text(it));
                if !name.as_str().is_empty() {
                    push_alias(aliases, name, kind, rel_path, start);
                }
            }
            j += 1;
        }
        assert(items@.take(items@.len() as int) =~= items@);
    } else {
        assert(sviews(aliases@) =~= base + value_aliases(t, fv, kind, rel_path@, start));
    }
}

/// Records the definition (and any aliases) for the node `n`, if it is a
/// `NAME = { … }` field.
fn harvest_def(
    tree: &SyntaxTree,
    n: NodeId,
    kind: KindId,
    rel_path: &str,
    schema: &Schema,
    defs: &mut Vec<Symbol>,
    aliases: &mut Vec<Symbol>,
)
    requires
        okn(*tree, n),
    ensures
        sviews(final(defs)@) == sviews(old(defs)@) + spec_harvest_def(
            *tree,
            n,
            kind,
            rel_path@,
            last_aliases(schema.spec_alias_list(), kind@),
        ).0,
        sviews(final(aliases)@) == sviews(old(aliases)@) + spec_harvest_def(
            *tree,
            n,
            kind,
            rel_path@,
            last_aliases(schema.spec_alias_list(), kind@),
        ).1,
{
    reveal(spec_harvest_def);
    let ghost t = *tree;
    let ghost dbase = sviews(defs@);
    let ghost abase = sviews(aliases@);
    let ghost spec = spec_harvest_def(t, n, kind, rel_path@, last_aliases(schema.spec_alias_list(), kind@));
    let node = *tree.node(n);
    if node.kind != NodeKind::Field {
        assert(sviews(defs@) =~= dbase + spec.0);
        assert(sviews(aliases@) =~= abase + spec.1);
        return;
    }
    let children = tree.child_ids(n);
    if children.len() != 2 {
        assert(sviews(defs@) =~= dbase + spec.0);
        assert(sviews(aliases@) =~= abase + spec.1);
        return;
    }
    proof {
        lemma_kid(t, n, 0);
        lemma_kid(t, n, 1);
    }
    let key_id = children[0];
    let value_id = children[1];
    let vk = tree.node(value_id).kind;
    if vk != NodeKind::Block && vk != NodeKind::TaggedBlock {
        assert(sviews(defs@) =~= dbase + spec.0);
        assert(sviews(aliases@) =~= abase + spec.1);
        return;
    }
    let params = params_of(tree, value_id);
    let sym = Symbol {
        name: lossy_string(tree.node_text(key_id)),
        kind,
        file: path_string(rel_path),
        offset: node.range.start,
        end_offset: tree.node(key_id).range.end,
        params,
    };
    defs.push(sym);
    assert(sviews(defs@) =~= dbase + spec.0);
    match schema.alias_keys(kind) {
        None => {
            assert(sviews(aliases@) =~= abase + spec.1);
        },
        Some(alias_keys) => {
            let mut i: usize = 0;
            while i < alias_keys.len()
                invariant
                    t == *tree,
                    okn(t, value_id),
                    value_id == nkids(t, n)[1],
                    i <= alias_keys@.len(),
                    sviews(aliases@) == abase + keys_aliases(t, value_id, alias_keys@.take(i as int), kind, rel_path@, node.range.start),
                decreases alias_keys@.len() - i,
            {
                assert(alias_keys@.take(i as int + 1).drop_last() =~= alias_keys@.take(i as int));
                let ghost before = sviews(aliases@);
                match direct_field_node(tree, value_id, alias_keys[i].as_bytes()) {
                    Some(fv) => {
                        harvest_value_aliases(tree, fv, kind, rel_path, node.range.start, aliases);
                    },
                    None => {
                        assert(sviews(aliases@) =~= before + Seq::<SymbolView>::empty());
                    },
                }
                i += 1;
            }
            assert(alias_keys@.take(alias_keys@.len() as int) =~= alias_keys@);
        },
    }
}


/// One of `names` is, byte for byte, `key`.
pub open spec fn key_in(names: Seq<&'static str>, key: Seq<u8>) -> bool {
    exists|i: int| 0 <= i < names.len() && names[i].spec_bytes() == key
}

fn key_in_exec(names: &[&'static str], key: &[u8]) -> (r: bool)
    ensures
        r == key_in(names@, key@),
{
    let mut i: usize = 0;
    while i < names.len()
        invariant
            i <= names@.len(),
            forall|k: int| 0 <= k < i ==> names@[k].spec_bytes() != key@,
        decreases names@.len() - i,
    {
        if slice_eq(names[i].as_bytes(), key) {
            return true;
        }
        i += 1;
    }
    false
}

/// `n` is a `NAME = { … }` field whose key names a container.
pub open spec fn is_container(t: SyntaxTree, n: NodeId, cs: Seq<&'static str>) -> bool {
    is_block_def(t, n) && key_in(cs, ntext(t, nkids(t, n)[0]))
}

fn is_container_field(tree: &SyntaxTree, n: NodeId, containers: &[&'static str]) -> (r: bool)
    requires
        okn(*tree, n),
    ensures
        r == is_container(*tree, n, containers@),
{
    if tree.node(n).kind != NodeKind::Field {
        return false;
    }
    let kids = tree.child_ids(n);
    if kids.len() != 2 {
        return false;
    }
    proof {
        lemma_kid(*tree, n, 0);
        lemma_kid(*tree, n, 1);
    }
    let vk = tree.node(kids[1]).kind;
    key_in_exec(containers, tree.node_text(kids[0])) && (vk == NodeKind::Block || vk == NodeKind::TaggedBlock)
}

/// Definitions that are the block children of named container blocks found
/// anywhere under `n` (containers may nest; a nested container is descended
/// into, not harvested).
pub open spec fn container_defs(t: SyntaxTree, n: NodeId, cs: Seq<&'static str>, kind: KindId, rel: Seq<char>, al: Option<&'static [&'static str]>) -> (Seq<SymbolView>, Seq<SymbolView>)
    decreases t.rank()[n@ as int], 2nat, 0int,
{
    if !okn(t, n) {
        none2()
    } else if is_container(t, n, cs) {
        proof {
            lemma_kid(t, n, 1);
        }
        container_items(t, nkids(t, n)[1], 0, cs, kind, rel, al)
    } else {
        container_kids(t, n, 0, cs, kind, rel, al)
    }
}

/// The items of a container body from the `j`-th on.
pub open spec fn container_items(t: SyntaxTree, b: NodeId, j: int, cs: Seq<&'static str>, kind: KindId, rel: Seq<char>, al: Option<&'static [&'static str]>) -> (Seq<SymbolView>, Seq<SymbolView>)
    decreases t.rank()[b@ as int], 1nat, nkids(t, b).len() - j,
{
    if !okn(t, b) || j < 0 || j >= nkids(t, b).len() {
        none2()
    } else {
        proof {
            lemma_kid(t, b, j);
        }
        let c = nkids(t, b)[j];
        let here = if is_container(t, c, cs) {
            container_defs(t, c, cs, kind, rel, al)
        } else {
            spec_harvest_def(t, c, kind, rel, al)
        };
        cat2(here, container_items(t, b, j + 1, cs, kind, rel, al))
    }
}

/// The container definitions under the children of `p` from the `j`-th on.
pub open spec fn container_kids(t: SyntaxTree, p: NodeId, j: int, cs: Seq<&'static str>, kind: KindId, rel: Seq<char>, al: Option<&'static [&'static str]>) -> (Seq<SymbolView>, Seq<SymbolView>)
    decreases t.rank()[p@ as int], 1nat, nkids(t, p).len() - j,
{
    if !okn(t, p) || j < 0 || j >= nkids(t, p).len() {
        none2()
    } else {
        proof {
            lemma_kid(t, p, j);
        }
        cat2(container_defs(t, nkids(t, p)[j], cs, kind, rel, al), container_kids(t, p, j + 1, cs, kind, rel, al))
    }
}

fn harvest_container_defs(
    tree: &SyntaxTree,
    n: NodeId,
    containers: &[&'static str],
    kind: KindId,
    rel_path: &str,
    schema: &Schema,
    defs: &mut Vec<Symbol>,
    aliases: &mut Vec<Symbol>,
)
    requires
        okn(*tree, n),
    ensures
        sviews(final(defs)@) == sviews(old(defs)@) + container_defs(*tree, n, containers@, kind, rel_path@, last_aliases(schema.spec_alias_list(), kind@)).0,
        sviews(final(aliases)@) == sviews(old(aliases)@) + container_defs(*tree, n, containers@, kind, rel_path@, last_aliases(schema.spec_alias_list(), kind@)).1,
    decreases tree.rank()[n@ as int], 2nat, 0int,
{
    let ghost t = *tree;
    let ghost al = last_aliases(schema.spec_alias_list(), kind@);
    let ghost cs = containers@;
    let ghost target = cat2((sviews(defs@), sviews(aliases@)), container_defs(t, n, cs, kind, rel_path@, al));
    if is_container_field(tree, n, containers) {
        let body = tree.child_ids(n)[1];
        proof {
            lemma_kid(t, n, 1);
        }
        let items = tree.children(body);
        let mut j: usize = 0;
        while j < items.len()
            invariant
                t == *tree,
                cs == containers@,
                al == last_aliases(schema.spec_alias_list(), kind@),
                okn(t, body),
                t.rank()[body@ as int] < t.rank()[n@ as int],
                items@ == nkids(t, body),
                j <= items@.len(),
                sviews(defs@) + container_items(t, body, j as int, cs, kind, rel_path@, al).0 == target.0,
                sviews(aliases@) + container_items(t, body, j as int, cs, kind, rel_path@, al).1 == target.1,
            decreases items@.len() - j,
        {
            proof {
                lemma_kid(t, body, j as int);
            }
            let c = items[j];
            let ghost bd = sviews(defs@);
            let ghost ba = sviews(aliases@);
            if is_container_field(tree, c, containers) {
                harvest_container_defs(tree, c, containers, kind, rel_path, schema, defs, aliases);
            } else {
                harvest_def(tree, c, kind, rel_path, schema, defs, aliases);
            }
            proof {
                let here = if is_container(t, c, cs) {
                    container_defs(t, c, cs, kind, rel_path@, al)
                } else {
                    spec_harvest_def(t, c, kind, rel_path@, al)
                };
                let rest = container_items(t, body, j + 1, cs, kind, rel_path@, al);
                assert(sviews(defs@) == bd + here.0);
                assert(container_items(t, body, j as int, cs, kind, rel_path@, al) == cat2(here, rest));
                assert(sviews(defs@) + rest.0 =~= bd + (here.0 + rest.0));
                assert(sviews(aliases@) + rest.1 =~= ba + (here.1 + rest.1));
            }
            j += 1;
        }
        assert(sviews(defs@) =~= sviews(defs@) + Seq::<SymbolView>::empty());
        assert(sviews(aliases@) =~= sviews(aliases@) + Seq::<SymbolView>::empty());
        return;
    }
    let kids = tree.children(n);
    let mut j: usize = 0;
    while j < kids.len()
        invariant
            t == *tree,
            cs == containers@,
            al == last_aliases(schema.spec_alias_list(), kind@),
            okn(t, n),
            kids@ == nkids(t, n),
            j <= kids@.len(),
            sviews(defs@) + container_kids(t, n, j as int, cs, kind, rel_path@, al).0 == target.0,
            sviews(aliases@) + container_kids(t, n, j as int, cs, kind, rel_path@, al).1 == target.1,
        decreases kids@.len() - j,
    {
        proof {
            lemma_kid(t, n, j as int);
        }
        let ghost bd = sviews(defs@);
        let ghost ba = sviews(aliases@);
        harvest_container_defs(tree, kids[j], containers, kind, rel_path, schema, defs, aliases);
        proof {
            let here = container_defs(t, kids@[j as int], cs, kind, rel_path@, al);
            let rest = container_kids(t, n, j + 1, cs, kind, rel_path@, al);
            assert(sviews(defs@) + rest.0 =~= bd + (here.0 + rest.0));
            assert(sviews(aliases@) + rest.1 =~= ba + (here.1 + rest.1));
        }
        j += 1;
    }
    assert(sviews(defs@) =~= sviews(defs@) + Seq::<SymbolView>::empty());
    assert(sviews(aliases@) =~= sviews(aliases@) + Seq::<SymbolView>::empty());
}

/// Definitions that are the block-valued children of the group block `n`,
/// except the excluded group attributes.
pub open spec fn grouped_defs(t: SyntaxTree, n: NodeId, excl: Seq<&'static str>, kind: KindId, rel: Seq<char>, al: Option<&'static [&'static str]>) -> (Seq<SymbolView>, Seq<SymbolView>) {
    if !is_block_def(t, n) {
        none2()
    } else {
        grouped_items(t, nkids(t, n)[1], nkids(t, nkids(t, n)[1]), excl, kind, rel, al)
    }
}

/// The grouped definitions among `items`.
pub open spec fn grouped_items(t: SyntaxTree, b: NodeId, items: Seq<NodeId>, excl: Seq<&'static str>, kind: KindId, rel: Seq<char>, al: Option<&'static [&'static str]>) -> (Seq<SymbolView>, Seq<SymbolView>)
    decreases items.len(),
{
    if items.len() == 0 {
        none2()
    } else {
        let c = items.last();
        let here = if is_block_def(t, c) && !key_in(excl, ntext(t, nkids(t, c)[0])) {
            spec_harvest_def(t, c, kind, rel, al)
        } else {
            none2()
        };
        cat2(grouped_items(t, b, items.drop_last(), excl, kind, rel, al), here)
    }
}

fn harvest_grouped_defs(
    tree: &SyntaxTree,
    n: NodeId,
    exclude: &[&'static str],
    kind: KindId,
    rel_path: &str,
    schema: &Schema,
    defs: &mut Vec<Symbol>,
    aliases: &mut Vec<Symbol>,
)
    requires
        okn(*tree, n),
    ensures
        sviews(final(defs)@) == sviews(old(defs)@) + grouped_defs(*tree, n, exclude@, kind, rel_path@, last_aliases(schema.spec_alias_list(), kind@)).0,
        sviews(final(aliases)@) == sviews(old(aliases)@) + grouped_defs(*tree, n, exclude@, kind, rel_path@, last_aliases(schema.spec_alias_list(), kind@)).1,
{
    let ghost t = *tree;
    let ghost al = last_aliases(schema.spec_alias_list(), kind@);
    let ghost bd = sviews(defs@);
    let ghost ba = sviews(aliases@);
    if !(tree.node(n).kind == NodeKind::Field) || tree.child_ids(n).len() != 2 {
        assert(sviews(defs@) =~= bd + Seq::<SymbolView>::empty());
        assert(sviews(aliases@) =~= ba + Seq::<SymbolView>::empty());
        return;
    }
    proof {
        lemma_kid(t, n, 1);
    }
    let group_body = tree.child_ids(n)[1];
    let gk = tree.node(group_body).kind;
    if gk != NodeKind::Block && gk != NodeKind::TaggedBlock {
        assert(sviews(defs@) =~= bd + Seq::<SymbolView>::empty());
        assert(sviews(aliases@) =~= ba + Seq::<SymbolView>::empty());
        return;
    }
    let items = tree.children(group_body);
    let mut j: usize = 0;
    while j < items.len()
        invariant
            t == *tree,
            al == last_aliases(schema.spec_alias_list(), kind@),
            okn(t, group_body),
            items@ == nkids(t, group_body),
            j <= items@.len(),
            sviews(defs@) == bd + grouped_items(t, group_body, items@.take(j as int), exclude@, kind, rel_path@, al).0,
            sviews(aliases@) == ba + grouped_items(t, group_body, items@.take(j as int), exclude@, kind, rel_path@, al).1,
        decreases items@.len() - j,
    {
        proof {
            lemma_kid(t, group_body, j as int);
            assert(items@.take(j as int + 1).drop_last() =~= items@.take(j as int));
        }
        let c = items[j];
        let ghost pd = sviews(defs@);
        let ghost pa = sviews(aliases@);
        let mut harvest = false;
        if tree.node(c).kind == NodeKind::Field {
            let kids = tree.child_ids(c);
            if kids.len() == 2 {
                proof {
                    lemma_kid(t, c, 0);
                    lemma_kid(t, c, 1);
                }
                let vk = tree.node(kids[1]).kind;
                if (vk == NodeKind::Block || vk == NodeKind::TaggedBlock) && !key_in_exec(exclude, tree.node_text(kids[0])) {
                    harvest = true;
                }
            }
        }
        if harvest {
            harvest_def(tree, c, kind, rel_path, schema, defs, aliases);
        }
        proof {
            let here = if is_block_def(t, c) && !key_in(exclude@, ntext(t, nkids(t, c)[0])) {
                spec_harvest_def(t, c, kind, rel_path@, al)
            } else {
                none2()
            };
            assert(sviews(defs@) =~= pd + here.0);
            assert(sviews(aliases@) =~= pa + here.1);
            assert(bd + (grouped_items(t, group_body, items@.take(j as int), exclude@, kind, rel_path@, al).0 + here.0) =~= pd + here.0);
            assert(ba + (grouped_items(t, group_body, items@.take(j as int), exclude@, kind, rel_path@, al).1 + here.1) =~= pa + here.1);
        }
        j += 1;
    }
    assert(items@.take(items@.len() as int) =~= items@);
}

/// `b` opens with `@`.
pub open spec fn at_sign_first(b: Seq<u8>) -> bool {
    b.len() > 0 && b[0] == 64u8
}

/// `NAMESPACE = { FIELD = value … }` fields as `NAMESPACE<sep>FIELD`
/// definitions spanning each FIELD key (nothing for an `@` namespace or an
/// `@` field key; only a plain block qualifies).
pub open spec fn qualified_defs(t: SyntaxTree, n: NodeId, sep: Seq<char>, kind: KindId, rel: Seq<char>) -> Seq<SymbolView> {
    if !(okn(t, n) && is_pair(t, n) && nkind(t, nkids(t, n)[1]) is Block) {
        Seq::empty()
    } else {
        let ns = lossy_text(ntext(t, nkids(t, n)[0]));
        if ns.len() > 0 && ns[0] == '@' {
            Seq::empty()
        } else {
            qualified_items(t, nkids(t, nkids(t, n)[1]), ns, sep, kind, rel)
        }
    }
}

/// The qualified definitions among `items`.
pub open spec fn qualified_items(t: SyntaxTree, items: Seq<NodeId>, ns: Seq<char>, sep: Seq<char>, kind: KindId, rel: Seq<char>) -> Seq<SymbolView>
    decreases items.len(),
{
    if items.len() == 0 {
        Seq::empty()
    } else {
        let prev = qualified_items(t, items.drop_last(), ns, sep, kind, rel);
        let c = items.last();
        if is_pair(t, c) && !at_sign_first(ntext(t, nkids(t, c)[0])) {
            let k = nkids(t, c)[0];
            prev.push(plain_symbol(ns + sep + lossy_text(ntext(t, k)), kind@, rel, nstart(t, k), nend(t, k)))
        } else {
            prev
        }
    }
}

fn harvest_qualified_fields(tree: &SyntaxTree, n: NodeId, separator: &str, kind: KindId, rel_path: &str, defs: &mut Vec<Symbol>)
    requires
        okn(*tree, n),
    ensures
        sviews(final(defs)@) == sviews(old(defs)@) + qualified_defs(*tree, n, separator@, kind, rel_path@),
{
    let ghost t = *tree;
    let ghost bd = sviews(defs@);
    if tree.node(n).kind != NodeKind::Field || tree.child_ids(n).len() != 2 {
        assert(sviews(defs@) =~= bd + Seq::<SymbolView>::empty());
        return;
    }
    proof {
        lemma_kid(t, n, 0);
        lemma_kid(t, n, 1);
    }
    let outer = tree.child_ids(n);
    if tree.node(outer[1]).kind != NodeKind::Block {
        assert(sviews(defs@) =~= bd + Seq::<SymbolView>::empty());
        return;
    }
    let namespace = lossy_string(tree.node_text(outer[0]));
    if !namespace.as_str().is_empty() && namespace.as_str().get_char(0) == '@' {
        assert(sviews(defs@) =~= bd + Seq::<SymbolView>::empty());
        return;
    }
    let body = outer[1];
    let items = tree.children(body);
    let mut j: usize = 0;
    while j < items.len()
        invariant
            t == *tree,
            okn(t, body),
            items@ == nkids(t, body),
            j <= items@.len(),
            sviews(defs@) == bd + qualified_items(t, items@.take(j as int), namespace@, separator@, kind, rel_path@),
        decreases items@.len() - j,
    {
        proof {
            lemma_kid(t, body, j as int);
            assert(items@.take(j as int + 1).drop_last() =~= items@.take(j as int));
        }
        let c = items[j];
        if tree.node(c).kind == NodeKind::Field {
            let kids = tree.child_ids(c);
            if kids.len() == 2 {
                proof {
                    lemma_kid(t, c, 0);
                }
                let key = tree.node_text(kids[0]);
                if !(key.len() > 0 && key[0] == 64u8) {
                    let mut name = String::from_str(namespace.as_str());
                    name.append(separator);
                    let kname = lossy_string(key);
                    name.append(kname.as_str());
                    let kr = tree.node(kids[0]).range;
                    let sym = Symbol { name, kind, file: path_string(rel_path), offset: kr.start, end_offset: kr.end, params: Vec::new() };
                    assert(sym@.params =~= Seq::<Seq<char>>::empty());
                    let ghost before = sviews(defs@);
                    defs.push(sym);
                    assert(sviews(defs@) =~= before.push(sym@));
                }
            }
        }
        j += 1;
    }
    assert(items@.take(items@.len() as int) =~= items@);
}


/// Script-constant definitions (`@name = value`) at any depth under `n`; a
/// constant's own value is not searched further.
pub open spec fn constant_defs(t: SyntaxTree, n: NodeId, rel: Seq<char>) -> Seq<SymbolView>
    decreases t.rank()[n@ as int], 1nat, 0int,
{
    if !okn(t, n) {
        Seq::empty()
    } else if is_pair(t, n) && at_sign_first(ntext(t, nkids(t, n)[0])) {
        let k = nkids(t, n)[0];
        seq![plain_symbol(lossy_text(ntext(t, k)), "script_constant"@, rel, nstart(t, n), nend(t, k))]
    } else {
        constant_kids(t, n, 0, rel)
    }
}

/// The constant definitions under the children of `p` from the `j`-th on.
pub open spec fn constant_kids(t: SyntaxTree, p: NodeId, j: int, rel: Seq<char>) -> Seq<SymbolView>
    decreases t.rank()[p@ as int], 0nat, nkids(t, p).len() - j,
{
    if !okn(t, p) || j < 0 || j >= nkids(t, p).len() {
        Seq::empty()
    } else {
        proof {
            lemma_kid(t, p, j);
        }
        constant_defs(t, nkids(t, p)[j], rel) + constant_kids(t, p, j + 1, rel)
    }
}

fn harvest_constant_defs(tree: &SyntaxTree, n: NodeId, rel_path: &str, out: &mut Vec<Symbol>)
    requires
        okn(*tree, n),
    ensures
        sviews(final(out)@) == sviews(old(out)@) + constant_defs(*tree, n, rel_path@),
    decreases tree.rank()[n@ as int], 1nat, 0int,
{
    let ghost t = *tree;
    let ghost target = sviews(out@) + constant_defs(t, n, rel_path@);
    let node = *tree.node(n);
    if node.kind == NodeKind::Field {
        let children = tree.child_ids(n);
        if children.len() == 2 {
            proof {
                lemma_kid(t, n, 0);
            }
            let key = tree.node_text(children[0]);
            if key.len() > 0 && key[0] == 64u8 {
                let sym = Symbol {
                    name: lossy_string(key),
                    kind: script_constant(),
                    file: path_string(rel_path),
                    offset: node.range.start,
                    end_offset: tree.node(children[0]).range.end,
                    params: Vec::new(),
                };
                assert(sym@.params =~= Seq::<Seq<char>>::empty());
                let ghost before = sviews(out@);
                out.push(sym);
                assert(sviews(out@) =~= before.push(sym@));
                return;
            }
        }
    }
    let kids = tree.children(n);
    let mut j: usize = 0;
    while j < kids.len()
        invariant
            t == *tree,
            okn(t, n),
            kids@ == nkids(t, n),
            j <= kids@.len(),
            sviews(out@) + constant_kids(t, n, j as int, rel_path@) == target,
        decreases kids@.len() - j,
    {
        proof {
            lemma_kid(t, n, j as int);
        }
        let ghost before = sviews(out@);
        harvest_constant_defs(tree, kids[j], rel_path, out);
        assert(sviews(out@) + constant_kids(t, n, j + 1, rel_path@) =~= before + constant_kids(t, n, j as int, rel_path@));
        j += 1;
    }
    assert(sviews(out@) =~= sviews(out@) + constant_kids(t, n, j as int, rel_path@));
}

/// The kind a `KEY = scalar` field defines through its key, when it is one.
pub open spec fn nested_value_kind(t: SyntaxTree, n: NodeId, schema: Schema) -> Option<KindId> {
    if is_pair(t, n) && nkind(t, nkids(t, n)[1]) is Scalar {
        last_by_bytes(schema.spec_nested_value_defs(), ntext(t, nkids(t, n)[0]))
    } else {
        None
    }
}

/// Nested keyed-value definitions at any depth under `n`: a `KEY = value`
/// field whose key is registered defines its (unquoted) scalar value, and is
/// not searched further.
pub open spec fn nested_value_defs(t: SyntaxTree, n: NodeId, rel: Seq<char>, schema: Schema) -> Seq<SymbolView>
    decreases t.rank()[n@ as int], 1nat, 0int,
{
    if !okn(t, n) {
        Seq::empty()
    } else if nested_value_kind(t, n, schema) is Some {
        let v = nkids(t, n)[1];
        seq![plain_symbol(
            lossy_text(spec_trim_quotes(ntext(t, v))),
            nested_value_kind(t, n, schema)->0@,
            rel,
            nstart(t, v),
            nend(t, v),
        )]
    } else {
        nested_value_kids(t, n, 0, rel, schema)
    }
}

/// The nested keyed-value definitions under the children of `p` from the
/// `j`-th on.
pub open spec fn nested_value_kids(t: SyntaxTree, p: NodeId, j: int, rel: Seq<char>, schema: Schema) -> Seq<SymbolView>
    decreases t.rank()[p@ as int], 0nat, nkids(t, p).len() - j,
{
    if !okn(t, p) || j < 0 || j >= nkids(t, p).len() {
        Seq::empty()
    } else {
        proof {
            lemma_kid(t, p, j);
        }
        nested_value_defs(t, nkids(t, p)[j], rel, schema) + nested_value_kids(t, p, j + 1, rel, schema)
    }
}

fn harvest_nested_value_defs(tree: &SyntaxTree, n: NodeId, rel_path: &str, schema: &Schema, out: &mut Vec<Symbol>)
    requires
        okn(*tree, n),
    ensures
        sviews(final(out)@) == sviews(old(out)@) + nested_value_defs(*tree, n, rel_path@, *schema),
    decreases tree.rank()[n@ as int], 1nat, 0int,
{
    let ghost t = *tree;
    let ghost target = sviews(out@) + nested_value_defs(t, n, rel_path@, *schema);
    if tree.node(n).kind == NodeKind::Field {
        let children = tree.child_ids(n);
        if children.len() == 2 {
            proof {
                lemma_kid(t, n, 0);
                lemma_kid(t, n, 1);
            }
            let value_id = children[1];
            if tree.node(value_id).kind == NodeKind::Scalar {
                if let Some(kind) = schema.nested_value_def_kind_bytes(tree.node_text(children[0])) {
                    let r = tree.node(value_id).range;
                    let sym = Symbol {
                        name: lossy_string(trim_quotes(tree.node_text(value_id))),
                        kind,
                        file: path_string(rel_path),
                        offset: r.start,
                        end_offset: r.end,
                        params: Vec::new(),
                    };
                    assert(sym@.params =~= Seq::<Seq<char>>::empty());
                    let ghost before = sviews(out@);
                    out.push(sym);
                    assert(sviews(out@) =~= before.push(sym@));
                    return;
                }
            }
        }
    }
    let kids = tree.children(n);
    let mut j: usize = 0;
    while j < kids.len()
        invariant
            t == *tree,
            okn(t, n),
            kids@ == nkids(t, n),
            j <= kids@.len(),
            sviews(out@) + nested_value_kids(t, n, j as int, rel_path@, *schema) == target,
        decreases kids@.len() - j,
    {
        proof {
            lemma_kid(t, n, j as int);
        }
        let ghost before = sviews(out@);
        harvest_nested_value_defs(tree, kids[j], rel_path, schema, out);
        assert(sviews(out@) + nested_value_kids(t, n, j + 1, rel_path@, *schema)
            =~= before + nested_value_kids(t, n, j as int, rel_path@, *schema));
        j += 1;
    }
    assert(sviews(out@) =~= sviews(out@) + nested_value_kids(t, n, j as int, rel_path@, *schema));
}

/// Some prefix is a byte prefix of `key`.
pub open spec fn has_prefix_in(prefixes: Seq<&'static str>, key: Seq<u8>) -> bool {
    exists|i: int| 0 <= i < prefixes.len() && bytes_start_with(key, prefixes[i].spec_bytes())
}

fn has_prefix_exec(prefixes: &[&'static str], key: &[u8]) -> (r: bool)
    ensures
        r == has_prefix_in(prefixes@, key@),
{
    let mut i: usize = 0;
    while i < prefixes.len()
        invariant
            i <= prefixes@.len(),
            forall|k: int| 0 <= k < i ==> !bytes_start_with(key@, prefixes@[k].spec_bytes()),
        decreases prefixes@.len() - i,
    {
        if slice_starts_with(key, prefixes[i].as_bytes()) {
            return true;
        }
        i += 1;
    }
    false
}

/// Tree-shaped definitions (landed titles): a `KEY = { … }` field whose key
/// starts with a definition prefix is a definition (from the field's start to
/// the key's end, no parameters), and its block is searched for more.
pub open spec fn nested_defs(t: SyntaxTree, n: NodeId, prefixes: Seq<&'static str>, kind: KindId, rel: Seq<char>) -> Seq<SymbolView>
    decreases t.rank()[n@ as int], 1nat, 0int,
{
    if !is_block_def(t, n) || !has_prefix_in(prefixes, ntext(t, nkids(t, n)[0])) {
        Seq::empty()
    } else {
        proof {
            lemma_kid(t, n, 1);
        }
        let k = nkids(t, n)[0];
        seq![plain_symbol(lossy_text(ntext(t, k)), kind@, rel, nstart(t, n), nend(t, k))] + nested_kids(
            t,
            nkids(t, n)[1],
            0,
            prefixes,
            kind,
            rel,
        )
    }
}

/// The tree-shaped definitions under the children of `p` from the `j`-th on.
pub open spec fn nested_kids(t: SyntaxTree, p: NodeId, j: int, prefixes: Seq<&'static str>, kind: KindId, rel: Seq<char>) -> Seq<SymbolView>
    decreases t.rank()[p@ as int], 0nat, nkids(t, p).len() - j,
{
    if !okn(t, p) || j < 0 || j >= nkids(t, p).len() {
        Seq::empty()
    } else {
        proof {
            lemma_kid(t, p, j);
        }
        nested_defs(t, nkids(t, p)[j], prefixes, kind, rel) + nested_kids(t, p, j + 1, prefixes, kind, rel)
    }
}

fn harvest_nested_defs(tree: &SyntaxTree, n: NodeId, prefixes: &[&'static str], kind: KindId, rel_path: &str, out: &mut Vec<Symbol>)
    requires
        okn(*tree, n),
    ensures
        sviews(final(out)@) == sviews(old(out)@) + nested_defs(*tree, n, prefixes@, kind, rel_path@),
    decreases tree.rank()[n@ as int], 1nat, 0int,
{
    let ghost t = *tree;
    let ghost base = sviews(out@);
    let node = *tree.node(n);
    if node.kind != NodeKind::Field || tree.child_ids(n).len() != 2 {
        assert(sviews(out@) =~= base + nested_defs(t, n, prefixes@, kind, rel_path@));
        return;
    }
    proof {
        lemma_kid(t, n, 0);
        lemma_kid(t, n, 1);
    }
    let children = tree.child_ids(n);
    let key_id = children[0];
    let value_id = children[1];
    let vk = tree.node(value_id).kind;
    if vk != NodeKind::Block && vk != NodeKind::TaggedBlock {
        assert(sviews(out@) =~= base + nested_defs(t, n, prefixes@, kind, rel_path@));
        return;
    }
    let key = tree.node_text(key_id);
    if !has_prefix_exec(prefixes, key) {
        assert(sviews(out@) =~= base + nested_defs(t, n, prefixes@, kind, rel_path@));
        return;
    }
    let sym = Symbol {
        name: lossy_string(key),
        kind,
        file: path_string(rel_path),
        offset: node.range.start,
        end_offset: tree.node(key_id).range.end,
        params: Vec::new(),
    };
    assert(sym@.params =~= Seq::<Seq<char>>::empty());
    out.push(sym);
    let ghost target = base + nested_defs(t, n, prefixes@, kind, rel_path@);
    assert(sviews(out@) + nested_kids(t, value_id, 0, prefixes@, kind, rel_path@) =~= target);
    let kids = tree.children(value_id);
    let mut j: usize = 0;
    while j < kids.len()
        invariant
            t == *tree,
            okn(t, value_id),
            kids@ == nkids(t, value_id),
            j <= kids@.len(),
            sviews(out@) + nested_kids(t, value_id, j as int, prefixes@, kind, rel_path@) == target,
            t.rank()[value_id@ as int] < t.rank()[n@ as int],
        decreases kids@.len() - j,
    {
        proof {
            lemma_kid(t, value_id, j as int);
        }
        let ghost before = sviews(out@);
        harvest_nested_defs(tree, kids[j], prefixes, kind, rel_path, out);
        assert(sviews(out@) + nested_kids(t, value_id, j + 1, prefixes@, kind, rel_path@) =~= before + nested_kids(t, value_id, j as int, prefixes@, kind, rel_path@));
        j += 1;
    }
    assert(sviews(out@) =~= sviews(out@) + nested_kids(t, value_id, j as int, prefixes@, kind, rel_path@));
}

/// The kind a top-level `KEY = value` field defines through its key.
pub open spec fn spec_keyed_value_kind(t: SyntaxTree, n: NodeId, schema: Schema) -> Option<KindId> {
    if nkids(t, n).len() != 2 {
        None
    } else {
        last_by_bytes(schema.spec_keyed_value_defs(), ntext(t, nkids(t, n)[0]))
    }
}

fn keyed_value_kind(tree: &SyntaxTree, n: NodeId, schema: &Schema) -> (r: Option<KindId>)
    requires
        okn(*tree, n),
    ensures
        r == spec_keyed_value_kind(*tree, n, *schema),
{
    let children = tree.child_ids(n);
    if children.len() != 2 {
        return None;
    }
    proof {
        lemma_kid(*tree, n, 0);
    }
    schema.keyed_value_def_kind_bytes(tree.node_text(children[0]))
}

/// A keyed-value definition: the scalar value of `KEY = value` (quotes
/// stripped), spanning the value.
pub open spec fn keyed_def(t: SyntaxTree, n: NodeId, kind: KindId, rel: Seq<char>) -> Seq<SymbolView> {
    if !(okn(t, n) && nkids(t, n).len() == 2 && nkind(t, nkids(t, n)[1]) is Scalar) {
        Seq::empty()
    } else {
        let v = nkids(t, n)[1];
        seq![plain_symbol(lossy_text(spec_trim_quotes(ntext(t, v))), kind@, rel, nstart(t, v), nend(t, v))]
    }
}

fn harvest_keyed_value_def(tree: &SyntaxTree, n: NodeId, kind: KindId, rel_path: &str, out: &mut Vec<Symbol>)
    requires
        okn(*tree, n),
    ensures
        sviews(final(out)@) == sviews(old(out)@) + keyed_def(*tree, n, kind, rel_path@),
{
    let ghost base = sviews(out@);
    let children = tree.child_ids(n);
    if children.len() != 2 {
        assert(sviews(out@) =~= base + keyed_def(*tree, n, kind, rel_path@));
        return;
    }
    proof {
        lemma_kid(*tree, n, 1);
    }
    let value_id = children[1];
    if tree.node(value_id).kind != NodeKind::Scalar {
        assert(sviews(out@) =~= base + keyed_def(*tree, n, kind, rel_path@));
        return;
    }
    let r = tree.node(value_id).range;
    let sym = Symbol {
        name: lossy_string(trim_quotes(tree.node_text(value_id))),
        kind,
        file: path_string(rel_path),
        offset: r.start,
        end_offset: r.end,
        params: Vec::new(),
    };
    assert(sym@.params =~= Seq::<Seq<char>>::empty());
    out.push(sym);
    assert(sviews(out@) =~= base + keyed_def(*tree, n, kind, rel_path@));
}

/// A definition whose value may be a scalar or a block (script values),
/// carrying its value's parameters.
pub open spec fn valued_def(t: SyntaxTree, n: NodeId, kind: KindId, rel: Seq<char>) -> Seq<SymbolView> {
    if !(okn(t, n) && is_pair(t, n)) {
        Seq::empty()
    } else {
        let k = nkids(t, n)[0];
        seq![SymbolView {
            name: lossy_text(ntext(t, k)),
            kind: kind@,
            file: rel,
            offset: nstart(t, n),
            end_offset: nend(t, k),
            params: body_params(t, nkids(t, n)[1]),
        }]
    }
}

fn harvest_valued_def(tree: &SyntaxTree, n: NodeId, kind: KindId, rel_path: &str, out: &mut Vec<Symbol>)
    requires
        okn(*tree, n),
    ensures
        sviews(final(out)@) == sviews(old(out)@) + valued_def(*tree, n, kind, rel_path@),
{
    let ghost base = sviews(out@);
    let node = *tree.node(n);
    if node.kind != NodeKind::Field || tree.child_ids(n).len() != 2 {
        assert(sviews(out@) =~= base + valued_def(*tree, n, kind, rel_path@));
        return;
    }
    proof {
        lemma_kid(*tree, n, 0);
        lemma_kid(*tree, n, 1);
    }
    let children = tree.child_ids(n);
    let key_id = children[0];
    let params = params_of(tree, children[1]);
    let sym = Symbol {
        name: lossy_string(tree.node_text(key_id)),
        kind,
        file: path_string(rel_path),
        offset: node.range.start,
        end_offset: tree.node(key_id).range.end,
        params,
    };
    out.push(sym);
    assert(sviews(out@) =~= base + valued_def(*tree, n, kind, rel_path@));
}


// ---------------------------------------------------------------------------
// References.

/// The contents of some references.
pub open spec fn rviews(v: Seq<Ref>) -> Seq<RefView> {
    v.map_values(|r: Ref| r@)
}

/// The kinds of an alternate-kind list.
pub open spec fn alt_views(alt: &'static [KindId]) -> Seq<Seq<char>> {
    alt@.map_values(|k: KindId| k@)
}

/// A reference with the given content.
pub open spec fn ref_view(kind: KindId, alt: Seq<Seq<char>>, name: Seq<char>, path: Seq<char>, start: u32, end: u32) -> RefView {
    RefView { kind: kind@, alt, name, file: path, start, end }
}

/// A `$` directly follows node `v` in the source (a macro-interpolated
/// identifier that the lexer split).
pub open spec fn macro_follows(t: SyntaxTree, v: NodeId) -> bool {
    (nend(t, v) as int) < t.spec_source().len() && t.spec_source()[nend(t, v) as int] == 36u8
}

/// What recording the scalar `v` as a reference gives: its text without
/// surrounding quotes, unless a `$` follows it or the value is one never
/// resolved.
pub open spec fn spec_append_ref(t: SyntaxTree, kind: KindId, alt: Seq<Seq<char>>, v: NodeId, path: Seq<char>, schema: Schema) -> Seq<RefView> {
    let val = lossy_text(spec_trim_quotes(ntext(t, v)));
    if macro_follows(t, v) || spec_skips_value(schema.spec_scope_keywords(), vstd::utf8::encode_utf8(val)) {
        Seq::empty()
    } else {
        seq![ref_view(kind, alt, val, path, nstart(t, v), nend(t, v))]
    }
}

fn append_ref(
    tree: &SyntaxTree,
    kind: KindId,
    alt: &'static [KindId],
    v: NodeId,
    path: &str,
    schema: &Schema,
    refs: &mut Vec<Ref>,
)
    requires
        okn(*tree, v),
    ensures
        rviews(final(refs)@) == rviews(old(refs)@) + spec_append_ref(*tree, kind, alt_views(alt), v, path@, *schema),
{
    let ghost base = rviews(refs@);
    let value = *tree.node(v);
    let val = lossy_string(trim_quotes(tree.node_text(v)));
    let src = tree.source();
    let concat_macro = (value.range.end as usize) < src.len() && src[value.range.end as usize] == 36u8;
    if concat_macro || schema.skip_ref_value(val.as_str()) {
        assert(rviews(refs@) =~= base + spec_append_ref(*tree, kind, alt_views(alt), v, path@, *schema));
        return;
    }
    let r = Ref { kind, alt, name: val, file: path_string(path), start: value.range.start, end: value.range.end };
    refs.push(r);
    assert(rviews(refs@) =~= base + spec_append_ref(*tree, kind, alt_views(alt), v, path@, *schema));
}

/// The scope-literal reference the scalar `n` makes, trying the scope rules
/// from the `i`-th on: the first admitted rule whose `prefix:` opens the
/// text names what follows, up to the first `.`, unless that name is never
/// resolved or a `$` follows the whole scalar; the range covers the name.
pub open spec fn scope_ref_from(t: SyntaxTree, n: NodeId, rules: Seq<ScopeRule>, i: int, rel: Seq<u8>, path: Seq<char>, schema: Schema) -> Seq<RefView>
    decreases rules.len() - i,
{
    if i < 0 || i >= rules.len() {
        Seq::empty()
    } else {
        let rule = rules[i];
        let text = ntext(t, n);
        let pre = rule.prefix.spec_bytes();
        let plen = pre.len() as int;
        if !crate::schema::gate_admits(rule.gate, rel) || text.len() <= plen + 1 || !bytes_start_with(text, pre)
            || text[plen] != 58u8 {
            scope_ref_from(t, n, rules, i + 1, rel, path, schema)
        } else {
            let ns = plen + 1;
            let ne = find_byte_from(text, 46u8, ns);
            let name = lossy_text(text.subrange(ns, ne));
            if spec_skips_value(schema.spec_scope_keywords(), vstd::utf8::encode_utf8(name)) {
                scope_ref_from(t, n, rules, i + 1, rel, path, schema)
            } else if ne == text.len() && macro_follows(t, n) {
                scope_ref_from(t, n, rules, i + 1, rel, path, schema)
            } else {
                seq![ref_view(rule.kind, alt_views(rule.alt), name, path, (nstart(t, n) + ns) as u32, (nstart(t, n) + ne) as u32)]
            }
        }
    }
}

fn scan_prefix_refs(tree: &SyntaxTree, n: NodeId, rel_path: &str, path: &str, schema: &Schema, refs: &mut Vec<Ref>)
    requires
        okn(*tree, n),
    ensures
        rviews(final(refs)@) == rviews(old(refs)@) + scope_ref_from(*tree, n, schema.spec_scope_rule_list(), 0, rel_path.spec_bytes(), path@, *schema),
{
    let ghost t = *tree;
    let ghost base = rviews(refs@);
    let text = tree.node_text(n);
    let node = *tree.node(n);
    let rules = schema.scope_rules();
    let ghost target = base + scope_ref_from(t, n, rules@, 0, rel_path.spec_bytes(), path@, *schema);
    let mut i: usize = 0;
    while i < rules.len()
        invariant
            t == *tree,
            okn(t, n),
            node == t.spec_nodes()[n@ as int],
            text@ == ntext(t, n),
            i <= rules@.len(),
            rviews(refs@) == base,
            base == rviews(old(refs)@),
            rules@ == schema.spec_scope_rule_list(),
            target == base + scope_ref_from(t, n, rules@, 0, rel_path.spec_bytes(), path@, *schema),
            target == base + scope_ref_from(t, n, rules@, i as int, rel_path.spec_bytes(), path@, *schema),
        decreases rules@.len() - i,
    {
        let rule = rules[i];
        let prefix = rule.prefix.as_bytes();
        let plen = prefix.len();
        if !rule.applies(rel_path) || text.len() <= plen || text.len() - plen <= 1 || !slice_starts_with(text, prefix)
            || text[plen] != 58u8 {
            i += 1;
            continue;
        }
        let name_start = plen + 1;
        let name_end = slice_find_byte_from(text, 46u8, name_start);
        proof {
            lemma_find_byte_from(text@, 46u8, name_start as int);
        }
        let name = lossy_string(slice_range(text, name_start, name_end));
        if schema.skip_ref_value(name.as_str()) {
            i += 1;
            continue;
        }
        let src = tree.source();
        if name_end == text.len() && (node.range.end as usize) < src.len() && src[node.range.end as usize] == 36u8 {
            i += 1;
            continue;
        }
        proof {
            assert(t.in_bounds());
            assert(node.range.start <= node.range.end);
            assert(text@.len() == node.range.end - node.range.start);
        }
        let start = node.range.start + name_start as u32;
        let end = node.range.start + name_end as u32;
        let r = Ref { kind: rule.kind, alt: rule.alt, name, file: path_string(path), start, end };
        proof {
            let ns = name_start as int;
            let ne = name_end as int;
            assert(rules@[i as int] == rule);
            assert(text@.subrange(ns, ne) == slice_range_view(text@, ns, ne));
            assert(r@ == ref_view(rule.kind, alt_views(rule.alt), lossy_text(text@.subrange(ns, ne)), path@, (nstart(t, n) + ns) as u32, (nstart(t, n) + ne) as u32));
            assert(scope_ref_from(t, n, rules@, i as int, rel_path.spec_bytes(), path@, *schema) == seq![r@]);
        }
        refs.push(r);
        assert(rviews(refs@) =~= target);
        return;
    }
    assert(rviews(refs@) =~= target);
}

/// References from the loose scalar items among `items`.
pub open spec fn list_refs(t: SyntaxTree, items: Seq<NodeId>, kind: KindId, alt: Seq<Seq<char>>, path: Seq<char>, schema: Schema) -> Seq<RefView>
    decreases items.len(),
{
    if items.len() == 0 {
        Seq::empty()
    } else {
        list_refs(t, items.drop_last(), kind, alt, path, schema) + if nkind(t, items.last()) is Scalar {
            spec_append_ref(t, kind, alt, items.last(), path, schema)
        } else {
            Seq::empty()
        }
    }
}

/// References from the scalar keys of the fields among `items`.
pub open spec fn block_keys_refs(t: SyntaxTree, items: Seq<NodeId>, kind: KindId, alt: Seq<Seq<char>>, path: Seq<char>, schema: Schema) -> Seq<RefView>
    decreases items.len(),
{
    if items.len() == 0 {
        Seq::empty()
    } else {
        let it = items.last();
        block_keys_refs(t, items.drop_last(), kind, alt, path, schema) + if nkind(t, it) is Field && nkids(t, it).len()
            > 0 && nkind(t, nkids(t, it)[0]) is Scalar {
            spec_append_ref(t, kind, alt, nkids(t, it)[0], path, schema)
        } else {
            Seq::empty()
        }
    }
}

/// References from the values of the fields among `items`: a scalar value,
/// or the loose scalar items of a block value.
pub open spec fn block_values_refs(t: SyntaxTree, items: Seq<NodeId>, kind: KindId, alt: Seq<Seq<char>>, path: Seq<char>, schema: Schema) -> Seq<RefView>
    decreases items.len(),
{
    if items.len() == 0 {
        Seq::empty()
    } else {
        let it = items.last();
        block_values_refs(t, items.drop_last(), kind, alt, path, schema) + if nkind(t, it) is Field && nkids(t, it).len()
            > 1 {
            let v = nkids(t, it)[1];
            if nkind(t, v) is Scalar {
                spec_append_ref(t, kind, alt, v, path, schema)
            } else if nkind(t, v) is Block {
                list_refs(t, nkids(t, v), kind, alt, path, schema)
            } else {
                Seq::empty()
            }
        } else {
            Seq::empty()
        }
    }
}

/// References from the numeric-keyed entries among `items`
/// (`50 = ns.id`; a numeric value means none).
pub open spec fn weighted_refs(t: SyntaxTree, items: Seq<NodeId>, kind: KindId, alt: Seq<Seq<char>>, path: Seq<char>, schema: Schema) -> Seq<RefView>
    decreases items.len(),
{
    if items.len() == 0 {
        Seq::empty()
    } else {
        let f = items.last();
        weighted_refs(t, items.drop_last(), kind, alt, path, schema) + if is_pair(t, f) && nkind(t, nkids(t, f)[1]) is Scalar
            && spec_starts_with_digit(ntext(t, nkids(t, f)[0])) && !spec_starts_with_digit(ntext(t, nkids(t, f)[1])) {
            spec_append_ref(t, kind, alt, nkids(t, f)[1], path, schema)
        } else {
            Seq::empty()
        }
    }
}

/// `s[lo..hi]`.
pub open spec fn slice_range_view(s: Seq<u8>, lo: int, hi: int) -> Seq<u8> {
    s.subrange(lo, hi)
}

/// What one keyed rule finds in the value `v` of its key.
pub open spec fn rule_refs(t: SyntaxTree, rule: KeyRule, v: NodeId, rel: Seq<u8>, path: Seq<char>, pk: Seq<u8>, depth: int, schema: Schema) -> Seq<RefView> {
    let vk = nkind(t, v);
    let alt = alt_views(rule.alt);
    if !crate::schema::gate_admits(rule.gate, rel) {
        Seq::empty()
    } else {
        match rule.form {
            KeyForm::Value => if vk is Scalar {
                spec_append_ref(t, rule.kind, alt, v, path, schema)
            } else {
                Seq::empty()
            },
            KeyForm::ValueTop => if vk is Scalar && depth == 1 {
                spec_append_ref(t, rule.kind, alt, v, path, schema)
            } else {
                Seq::empty()
            },
            KeyForm::ValueUnder(parent) => if vk is Scalar && pk == parent.spec_bytes() {
                spec_append_ref(t, rule.kind, alt, v, path, schema)
            } else {
                Seq::empty()
            },
            KeyForm::BlockField(field) => if vk is Block {
                match direct_field_from(t, v, field.spec_bytes(), 0) {
                    Some(id) => if nkind(t, id) is Scalar {
                        spec_append_ref(t, rule.kind, alt, id, path, schema)
                    } else {
                        Seq::empty()
                    },
                    None => Seq::empty(),
                }
            } else {
                Seq::empty()
            },
            KeyForm::List => if vk is Block {
                list_refs(t, nkids(t, v), rule.kind, alt, path, schema)
            } else {
                Seq::empty()
            },
            KeyForm::BlockKeys => if vk is Block {
                block_keys_refs(t, nkids(t, v), rule.kind, alt, path, schema)
            } else {
                Seq::empty()
            },
            KeyForm::BlockValues => if vk is Block {
                block_values_refs(t, nkids(t, v), rule.kind, alt, path, schema)
            } else {
                Seq::empty()
            },
            KeyForm::Weighted => if vk is Block {
                weighted_refs(t, nkids(t, v), rule.kind, alt, path, schema)
            } else {
                Seq::empty()
            },
        }
    }
}

/// What the keyed rules `rules` (in order) find in the value `v`.
pub open spec fn field_refs(t: SyntaxTree, rules: Seq<KeyRule>, v: NodeId, rel: Seq<u8>, path: Seq<char>, pk: Seq<u8>, depth: int, schema: Schema) -> Seq<RefView>
    decreases rules.len(),
{
    if rules.len() == 0 {
        Seq::empty()
    } else {
        field_refs(t, rules.drop_last(), v, rel, path, pk, depth, schema) + rule_refs(t, rules.last(), v, rel, path, pk, depth, schema)
    }
}

fn list_refs_exec(tree: &SyntaxTree, b: NodeId, mode: u8, kind: KindId, alt: &'static [KindId], path: &str, schema: &Schema, refs: &mut Vec<Ref>)
    requires
        okn(*tree, b),
        mode < 4,
    ensures
        rviews(final(refs)@) == rviews(old(refs)@) + if mode == 0 {
            list_refs(*tree, nkids(*tree, b), kind, alt_views(alt), path@, *schema)
        } else if mode == 1 {
            block_keys_refs(*tree, nkids(*tree, b), kind, alt_views(alt), path@, *schema)
        } else if mode == 2 {
            block_values_refs(*tree, nkids(*tree, b), kind, alt_views(alt), path@, *schema)
        } else {
            weighted_refs(*tree, nkids(*tree, b), kind, alt_views(alt), path@, *schema)
        },
    decreases mode,
{
    let ghost t = *tree;
    let ghost a = alt_views(alt);
    let ghost base = rviews(refs@);
    let items = tree.children(b);
    let mut j: usize = 0;
    while j < items.len()
        invariant
            t == *tree,
            a == alt_views(alt),
            mode < 4,
            okn(t, b),
            items@ == nkids(t, b),
            j <= items@.len(),
            rviews(refs@) == base + if mode == 0 {
                list_refs(t, items@.take(j as int), kind, a, path@, *schema)
            } else if mode == 1 {
                block_keys_refs(t, items@.take(j as int), kind, a, path@, *schema)
            } else if mode == 2 {
                block_values_refs(t, items@.take(j as int), kind, a, path@, *schema)
            } else {
                weighted_refs(t, items@.take(j as int), kind, a, path@, *schema)
            },
        decreases items@.len() - j,
    {
        proof {
            lemma_kid(t, b, j as int);
            assert(items@.take(j as int + 1).drop_last() =~= items@.take(j as int));
        }
        let it = items[j];
        let ghost before = rviews(refs@);
        let ik = tree.node(it).kind;
        if mode == 0 {
            if ik == NodeKind::Scalar {
                append_ref(tree, kind, alt, it, path, schema, refs);
            }
            assert(rviews(refs@) =~= base + list_refs(t, items@.take(j as int + 1), kind, a, path@, *schema));
        } else if mode == 1 {
            if ik == NodeKind::Field {
                let kids = tree.child_ids(it);
                if kids.len() > 0 {
                    proof {
                        lemma_kid(t, it, 0);
                    }
                    if tree.node(kids[0]).kind == NodeKind::Scalar {
                        append_ref(tree, kind, alt, kids[0], path, schema, refs);
                    }
                }
            }
            assert(rviews(refs@) =~= base + block_keys_refs(t, items@.take(j as int + 1), kind, a, path@, *schema));
        } else if mode == 2 {
            if ik == NodeKind::Field {
                let kids = tree.child_ids(it);
                if kids.len() > 1 {
                    proof {
                        lemma_kid(t, it, 1);
                    }
                    let v = kids[1];
                    let vk = tree.node(v).kind;
                    if vk == NodeKind::Scalar {
                        append_ref(tree, kind, alt, v, path, schema, refs);
                    } else if vk == NodeKind::Block {
                        list_refs_exec(tree, v, 0, kind, alt, path, schema, refs);
                    }
                }
            }
            assert(rviews(refs@) =~= base + block_values_refs(t, items@.take(j as int + 1), kind, a, path@, *schema));
        } else {
            if ik == NodeKind::Field {
                let kids = tree.child_ids(it);
                if kids.len() == 2 {
                    proof {
                        lemma_kid(t, it, 0);
                        lemma_kid(t, it, 1);
                    }
                    if tree.node(kids[1]).kind == NodeKind::Scalar && starts_with_digit(tree.node_text(kids[0]))
                        && !starts_with_digit(tree.node_text(kids[1])) {
                        append_ref(tree, kind, alt, kids[1], path, schema, refs);
                    }
                }
            }
            assert(rviews(refs@) =~= base + weighted_refs(t, items@.take(j as int + 1), kind, a, path@, *schema));
        }
        j += 1;
    }
    assert(items@.take(items@.len() as int) =~= items@);
}

/// Collects the references of a single `key = value` field, applying every
/// keyed rule for `key` (in registration order) whose gate admits the file
/// and whose form matches the value's node kind.
fn extract_field_refs(
    tree: &SyntaxTree,
    key: &[u8],
    v: NodeId,
    rel_path: &str,
    path: &str,
    parent_key: &[u8],
    depth: u32,
    schema: &Schema,
    refs: &mut Vec<Ref>,
)
    requires
        okn(*tree, v),
    ensures
        rviews(final(refs)@) == rviews(old(refs)@) + field_refs(
            *tree,
            rules_under_key_bytes(schema.spec_key_rule_list(), key@),
            v,
            rel_path.spec_bytes(),
            path@,
            parent_key@,
            depth as int,
            *schema,
        ),
{
    let ghost t = *tree;
    let ghost base = rviews(refs@);
    let rules = schema.key_rules_bytes(key);
    let vk = tree.node(v).kind;
    let mut i: usize = 0;
    while i < rules.len()
        invariant
            t == *tree,
            okn(t, v),
            vk == nkind(t, v),
            i <= rules@.len(),
            rviews(refs@) == base + field_refs(t, rules@.take(i as int), v, rel_path.spec_bytes(), path@, parent_key@, depth as int, *schema),
        decreases rules@.len() - i,
    {
        assert(rules@.take(i as int + 1).drop_last() =~= rules@.take(i as int));
        let rule = rules[i];
        let ghost before = rviews(refs@);
        if rule.applies(rel_path) {
            match rule.form {
                KeyForm::Value => {
                    if vk == NodeKind::Scalar {
                        append_ref(tree, rule.kind, rule.alt, v, path, schema, refs);
                    }
                },
                KeyForm::ValueTop => {
                    if vk == NodeKind::Scalar && depth == 1 {
                        append_ref(tree, rule.kind, rule.alt, v, path, schema, refs);
                    }
                },
                KeyForm::ValueUnder(parent) => {
                    if vk == NodeKind::Scalar && slice_eq(parent_key, parent.as_bytes()) {
                        append_ref(tree, rule.kind, rule.alt, v, path, schema, refs);
                    }
                },
                KeyForm::BlockField(field) => {
                    if vk == NodeKind::Block {
                        if let Some(id) = direct_field_node(tree, v, field.as_bytes()) {
                            if tree.node(id).kind == NodeKind::Scalar {
                                append_ref(tree, rule.kind, rule.alt, id, path, schema, refs);
                            }
                        }
                    }
                },
                KeyForm::List => {
                    if vk == NodeKind::Block {
                        list_refs_exec(tree, v, 0, rule.kind, rule.alt, path, schema, refs);
                    }
                },
                KeyForm::BlockKeys => {
                    if vk == NodeKind::Block {
                        list_refs_exec(tree, v, 1, rule.kind, rule.alt, path, schema, refs);
                    }
                },
                KeyForm::BlockValues => {
                    if vk == NodeKind::Block {
                        list_refs_exec(tree, v, 2, rule.kind, rule.alt, path, schema, refs);
                    }
                },
                KeyForm::Weighted => {
                    if vk == NodeKind::Block {
                        list_refs_exec(tree, v, 3, rule.kind, rule.alt, path, schema, refs);
                    }
                },
            }
        }
        assert(rviews(refs@) =~= before + rule_refs(t, rule, v, rel_path.spec_bytes(), path@, parent_key@, depth as int, *schema));
        i += 1;
    }
    assert(rules@.take(rules@.len() as int) =~= rules@);
}


/// The references the top-level-block-keys rules make of the key `k`.
pub open spec fn top_key_refs(t: SyntaxTree, rules: Seq<crate::schema::TopKeyRule>, k: NodeId, rel: Seq<u8>, path: Seq<char>, schema: Schema) -> Seq<RefView>
    decreases rules.len(),
{
    if rules.len() == 0 {
        Seq::empty()
    } else {
        top_key_refs(t, rules.drop_last(), k, rel, path, schema) + if crate::schema::gate_admits(rules.last().gate, rel) {
            spec_append_ref(t, rules.last().kind, Seq::empty(), k, path, schema)
        } else {
            Seq::empty()
        }
    }
}

/// A script-constant reference: an `@name` scalar below file top level
/// (`@[…]` inline math excluded).
pub open spec fn const_ref(t: SyntaxTree, n: NodeId, path: Seq<char>, depth: int) -> Seq<RefView> {
    let text = ntext(t, n);
    if depth >= 1 && text.len() > 1 && text[0] == 64u8 && text[1] != 91u8 {
        seq![RefView { kind: "script_constant"@, alt: Seq::empty(), name: lossy_text(text), file: path, start: nstart(t, n), end: nend(t, n) }]
    } else {
        Seq::empty()
    }
}

/// Every reference in the subtree of `n`, in document order. `pk` is the
/// key of the field whose value encloses `n`; `depth` counts enclosing
/// fields.
pub open spec fn refs_node(t: SyntaxTree, n: NodeId, rel: Seq<u8>, path: Seq<char>, pk: Seq<u8>, depth: int, schema: Schema) -> Seq<RefView>
    decreases t.rank()[n@ as int], 1nat, 0int,
{
    if !okn(t, n) {
        Seq::empty()
    } else if is_pair(t, n) {
        proof {
            lemma_kid(t, n, 0);
            lemma_kid(t, n, 1);
        }
        let k = nkids(t, n)[0];
        let v = nkids(t, n)[1];
        let key = ntext(t, k);
        let top = if depth == 0 && !at_sign_first(key) && blockish(nkind(t, v)) {
            top_key_refs(t, schema.spec_top_rule_list(), k, rel, path, schema)
        } else {
            Seq::empty()
        };
        top + field_refs(t, rules_under_key_bytes(schema.spec_key_rule_list(), key), v, rel, path, pk, depth, schema)
            + scope_ref_from(t, k, schema.spec_scope_rule_list(), 0, rel, path, schema) + refs_node(
            t,
            v,
            rel,
            path,
            key,
            depth + 1,
            schema,
        )
    } else {
        let own = if nkind(t, n) is Scalar {
            scope_ref_from(t, n, schema.spec_scope_rule_list(), 0, rel, path, schema) + const_ref(t, n, path, depth)
        } else {
            Seq::empty()
        };
        own + refs_kids(t, n, 0, rel, path, pk, depth, schema)
    }
}

/// The references in the subtrees of the children of `p` from the `j`-th on.
pub open spec fn refs_kids(t: SyntaxTree, p: NodeId, j: int, rel: Seq<u8>, path: Seq<char>, pk: Seq<u8>, depth: int, schema: Schema) -> Seq<RefView>
    decreases t.rank()[p@ as int], 0nat, nkids(t, p).len() - j,
{
    if !okn(t, p) || j < 0 || j >= nkids(t, p).len() {
        Seq::empty()
    } else {
        proof {
            lemma_kid(t, p, j);
        }
        refs_node(t, nkids(t, p)[j], rel, path, pk, depth, schema) + refs_kids(t, p, j + 1, rel, path, pk, depth, schema)
    }
}

fn empty_kinds() -> (r: &'static [KindId])
    ensures
        r@.len() == 0,
{
    let e: &'static [KindId] = &[];
    e
}

/// Recursively collects the references of the subtree of `n`.
fn extract_refs(
    tree: &SyntaxTree,
    n: NodeId,
    rel_path: &str,
    path: &str,
    parent_key: &[u8],
    depth: u32,
    schema: &Schema,
    refs: &mut Vec<Ref>,
)
    requires
        okn(*tree, n),
        depth + tree.rank()[n@ as int] < tree.spec_nodes().len(),
    ensures
        rviews(final(refs)@) == rviews(old(refs)@) + refs_node(*tree, n, rel_path.spec_bytes(), path@, parent_key@, depth as int, *schema),
    decreases tree.rank()[n@ as int], 1nat, 0int,
{
    let ghost t = *tree;
    let ghost rel = rel_path.spec_bytes();
    let ghost base = rviews(refs@);
    let node = *tree.node(n);
    if node.kind == NodeKind::Field {
        let children = tree.child_ids(n);
        if children.len() == 2 {
            proof {
                lemma_kid(t, n, 0);
                lemma_kid(t, n, 1);
                lemma_child(tree, n@ as int, 1);
            }
            let k = children[0];
            let v = children[1];
            let key = tree.node_text(k);
            let vk = tree.node(v).kind;
            if depth == 0 && !(key.len() > 0 && key[0] == 64u8) && (vk == NodeKind::Block || vk == NodeKind::TaggedBlock) {
                let rules = schema.top_key_rules();
                let mut i: usize = 0;
                while i < rules.len()
                    invariant
                        t == *tree,
                        okn(t, k),
                        i <= rules@.len(),
                        rules@ == schema.spec_top_rule_list(),
                        rviews(refs@) == base + top_key_refs(t, rules@.take(i as int), k, rel, path@, *schema),
                        rel == rel_path.spec_bytes(),
                    decreases rules@.len() - i,
                {
                    assert(rules@.take(i as int + 1).drop_last() =~= rules@.take(i as int));
                    let ghost before = rviews(refs@);
                    if rules[i].applies(rel_path) {
                        let e = empty_kinds();
                        append_ref(tree, rules[i].kind, e, k, path, schema, refs);
                        assert(alt_views(e) =~= Seq::<Seq<char>>::empty());
                    }
                    assert(rviews(refs@) =~= base + top_key_refs(t, rules@.take(i as int + 1), k, rel, path@, *schema));
                    i += 1;
                }
                assert(rules@.take(rules@.len() as int) =~= rules@);
            }
            let ghost after_top = rviews(refs@);
            extract_field_refs(tree, key, v, rel_path, path, parent_key, depth, schema, refs);
            scan_prefix_refs(tree, k, rel_path, path, schema, refs);
            extract_refs(tree, v, rel_path, path, key, depth + 1, schema, refs);
            proof {
                let top = if depth == 0 && !at_sign_first(key@) && blockish(nkind(t, v)) {
                    top_key_refs(t, schema.spec_top_rule_list(), k, rel, path@, *schema)
                } else {
                    Seq::empty()
                };
                assert(after_top =~= base + top);
                assert(rviews(refs@) =~= base + refs_node(t, n, rel, path@, parent_key@, depth as int, *schema));
            }
            return;
        }
    }
    let ghost own_start = rviews(refs@);
    if node.kind == NodeKind::Scalar {
        scan_prefix_refs(tree, n, rel_path, path, schema, refs);
        let text = tree.node_text(n);
        if depth >= 1 && text.len() > 1 && text[0] == 64u8 && text[1] != 91u8 {
            let r = Ref {
                kind: script_constant(),
                alt: empty_kinds(),
                name: lossy_string(text),
                file: path_string(path),
                start: node.range.start,
                end: node.range.end,
            };
            assert(r@.alt =~= Seq::<Seq<char>>::empty());
            let ghost before = rviews(refs@);
            refs.push(r);
            assert(rviews(refs@) =~= before.push(r@));
        }
    }
    let ghost own = if nkind(t, n) is Scalar {
        scope_ref_from(t, n, schema.spec_scope_rule_list(), 0, rel, path@, *schema) + const_ref(t, n, path@, depth as int)
    } else {
        Seq::empty()
    };
    assert(rviews(refs@) =~= base + own);
    let ghost target = base + refs_node(t, n, rel, path@, parent_key@, depth as int, *schema);
    assert(target =~= base + own + refs_kids(t, n, 0, rel, path@, parent_key@, depth as int, *schema));
    let kids = tree.children(n);
    let mut j: usize = 0;
    while j < kids.len()
        invariant
            t == *tree,
            okn(t, n),
            rel == rel_path.spec_bytes(),
            depth + t.rank()[n@ as int] < t.spec_nodes().len(),
            kids@ == nkids(t, n),
            j <= kids@.len(),
            rviews(refs@) + refs_kids(t, n, j as int, rel, path@, parent_key@, depth as int, *schema) == target,
            target == rviews(old(refs)@) + refs_node(t, n, rel, path@, parent_key@, depth as int, *schema),
        decreases kids@.len() - j,
    {
        proof {
            lemma_kid(t, n, j as int);
        }
        let ghost before = rviews(refs@);
        extract_refs(tree, kids[j], rel_path, path, parent_key, depth, schema, refs);
        assert(rviews(refs@) + refs_kids(t, n, j + 1, rel, path@, parent_key@, depth as int, *schema) =~= before + refs_kids(t, n, j as int, rel, path@, parent_key@, depth as int, *schema));
        j += 1;
    }
    assert(rviews(refs@) =~= rviews(refs@) + refs_kids(t, n, j as int, rel, path@, parent_key@, depth as int, *schema));
}


// ---------------------------------------------------------------------------
// Call-by-name references.

/// One of `names` has, byte for byte, the text `key`.
pub open spec fn names_contain(names: Seq<String>, key: Seq<u8>) -> bool {
    exists|i: int| 0 <= i < names.len() && vstd::utf8::encode_utf8(names[i]@) == key
}

fn names_contain_exec(names: &Vec<String>, key: &[u8]) -> (r: bool)
    ensures
        r == names_contain(names@, key@),
{
    let mut i: usize = 0;
    while i < names.len()
        invariant
            i <= names@.len(),
            forall|k: int| 0 <= k < i ==> vstd::utf8::encode_utf8(names@[k]@) != key@,
        decreases names@.len() - i,
    {
        if slice_eq(names[i].as_str().as_bytes(), key) {
            return true;
        }
        i += 1;
    }
    false
}

/// A name-gated reference covering exactly the scalar `n`.
pub open spec fn name_ref(t: SyntaxTree, kind: KindId, n: NodeId, path: Seq<char>) -> RefView {
    RefView { kind: kind@, alt: Seq::empty(), name: lossy_text(ntext(t, n)), file: path, start: nstart(t, n), end: nend(t, n) }
}

/// A script-value reference: the scalar `v` names a defined script value.
pub open spec fn script_value_ref(t: SyntaxTree, v: NodeId, targets: CallTargets, path: Seq<char>) -> Seq<RefView> {
    if nkind(t, v) is Scalar && names_contain(targets.script_values@, ntext(t, v)) {
        seq![name_ref(t, targets.kinds.value, v, path)]
    } else {
        Seq::empty()
    }
}

/// Script-value references from the loose scalar items among `items`.
pub open spec fn item_value_refs(t: SyntaxTree, items: Seq<NodeId>, targets: CallTargets, path: Seq<char>) -> Seq<RefView>
    decreases items.len(),
{
    if items.len() == 0 {
        Seq::empty()
    } else {
        item_value_refs(t, items.drop_last(), targets, path) + if nkind(t, items.last()) is Scalar {
            script_value_ref(t, items.last(), targets, path)
        } else {
            Seq::empty()
        }
    }
}

/// The call-by-name references of the subtree of `n`, in document order: a
/// nested field whose key names a scripted effect (or else trigger), a field
/// value or loose list item naming a script value. At file top level
/// (`is_top`) a key is the definition itself, not a call.
pub open spec fn calls_node(t: SyntaxTree, n: NodeId, targets: CallTargets, path: Seq<char>, is_top: bool) -> Seq<RefView>
    decreases t.rank()[n@ as int], 1nat, 0int,
{
    if !okn(t, n) {
        Seq::empty()
    } else {
        let own = if is_pair(t, n) {
            let k = nkids(t, n)[0];
            let key_ref = if is_top {
                Seq::empty()
            } else if names_contain(targets.effects@, ntext(t, k)) {
                seq![name_ref(t, targets.kinds.effect, k, path)]
            } else if names_contain(targets.triggers@, ntext(t, k)) {
                seq![name_ref(t, targets.kinds.trigger, k, path)]
            } else {
                Seq::empty()
            };
            key_ref + script_value_ref(t, nkids(t, n)[1], targets, path)
        } else if nkind(t, n) is Block {
            item_value_refs(t, nkids(t, n), targets, path)
        } else {
            Seq::empty()
        };
        own + calls_kids(t, n, 0, targets, path, false)
    }
}

/// The call-by-name references of the subtrees of the children of `p` from
/// the `j`-th on.
pub open spec fn calls_kids(t: SyntaxTree, p: NodeId, j: int, targets: CallTargets, path: Seq<char>, is_top: bool) -> Seq<RefView>
    decreases t.rank()[p@ as int], 0nat, nkids(t, p).len() - j,
{
    if !okn(t, p) || j < 0 || j >= nkids(t, p).len() {
        Seq::empty()
    } else {
        proof {
            lemma_kid(t, p, j);
        }
        calls_node(t, nkids(t, p)[j], targets, path, is_top) + calls_kids(t, p, j + 1, targets, path, is_top)
    }
}

fn push_name_ref(tree: &SyntaxTree, kind: KindId, n: NodeId, path: &str, calls: &mut Vec<Ref>)
    requires
        okn(*tree, n),
    ensures
        rviews(final(calls)@) == rviews(old(calls)@).push(name_ref(*tree, kind, n, path@)),
{
    let node = *tree.node(n);
    let r = Ref { kind, alt: empty_kinds(), name: lossy_string(tree.node_text(n)), file: path_string(path), start: node.range.start, end: node.range.end };
    assert(r@.alt =~= Seq::<Seq<char>>::empty());
    let ghost before = rviews(calls@);
    calls.push(r);
    assert(rviews(calls@) =~= before.push(r@));
}

fn push_script_value(tree: &SyntaxTree, v: NodeId, targets: &CallTargets, path: &str, calls: &mut Vec<Ref>)
    requires
        okn(*tree, v),
    ensures
        rviews(final(calls)@) == rviews(old(calls)@) + script_value_ref(*tree, v, *targets, path@),
{
    let ghost base = rviews(calls@);
    if tree.node(v).kind == NodeKind::Scalar && names_contain_exec(&targets.script_values, tree.node_text(v)) {
        push_name_ref(tree, targets.kinds.value, v, path, calls);
    }
    assert(rviews(calls@) =~= base + script_value_ref(*tree, v, *targets, path@));
}

fn walk_calls(tree: &SyntaxTree, n: NodeId, path: &str, targets: &CallTargets, is_top: bool, calls: &mut Vec<Ref>)
    requires
        okn(*tree, n),
    ensures
        rviews(final(calls)@) == rviews(old(calls)@) + calls_node(*tree, n, *targets, path@, is_top),
    decreases tree.rank()[n@ as int], 1nat, 0int,
{
    let ghost t = *tree;
    let ghost base = rviews(calls@);
    let node = *tree.node(n);
    if node.kind == NodeKind::Field {
        let children = tree.child_ids(n);
        if children.len() == 2 {
            proof {
                lemma_kid(t, n, 0);
                lemma_kid(t, n, 1);
            }
            if !is_top {
                let key = tree.node_text(children[0]);
                if names_contain_exec(&targets.effects, key) {
                    push_name_ref(tree, targets.kinds.effect, children[0], path, calls);
                } else if names_contain_exec(&targets.triggers, key) {
                    push_name_ref(tree, targets.kinds.trigger, children[0], path, calls);
                }
            }
            push_script_value(tree, children[1], targets, path, calls);
        }
    } else if node.kind == NodeKind::Block {
        let items = tree.children(n);
        let mut j: usize = 0;
        while j < items.len()
            invariant
                t == *tree,
                okn(t, n),
                items@ == nkids(t, n),
                j <= items@.len(),
                rviews(calls@) == base + item_value_refs(t, items@.take(j as int), *targets, path@),
            decreases items@.len() - j,
        {
            proof {
                lemma_kid(t, n, j as int);
                assert(items@.take(j as int + 1).drop_last() =~= items@.take(j as int));
            }
            let it = items[j];
            if tree.node(it).kind == NodeKind::Scalar {
                push_script_value(tree, it, targets, path, calls);
            }
            assert(rviews(calls@) =~= base + item_value_refs(t, items@.take(j as int + 1), *targets, path@));
            j += 1;
        }
        assert(items@.take(items@.len() as int) =~= items@);
    }
    let ghost own = if is_pair(t, n) {
        let k = nkids(t, n)[0];
        let key_ref = if is_top {
            Seq::empty()
        } else if names_contain(targets.effects@, ntext(t, k)) {
            seq![name_ref(t, targets.kinds.effect, k, path@)]
        } else if names_contain(targets.triggers@, ntext(t, k)) {
            seq![name_ref(t, targets.kinds.trigger, k, path@)]
        } else {
            Seq::empty()
        };
        key_ref + script_value_ref(t, nkids(t, n)[1], *targets, path@)
    } else if nkind(t, n) is Block {
        item_value_refs(t, nkids(t, n), *targets, path@)
    } else {
        Seq::empty()
    };
    assert(rviews(calls@) =~= base + own);
    let ghost target = base + calls_node(t, n, *targets, path@, is_top);
    assert(target =~= base + own + calls_kids(t, n, 0, *targets, path@, false));
    let kids = tree.children(n);
    let mut j: usize = 0;
    while j < kids.len()
        invariant
            t == *tree,
            okn(t, n),
            kids@ == nkids(t, n),
            j <= kids@.len(),
            rviews(calls@) + calls_kids(t, n, j as int, *targets, path@, false) == target,
            target == rviews(old(calls)@) + calls_node(t, n, *targets, path@, is_top),
        decreases kids@.len() - j,
    {
        proof {
            lemma_kid(t, n, j as int);
        }
        let ghost before = rviews(calls@);
        walk_calls(tree, kids[j], path, targets, false, calls);
        assert(rviews(calls@) + calls_kids(t, n, j + 1, *targets, path@, false) =~= before + calls_kids(t, n, j as int, *targets, path@, false));
        j += 1;
    }
    assert(rviews(calls@) =~= rviews(calls@) + calls_kids(t, n, j as int, *targets, path@, false));
}

/// The root of a well-formed tree is a node and ranks below the pool size.
proof fn lemma_root(t: SyntaxTree)
    requires
        t.wf(),
    ensures
        okn(t, NodeId::spec_root()),
        t.rank()[0] < t.spec_nodes().len(),
{
    NodeId::lemma_spec_root();
    assert(t.ranks_ok(t.rank()));
    assert(t.rank()[0] < t.rank().len());
}

/// Collects every call-by-name reference of a parsed file: nested fields
/// whose key names a scripted effect or trigger, and values naming a script
/// value; a matching top-level key is the definition, not a call.
pub fn extract_calls(tree: &SyntaxTree, full_path: &str, targets: &CallTargets) -> (calls: Vec<Ref>)
    requires
        tree.wf(),
    ensures
        rviews(calls@) == calls_kids(*tree, NodeId::spec_root(), 0, *targets, full_path@, true),
{
    let ghost t = *tree;
    proof {
        lemma_root(t);
    }
    let root = tree.root();
    let mut calls: Vec<Ref> = Vec::new();
    let kids = tree.children(root);
    let mut j: usize = 0;
    assert(rviews(calls@) =~= Seq::<RefView>::empty());
    while j < kids.len()
        invariant
            t == *tree,
            okn(t, root),
            root == NodeId::spec_root(),
            kids@ == nkids(t, root),
            j <= kids@.len(),
            rviews(calls@) + calls_kids(t, root, j as int, *targets, full_path@, true) == calls_kids(t, root, 0, *targets, full_path@, true),
        decreases kids@.len() - j,
    {
        proof {
            lemma_kid(t, root, j as int);
        }
        let ghost before = rviews(calls@);
        walk_calls(tree, kids[j], full_path, targets, true, &mut calls);
        assert(rviews(calls@) + calls_kids(t, root, j + 1, *targets, full_path@, true) =~= before + calls_kids(t, root, j as int, *targets, full_path@, true));
        j += 1;
    }
    assert(rviews(calls@) =~= rviews(calls@) + calls_kids(t, root, j as int, *targets, full_path@, true));
    calls
}


// ---------------------------------------------------------------------------
// The whole file.

/// What one definition rule's shape harvests from the top-level node `c`.
pub open spec fn shape_defs(t: SyntaxTree, c: NodeId, rule: DefRule, rel: Seq<char>, schema: Schema) -> (Seq<SymbolView>, Seq<SymbolView>) {
    let al = last_aliases(schema.spec_alias_list(), rule.kind@);
    match rule.shape {
        DefShape::TopLevel => spec_harvest_def(t, c, rule.kind, rel, al),
        DefShape::TopLevelValued => (valued_def(t, c, rule.kind, rel), Seq::empty()),
        DefShape::Tree { key_prefixes } => (nested_defs(t, c, key_prefixes@, rule.kind, rel), Seq::empty()),
        DefShape::ChildrenOf { containers } => container_defs(t, c, containers@, rule.kind, rel, al),
        DefShape::GroupedBlocks { exclude } => grouped_defs(t, c, exclude@, rule.kind, rel, al),
        DefShape::QualifiedFields { separator } => (qualified_defs(t, c, separator@, rule.kind, rel), Seq::empty()),
        DefShape::IdCsv => none2(),
    }
}

/// What every matching rule (in order) harvests from the top-level node `c`.
pub open spec fn rules_defs(t: SyntaxTree, c: NodeId, rules: Seq<DefRule>, rel: Seq<char>, schema: Schema) -> (Seq<SymbolView>, Seq<SymbolView>)
    decreases rules.len(),
{
    if rules.len() == 0 {
        none2()
    } else {
        cat2(rules_defs(t, c, rules.drop_last(), rel, schema), shape_defs(t, c, rules.last(), rel, schema))
    }
}

/// One top-level item's effect on (pending typed-definition kind,
/// definitions, aliases): a bare keyword scalar sets the pending kind; the
/// field after it is a typed definition; a keyed-value field defines its
/// value; an `@constant` field is skipped here; anything else goes through
/// the directory's rules. Any non-scalar item clears the pending kind.
pub open spec fn top_step(
    t: SyntaxTree,
    st: (Option<KindId>, Seq<SymbolView>, Seq<SymbolView>),
    c: NodeId,
    rules: Seq<DefRule>,
    rel: Seq<char>,
    schema: Schema,
) -> (Option<KindId>, Seq<SymbolView>, Seq<SymbolView>) {
    let k = nkind(t, c);
    if k is Scalar {
        (last_by_bytes(schema.spec_typed_defs(), ntext(t, c)), st.1, st.2)
    } else if st.0 is Some && k is Field {
        let tk = st.0.unwrap();
        let h = spec_harvest_def(t, c, tk, rel, last_aliases(schema.spec_alias_list(), tk@));
        (None, st.1 + h.0, st.2 + h.1)
    } else if k is Field && spec_keyed_value_kind(t, c, schema) is Some {
        (None, st.1 + keyed_def(t, c, spec_keyed_value_kind(t, c, schema).unwrap(), rel), st.2)
    } else if k is Field && nkids(t, c).len() > 0 && at_sign_first(ntext(t, nkids(t, c)[0])) {
        (None, st.1, st.2)
    } else {
        let h = rules_defs(t, c, rules, rel, schema);
        (None, st.1 + h.0, st.2 + h.1)
    }
}

/// The top-level items folded through `top_step`.
pub open spec fn top_fold(t: SyntaxTree, items: Seq<NodeId>, rules: Seq<DefRule>, rel: Seq<char>, schema: Schema) -> (
    Option<KindId>,
    Seq<SymbolView>,
    Seq<SymbolView>,
)
    decreases items.len(),
{
    if items.len() == 0 {
        (None, Seq::empty(), Seq::empty())
    } else {
        top_step(t, top_fold(t, items.drop_last(), rules, rel, schema), items.last(), rules, rel, schema)
    }
}

/// The references of `rs` whose kind is (when `constants`) or is not the
/// script-constant kind, in order.
pub open spec fn split_refs(rs: Seq<RefView>, constants: bool) -> Seq<RefView>
    decreases rs.len(),
{
    if rs.len() == 0 {
        Seq::empty()
    } else {
        let prev = split_refs(rs.drop_last(), constants);
        if (rs.last().kind == "script_constant"@) == constants {
            prev.push(rs.last())
        } else {
            prev
        }
    }
}

/// The definitions, aliases, constants, references, constant references and
/// calls that extraction finds in a file at `rel` (reported under `path`).
pub open spec fn spec_facts_ok(
    f: FileFacts,
    t: SyntaxTree,
    rel: &str,
    path: &str,
    schema: Schema,
    calls: Option<CallTargets>,
) -> bool {
    let root = NodeId::spec_root();
    let top = top_fold(t, nkids(t, root), matching_def_rules(schema.spec_def_rule_list(), rel.spec_bytes()), rel@, schema);
    let all = refs_node(t, root, rel.spec_bytes(), path@, Seq::empty(), 0, schema);
    &&& sviews(f.defs@) == top.1 + (if schema.spec_nested_value_defs().len() > 0 {
        nested_value_defs(t, root, rel@, schema)
    } else {
        Seq::empty()
    })
    &&& sviews(f.aliases@) == top.2
    &&& sviews(f.constants@) == constant_defs(t, root, rel@)
    &&& rviews(f.refs@) == split_refs(all, false)
    &&& rviews(f.constant_refs@) == split_refs(all, true)
    &&& rviews(f.calls@) == match calls {
        Some(targets) => calls_kids(t, root, 0, targets, path@, true),
        None => Seq::empty(),
    }
}

fn apply_rule(
    tree: &SyntaxTree,
    c: NodeId,
    rule: DefRule,
    rel_path: &str,
    schema: &Schema,
    defs: &mut Vec<Symbol>,
    aliases: &mut Vec<Symbol>,
)
    requires
        okn(*tree, c),
    ensures
        sviews(final(defs)@) == sviews(old(defs)@) + shape_defs(*tree, c, rule, rel_path@, *schema).0,
        sviews(final(aliases)@) == sviews(old(aliases)@) + shape_defs(*tree, c, rule, rel_path@, *schema).1,
{
    let ghost ba = sviews(aliases@);
    let ghost bd = sviews(defs@);
    match rule.shape {
        DefShape::TopLevel => {
            harvest_def(tree, c, rule.kind, rel_path, schema, defs, aliases);
        },
        DefShape::TopLevelValued => {
            harvest_valued_def(tree, c, rule.kind, rel_path, defs);
            assert(sviews(aliases@) =~= ba + Seq::<SymbolView>::empty());
        },
        DefShape::Tree { key_prefixes } => {
            harvest_nested_defs(tree, c, key_prefixes, rule.kind, rel_path, defs);
            assert(sviews(aliases@) =~= ba + Seq::<SymbolView>::empty());
        },
        DefShape::ChildrenOf { containers } => {
            harvest_container_defs(tree, c, containers, rule.kind, rel_path, schema, defs, aliases);
        },
        DefShape::GroupedBlocks { exclude } => {
            harvest_grouped_defs(tree, c, exclude, rule.kind, rel_path, schema, defs, aliases);
        },
        DefShape::QualifiedFields { separator } => {
            harvest_qualified_fields(tree, c, separator, rule.kind, rel_path, defs);
            assert(sviews(aliases@) =~= ba + Seq::<SymbolView>::empty());
        },
        DefShape::IdCsv => {
            assert(sviews(aliases@) =~= ba + Seq::<SymbolView>::empty());
            assert(sviews(defs@) =~= bd + Seq::<SymbolView>::empty());
        },
    }
}

/// Walks a parsed file once, collecting its definitions, aliases,
/// script constants, references (split into global and file-local constant
/// references), and — when the project's callable names are supplied —
/// its call-by-name references. `rel_path` drives the definition rules and
/// reference gates; `full_path` labels the references.
pub fn extract_facts(
    tree: &SyntaxTree,
    rel_path: &str,
    full_path: &str,
    schema: &Schema,
    calls: Option<&CallTargets>,
) -> (facts: FileFacts)
    requires
        tree.wf(),
    ensures
        spec_facts_ok(facts, *tree, rel_path, full_path, *schema, match calls {
            Some(c) => Some(*c),
            None => None,
        }),
{
    let ghost t = *tree;
    proof {
        lemma_root(t);
    }
    let mut facts = FileFacts::empty();
    let rules = schema.rules_for(rel_path);
    let root = tree.root();
    let items = tree.children(root);
    let mut pending_typed: Option<KindId> = None;
    let mut j: usize = 0;
    assert(sviews(facts.defs@) =~= Seq::<SymbolView>::empty());
    assert(sviews(facts.aliases@) =~= Seq::<SymbolView>::empty());
    while j < items.len()
        invariant
            t == *tree,
            okn(t, root),
            root == NodeId::spec_root(),
            items@ == nkids(t, root),
            rules@ == matching_def_rules(schema.spec_def_rule_list(), rel_path.spec_bytes()),
            j <= items@.len(),
            (pending_typed, sviews(facts.defs@), sviews(facts.aliases@)) == top_fold(t, items@.take(j as int), rules@, rel_path@, *schema),
            facts.refs@.len() == 0,
            facts.constant_refs@.len() == 0,
            facts.constants@.len() == 0,
            facts.calls@.len() == 0,
        decreases items@.len() - j,
    {
        proof {
            lemma_kid(t, root, j as int);
            assert(items@.take(j as int + 1).drop_last() =~= items@.take(j as int));
        }
        let c = items[j];
        let ghost st = (pending_typed, sviews(facts.defs@), sviews(facts.aliases@));
        let kind = tree.node(c).kind;
        if kind == NodeKind::Scalar {
            pending_typed = schema.typed_def_kind_bytes(tree.node_text(c));
            j += 1;
            continue;
        }
        let pending = pending_typed;
        pending_typed = None;
        if pending.is_some() && kind == NodeKind::Field {
            harvest_def(tree, c, pending.unwrap(), rel_path, schema, &mut facts.defs, &mut facts.aliases);
            j += 1;
            continue;
        }
        if kind == NodeKind::Field {
            if let Some(kv_kind) = keyed_value_kind(tree, c, schema) {
                let ghost ba = sviews(facts.aliases@);
                harvest_keyed_value_def(tree, c, kv_kind, rel_path, &mut facts.defs);
                j += 1;
                continue;
            }
            let ck = tree.child_ids(c);
            if ck.len() > 0 {
                proof {
                    lemma_kid(t, c, 0);
                }
                let key = tree.node_text(ck[0]);
                if key.len() > 0 && key[0] == 64u8 {
                    j += 1;
                    continue;
                }
            }
        }
        let ghost bd = sviews(facts.defs@);
        let ghost ba = sviews(facts.aliases@);
        let mut r: usize = 0;
        while r < rules.len()
            invariant
                t == *tree,
                okn(t, c),
                r <= rules@.len(),
                sviews(facts.defs@) == bd + rules_defs(t, c, rules@.take(r as int), rel_path@, *schema).0,
                sviews(facts.aliases@) == ba + rules_defs(t, c, rules@.take(r as int), rel_path@, *schema).1,
                facts.refs@.len() == 0,
                facts.constant_refs@.len() == 0,
                facts.constants@.len() == 0,
                facts.calls@.len() == 0,
            decreases rules@.len() - r,
        {
            assert(rules@.take(r as int + 1).drop_last() =~= rules@.take(r as int));
            apply_rule(tree, c, rules[r], rel_path, schema, &mut facts.defs, &mut facts.aliases);
            assert(sviews(facts.defs@) =~= bd + rules_defs(t, c, rules@.take(r as int + 1), rel_path@, *schema).0);
            assert(sviews(facts.aliases@) =~= ba + rules_defs(t, c, rules@.take(r as int + 1), rel_path@, *schema).1);
            r += 1;
        }
        assert(rules@.take(rules@.len() as int) =~= rules@);
        j += 1;
    }
    assert(items@.take(items@.len() as int) =~= items@);
    harvest_constant_defs(tree, root, rel_path, &mut facts.constants);
    let ghost top_defs = sviews(facts.defs@);
    if schema.has_nested_value_defs() {
        harvest_nested_value_defs(tree, root, rel_path, schema, &mut facts.defs);
    } else {
        assert(sviews(facts.defs@) =~= top_defs + Seq::<SymbolView>::empty());
    }
    let mut all: Vec<Ref> = Vec::new();
    let empty_key: [u8; 0] = [];
    assert(empty_key@ =~= Seq::<u8>::empty());
    extract_refs(tree, root, rel_path, full_path, &empty_key, 0, schema, &mut all);
    // Constant references resolve file-locally: split them out of the
    // global reference stream.
    let ghost av = rviews(all@);
    let ghost dv = sviews(facts.defs@);
    let ghost alv = sviews(facts.aliases@);
    let ghost cv = sviews(facts.constants@);
    assert(rviews(facts.refs@) =~= Seq::<RefView>::empty());
    assert(rviews(facts.constant_refs@) =~= Seq::<RefView>::empty());
    assert(av.take(0) =~= Seq::<RefView>::empty());
    let mut k: usize = 0;
    while k < all.len()
        invariant
            k <= all@.len(),
            av == rviews(all@),
            dv == sviews(facts.defs@),
            alv == sviews(facts.aliases@),
            cv == sviews(facts.constants@),
            facts.calls@.len() == 0,
            rviews(facts.refs@) == split_refs(av.take(k as int), false),
            rviews(facts.constant_refs@) == split_refs(av.take(k as int), true),
        decreases all@.len() - k,
    {
        assert(av.take(k as int + 1).drop_last() =~= av.take(k as int));
        let r = all[k].clone();
        if all[k].kind == script_constant() {
            facts.constant_refs.push(r);
        } else {
            facts.refs.push(r);
        }
        assert(rviews(facts.refs@) =~= split_refs(av.take(k as int + 1), false));
        assert(rviews(facts.constant_refs@) =~= split_refs(av.take(k as int + 1), true));
        k += 1;
    }
    assert(av.take(av.len() as int) =~= av);
    match calls {
        Some(targets) => {
            facts.calls = extract_calls(tree, full_path, targets);
        },
        None => {
            assert(rviews(facts.calls@) =~= Seq::<RefView>::empty());
        },
    }
    facts
}

/// Constant references and the rest partition a reference stream: every
/// reference split out as a constant reference is to a script constant,
/// none left in the global stream is, and none is lost or duplicated.
pub proof fn law_constant_refs_separated(rs: Seq<RefView>)
    ensures
        forall|i: int| 0 <= i < split_refs(rs, true).len() ==> (#[trigger] split_refs(rs, true)[i]).kind == "script_constant"@,
        forall|i: int| 0 <= i < split_refs(rs, false).len() ==> (#[trigger] split_refs(rs, false)[i]).kind != "script_constant"@,
        split_refs(rs, true).len() + split_refs(rs, false).len() == rs.len(),
    decreases rs.len(),
{
    if rs.len() > 0 {
        law_constant_refs_separated(rs.drop_last());
    }
}

/// The kinds a call reference to the scalar `s` may carry: a scripted
/// effect when its text names one; else a scripted trigger when it names
/// one; or a script value when it names one.
pub open spec fn call_kind_fits(t: SyntaxTree, s: NodeId, kind: Seq<char>, targets: CallTargets) -> bool {
    let text = ntext(t, s);
    ||| kind == targets.kinds.effect@ && names_contain(targets.effects@, text)
    ||| kind == targets.kinds.trigger@ && names_contain(targets.triggers@, text) && !names_contain(
        targets.effects@,
        text,
    )
    ||| kind == targets.kinds.value@ && names_contain(targets.script_values@, text)
}

/// `r` covers a scalar of the tree, is named by its text, and has a kind
/// that text fits.
pub open spec fn is_call_to_target(t: SyntaxTree, r: RefView, targets: CallTargets) -> bool {
    exists|s: NodeId|
        okn(t, s) && r.name == lossy_text(ntext(t, s)) && r.start == nstart(t, s) && r.end == nend(t, s)
            && #[trigger] call_kind_fits(t, s, r.kind, targets)
}

/// Every reference of `rs` is a call to a target it fits.
pub open spec fn all_calls_fit(t: SyntaxTree, rs: Seq<RefView>, targets: CallTargets) -> bool {
    forall|i: int| 0 <= i < rs.len() ==> is_call_to_target(t, #[trigger] rs[i], targets)
}

proof fn lemma_calls_fit_concat(t: SyntaxTree, a: Seq<RefView>, b: Seq<RefView>, targets: CallTargets)
    requires
        all_calls_fit(t, a, targets),
        all_calls_fit(t, b, targets),
    ensures
        all_calls_fit(t, a + b, targets),
{
    assert forall|i: int| 0 <= i < (a + b).len() implies is_call_to_target(t, #[trigger] (a + b)[i], targets) by {
        if i < a.len() {
            assert((a + b)[i] == a[i]);
        } else {
            assert((a + b)[i] == b[i - a.len()]);
        }
    }
}

proof fn lemma_name_ref_fits(t: SyntaxTree, kind: KindId, n: NodeId, path: Seq<char>, targets: CallTargets)
    requires
        okn(t, n),
        call_kind_fits(t, n, kind@, targets),
    ensures
        all_calls_fit(t, seq![name_ref(t, kind, n, path)], targets),
{
    let r = name_ref(t, kind, n, path);
    assert(seq![r][0] == r);
    assert(call_kind_fits(t, n, r.kind, targets));
    assert(is_call_to_target(t, r, targets));
}

proof fn lemma_value_ref_fits(t: SyntaxTree, v: NodeId, targets: CallTargets, path: Seq<char>)
    requires
        okn(t, v),
    ensures
        all_calls_fit(t, script_value_ref(t, v, targets, path), targets),
{
    if nkind(t, v) is Scalar && names_contain(targets.script_values@, ntext(t, v)) {
        lemma_name_ref_fits(t, targets.kinds.value, v, path, targets);
    }
}

proof fn lemma_items_fit(t: SyntaxTree, items: Seq<NodeId>, targets: CallTargets, path: Seq<char>)
    requires
        forall|k: int| 0 <= k < items.len() ==> okn(t, #[trigger] items[k]),
    ensures
        all_calls_fit(t, item_value_refs(t, items, targets, path), targets),
    decreases items.len(),
{
    if items.len() > 0 {
        let init = items.drop_last();
        assert forall|k: int| 0 <= k < init.len() implies okn(t, #[trigger] init[k]) by {
            assert(init[k] == items[k]);
        }
        lemma_items_fit(t, init, targets, path);
        assert(okn(t, items[items.len() - 1]));
        lemma_value_ref_fits(t, items.last(), targets, path);
        let tail = if nkind(t, items.last()) is Scalar {
            script_value_ref(t, items.last(), targets, path)
        } else {
            Seq::empty()
        };
        lemma_calls_fit_concat(t, item_value_refs(t, init, targets, path), tail, targets);
    }
}

proof fn lemma_calls_node_fit(t: SyntaxTree, n: NodeId, targets: CallTargets, path: Seq<char>, is_top: bool)
    ensures
        all_calls_fit(t, calls_node(t, n, targets, path, is_top), targets),
    decreases t.rank()[n@ as int], 1nat, 0int,
{
    if okn(t, n) {
        let own = if is_pair(t, n) {
            lemma_kid(t, n, 0);
            lemma_kid(t, n, 1);
            let k = nkids(t, n)[0];
            let key_ref = if is_top {
                Seq::empty()
            } else if names_contain(targets.effects@, ntext(t, k)) {
                lemma_name_ref_fits(t, targets.kinds.effect, k, path, targets);
                seq![name_ref(t, targets.kinds.effect, k, path)]
            } else if names_contain(targets.triggers@, ntext(t, k)) {
                lemma_name_ref_fits(t, targets.kinds.trigger, k, path, targets);
                seq![name_ref(t, targets.kinds.trigger, k, path)]
            } else {
                Seq::empty()
            };
            lemma_value_ref_fits(t, nkids(t, n)[1], targets, path);
            lemma_calls_fit_concat(t, key_ref, script_value_ref(t, nkids(t, n)[1], targets, path), targets);
            key_ref + script_value_ref(t, nkids(t, n)[1], targets, path)
        } else if nkind(t, n) is Block {
            assert forall|k: int| 0 <= k < nkids(t, n).len() implies okn(t, #[trigger] nkids(t, n)[k]) by {
                lemma_kid(t, n, k);
            }
            lemma_items_fit(t, nkids(t, n), targets, path);
            item_value_refs(t, nkids(t, n), targets, path)
        } else {
            Seq::empty()
        };
        lemma_calls_kids_fit(t, n, 0, targets, path, false);
        lemma_calls_fit_concat(t, own, calls_kids(t, n, 0, targets, path, false), targets);
    }
}

proof fn lemma_calls_kids_fit(t: SyntaxTree, p: NodeId, j: int, targets: CallTargets, path: Seq<char>, is_top: bool)
    ensures
        all_calls_fit(t, calls_kids(t, p, j, targets, path, is_top), targets),
    decreases t.rank()[p@ as int], 0nat, nkids(t, p).len() - j,
{
    if okn(t, p) && 0 <= j < nkids(t, p).len() {
        lemma_kid(t, p, j);
        lemma_calls_node_fit(t, nkids(t, p)[j], targets, path, is_top);
        lemma_calls_kids_fit(t, p, j + 1, targets, path, is_top);
        lemma_calls_fit_concat(
            t,
            calls_node(t, nkids(t, p)[j], targets, path, is_top),
            calls_kids(t, p, j + 1, targets, path, is_top),
            targets,
        );
    }
}

/// Every call-by-name reference names a target of the kind it is recorded
/// under: it covers a scalar of the tree and is named by its text, and that
/// text names a scripted effect (kind `effect`), or a scripted trigger and
/// no effect (kind `trigger`), or a script value (kind `value`).
pub proof fn law_calls_name_their_targets(t: SyntaxTree, p: NodeId, j: int, targets: CallTargets, path: Seq<char>, is_top: bool)
    ensures
        forall|i: int|
            0 <= i < calls_kids(t, p, j, targets, path, is_top).len() ==> is_call_to_target(
                t,
                #[trigger] calls_kids(t, p, j, targets, path, is_top)[i],
                targets,
            ),
{
    lemma_calls_kids_fit(t, p, j, targets, path, is_top);
}

/// Item `j` of `items` is a `N = value` field with a numeric key and a
/// scalar, non-numeric value, and `r` is a reference of `kind` covering that
/// value and named by its unquoted text.
pub open spec fn weighted_source(t: SyntaxTree, items: Seq<NodeId>, j: int, r: RefView, kind: KindId) -> bool {
    &&& 0 <= j < items.len()
    &&& is_pair(t, items[j])
    &&& {
        let v = nkids(t, items[j])[1];
        &&& nkind(t, v) is Scalar
        &&& spec_starts_with_digit(ntext(t, nkids(t, items[j])[0]))
        &&& !spec_starts_with_digit(ntext(t, v))
        &&& r.name == lossy_text(spec_trim_quotes(ntext(t, v)))
        &&& r.start == nstart(t, v)
        &&& r.end == nend(t, v)
        &&& r.kind == kind@
    }
}

/// Some item of `items` is the weighted source of `r`.
pub open spec fn has_weighted_source(t: SyntaxTree, items: Seq<NodeId>, r: RefView, kind: KindId) -> bool {
    exists|j: int| #[trigger] weighted_source(t, items, j, r, kind)
}

/// A weighted block (`key = { 100 = event_a 50 = 0 }`) references only the
/// non-numeric values of its numerically keyed fields: every reference comes
/// from such a field and covers its value, so a numeric value (`50 = 0`,
/// "no event") is never a reference.
pub proof fn law_weighted_refs_skip_numbers(
    t: SyntaxTree,
    items: Seq<NodeId>,
    kind: KindId,
    alt: Seq<Seq<char>>,
    path: Seq<char>,
    schema: Schema,
)
    ensures
        forall|i: int|
            0 <= i < weighted_refs(t, items, kind, alt, path, schema).len() ==> has_weighted_source(
                t,
                items,
                #[trigger] weighted_refs(t, items, kind, alt, path, schema)[i],
                kind,
            ),
    decreases items.len(),
{
    if items.len() > 0 {
        let init = items.drop_last();
        law_weighted_refs_skip_numbers(t, init, kind, alt, path, schema);
        let prev = weighted_refs(t, init, kind, alt, path, schema);
        let all = weighted_refs(t, items, kind, alt, path, schema);
        let f = items.last();
        assert forall|i: int| 0 <= i < all.len() implies has_weighted_source(t, items, #[trigger] all[i], kind) by {
            if i < prev.len() {
                assert(all[i] == prev[i]);
                assert(has_weighted_source(t, init, prev[i], kind));
                let j = choose|j: int| #[trigger] weighted_source(t, init, j, prev[i], kind);
                assert(init[j] == items[j]);
                assert(weighted_source(t, items, j, all[i], kind));
            } else {
                let j = items.len() - 1;
                assert(items[j] == f);
                let guard = is_pair(t, f) && nkind(t, nkids(t, f)[1]) is Scalar
                    && spec_starts_with_digit(ntext(t, nkids(t, f)[0])) && !spec_starts_with_digit(ntext(t, nkids(t, f)[1]));
                let tail = if guard { spec_append_ref(t, kind, alt, nkids(t, f)[1], path, schema) } else { Seq::empty() };
                assert(all == prev + tail);
                assert(guard);
                assert(all[i] == tail[i - prev.len()]);
                assert(weighted_source(t, items, j, all[i], kind));
            }
        }
    }
}

} // verus!
