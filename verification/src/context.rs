//! Structural contexts: what kind of clause is expected at a tree position.
//!
//! Given the chain of keys enclosing a position (or a parsed tree and a
//! node), the engine answers whether it sits in an effect clause, a trigger
//! clause, a script value, a dynamic description, or a structural block with
//! enumerable fields. The specs — which directory produces which root
//! context, what each structural block looks like — are game data.

use vstd::prelude::*;
use vstd::string::StringSliceAdditionalSpecFns;

use crate::extract::{blockish, lemma_kid, nkids, nkind, ntext, okn};
use crate::node::{NodeId, NodeKind, SyntaxTree};
use crate::text::{bytes_start_with, slice_eq, str_starts_with};

verus! {

/// The kind of clause a block position expects.
#[derive(Clone, Copy, Debug, PartialEq, Eq)]
pub enum ClauseKind {
    /// Mutates game state (`immediate = { … }`, option bodies).
    Effect,
    /// Checks game state (`trigger = { … }`, `limit = { … }`).
    Trigger,
    /// Arithmetic with conditional branches.
    ScriptValue,
    /// `base` + weighted `modifier = { <triggers> }` blocks.
    ScriptedModifier,
    /// A static-modifier body: `<modifier tag> = <number>` lines.
    StaticModifier,
    /// The dynamic-description mini-language.
    DynamicDesc,
    /// A structural block with enumerable fields.
    Struct(&'static StructSpec),
    /// A plain setting or data value; no clause inside.
    Config,
    /// Nothing is known about this position.
    Unknown,
}

/// What an unknown key means inside a [`StructSpec`].
#[derive(Clone, Copy, Debug, PartialEq, Eq)]
pub enum Fallback {
    /// Unknown keys are inline effects.
    Effect,
    /// Unknown keys are triggers.
    Trigger,
    /// Unknown keys are data.
    Ignore,
    /// Unknown keys are invalid here.
    Deny,
    /// Unknown keys are static-modifier tags.
    Modifier,
    /// Unknown block-valued keys are definitions of another struct.
    Struct(&'static StructSpec),
}

/// What a scalar value in a structural field is.
#[derive(Clone, Copy, Debug, PartialEq, Eq, Structural)]
pub enum ScalarKind {
    /// A keyword, number, bool, path — plain configuration.
    Setting,
    /// An event target / scope chain.
    Target,
    /// A localization key.
    LocKey,
}

/// The accepted value forms of one structural field.
#[derive(Clone, Copy, Debug, PartialEq, Eq)]
pub struct FieldSpec {
    pub scalar: Option<ScalarKind>,
    pub block: Option<ClauseKind>,
    /// The fixed scope type the block's contents run in, if any.
    pub scope: Option<&'static str>,
    /// Human documentation for this field.
    pub doc: Option<&'static str>,
    /// The known scalar values of this field (suggestions, never validation).
    pub values: Option<&'static [&'static str]>,
}

/// A block-valued field.
pub fn block(kind: ClauseKind) -> (f: FieldSpec)
    ensures
        f == (FieldSpec { scalar: None, block: Some(kind), scope: None, doc: None, values: None }),
{
    FieldSpec { scalar: None, block: Some(kind), scope: None, doc: None, values: None }
}

/// A block-valued field whose contents run in a fixed scope type.
pub fn block_scoped(kind: ClauseKind, scope: &'static str) -> (f: FieldSpec)
    ensures
        f == (FieldSpec { scalar: None, block: Some(kind), scope: Some(scope), doc: None, values: None }),
{
    FieldSpec { scalar: None, block: Some(kind), scope: Some(scope), doc: None, values: None }
}

/// A scalar-valued field.
pub fn scalar(kind: ScalarKind) -> (f: FieldSpec)
    ensures
        f == (FieldSpec { scalar: Some(kind), block: None, scope: None, doc: None, values: None }),
{
    FieldSpec { scalar: Some(kind), block: None, scope: None, doc: None, values: None }
}

/// A field accepting either form.
pub fn scalar_or_block(s: ScalarKind, b: ClauseKind) -> (f: FieldSpec)
    ensures
        f == (FieldSpec { scalar: Some(s), block: Some(b), scope: None, doc: None, values: None }),
{
    FieldSpec { scalar: Some(s), block: Some(b), scope: None, doc: None, values: None }
}

impl FieldSpec {
    /// Attaches hover documentation to a field spec.
    pub fn doc(self, doc: &'static str) -> (f: FieldSpec)
        ensures
            f == (FieldSpec { doc: Some(doc), ..self }),
    {
        FieldSpec { doc: Some(doc), ..self }
    }

    /// Attaches the field's known scalar values.
    pub fn values(self, values: &'static [&'static str]) -> (f: FieldSpec)
        ensures
            f == (FieldSpec { values: Some(values), ..self }),
    {
        FieldSpec { values: Some(values), ..self }
    }
}

/// An enumerable structural block: known fields plus a rule for the rest.
#[derive(Debug, PartialEq, Eq)]
pub struct StructSpec {
    pub name: &'static str,
    pub fields: &'static [(&'static str, FieldSpec)],
    pub fallback: Fallback,
}

/// The spec of the first field named (byte for byte) `key`.
pub open spec fn first_field(fields: Seq<(&'static str, FieldSpec)>, key: Seq<u8>) -> Option<FieldSpec>
    decreases fields.len(),
{
    if fields.len() == 0 {
        None
    } else if fields[0].0.spec_bytes() == key {
        Some(fields[0].1)
    } else {
        first_field(fields.drop_first(), key)
    }
}

impl StructSpec {
    /// The field spec for `key`, if this struct declares it.
    pub fn field(&self, key: &str) -> (r: Option<&FieldSpec>)
        ensures
            r is None ==> first_field(self.fields@, key.spec_bytes()) is None,
            r matches Some(f) ==> first_field(self.fields@, key.spec_bytes()) == Some(*f),
    {
        self.field_bytes(key.as_bytes())
    }

    fn field_bytes(&self, key: &[u8]) -> (r: Option<&FieldSpec>)
        ensures
            r is None ==> first_field(self.fields@, key@) is None,
            r matches Some(f) ==> first_field(self.fields@, key@) == Some(*f),
    {
        let ghost fs = self.fields@;
        assert(fs.skip(0) =~= fs);
        let mut i: usize = 0;
        while i < self.fields.len()
            invariant
                i <= fs.len(),
                fs == self.fields@,
                first_field(fs, key@) == first_field(fs.skip(i as int), key@),
            decreases fs.len() - i,
        {
            assert(fs.skip(i as int).drop_first() =~= fs.skip(i as int + 1));
            assert(fs.skip(i as int)[0] == fs[i as int]);
            if slice_eq(self.fields[i].0.as_bytes(), key) {
                return Some(&self.fields[i].1);
            }
            i += 1;
        }
        None
    }
}

/// Directory-to-root-context table, plus the built-in effects whose block
/// value is a documented structure.
#[derive(Debug)]
pub struct ContextSchema {
    pub roots: &'static [(&'static str, ClauseKind)],
    pub effect_structs: &'static [(&'static str, &'static StructSpec)],
}

/// The root clause of the first root whose prefix starts `path`.
pub open spec fn first_root(roots: Seq<(&'static str, ClauseKind)>, path: Seq<u8>) -> Option<ClauseKind>
    decreases roots.len(),
{
    if roots.len() == 0 {
        None
    } else if bytes_start_with(path, roots[0].0.spec_bytes()) {
        Some(roots[0].1)
    } else {
        first_root(roots.drop_first(), path)
    }
}

/// The struct of the first effect entry named (byte for byte) `key`.
pub open spec fn first_effect_struct(es: Seq<(&'static str, &'static StructSpec)>, key: Seq<u8>) -> Option<
    &'static StructSpec,
>
    decreases es.len(),
{
    if es.len() == 0 {
        None
    } else if es[0].0.spec_bytes() == key {
        Some(es[0].1)
    } else {
        first_effect_struct(es.drop_first(), key)
    }
}

impl ContextSchema {
    fn root_for(&self, rel_path: &str) -> (r: Option<ClauseKind>)
        ensures
            r == first_root(self.roots@, rel_path.spec_bytes()),
    {
        let ghost rs = self.roots@;
        assert(rs.skip(0) =~= rs);
        let mut i: usize = 0;
        while i < self.roots.len()
            invariant
                i <= rs.len(),
                rs == self.roots@,
                first_root(rs, rel_path.spec_bytes()) == first_root(rs.skip(i as int), rel_path.spec_bytes()),
            decreases rs.len() - i,
        {
            assert(rs.skip(i as int).drop_first() =~= rs.skip(i as int + 1));
            assert(rs.skip(i as int)[0] == rs[i as int]);
            if str_starts_with(rel_path, self.roots[i].0) {
                return Some(self.roots[i].1);
            }
            i += 1;
        }
        None
    }

    fn effect_struct(&self, key: &[u8]) -> (r: Option<&'static StructSpec>)
        ensures
            r == first_effect_struct(self.effect_structs@, key@),
    {
        let ghost es = self.effect_structs@;
        assert(es.skip(0) =~= es);
        let mut i: usize = 0;
        while i < self.effect_structs.len()
            invariant
                i <= es.len(),
                es == self.effect_structs@,
                first_effect_struct(es, key@) == first_effect_struct(es.skip(i as int), key@),
            decreases es.len() - i,
        {
            assert(es.skip(i as int).drop_first() =~= es.skip(i as int + 1));
            assert(es.skip(i as int)[0] == es[i as int]);
            if slice_eq(self.effect_structs[i].0.as_bytes(), key) {
                return Some(self.effect_structs[i].1);
            }
            i += 1;
        }
        None
    }
}

/// `limit`.
pub open spec fn is_limit(key: Seq<u8>) -> bool {
    key == seq![108u8, 105, 109, 105, 116]
}

/// `filter`.
pub open spec fn is_filter(key: Seq<u8>) -> bool {
    key == seq![102u8, 105, 108, 116, 101, 114]
}

/// `trigger`.
pub open spec fn is_trigger(key: Seq<u8>) -> bool {
    key == seq![116u8, 114, 105, 103, 103, 101, 114]
}

/// Entering a struct's field `key`: a declared field opens its block clause
/// (block value) or is configuration (scalar value), and the value form it
/// does not accept is unknown; an undeclared key follows the fallback.
pub open spec fn spec_step_struct(spec: StructSpec, key: Seq<u8>, value_is_block: bool) -> ClauseKind {
    match first_field(spec.fields@, key) {
        Some(field) => if value_is_block && field.block is Some {
            field.block.unwrap()
        } else if !value_is_block && field.scalar is Some {
            ClauseKind::Config
        } else {
            ClauseKind::Unknown
        },
        None => match spec.fallback {
            Fallback::Effect => ClauseKind::Effect,
            Fallback::Trigger => ClauseKind::Trigger,
            Fallback::Ignore => ClauseKind::Config,
            Fallback::Deny => ClauseKind::Unknown,
            Fallback::Modifier => ClauseKind::StaticModifier,
            Fallback::Struct(s) => if value_is_block {
                ClauseKind::Struct(s)
            } else {
                ClauseKind::Config
            },
        },
    }
}

/// The context transition: entering the value of `key = value` from `ctx`.
/// Effects flip to triggers under `limit`/`filter`; triggers stay triggers;
/// script values flip under `limit`; scripted-modifier blocks hold
/// triggers; static modifiers hold plain data; dynamic descriptions escape
/// only through `trigger`; structs apply their field rules.
pub open spec fn spec_step(ctx: ClauseKind, key: Seq<u8>, value_is_block: bool) -> ClauseKind {
    match ctx {
        ClauseKind::Effect => if is_limit(key) || is_filter(key) {
            ClauseKind::Trigger
        } else {
            ClauseKind::Effect
        },
        ClauseKind::Trigger => ClauseKind::Trigger,
        ClauseKind::ScriptValue => if is_limit(key) {
            ClauseKind::Trigger
        } else {
            ClauseKind::ScriptValue
        },
        ClauseKind::ScriptedModifier => if value_is_block {
            ClauseKind::Trigger
        } else {
            ClauseKind::ScriptedModifier
        },
        ClauseKind::StaticModifier => ClauseKind::Config,
        ClauseKind::DynamicDesc => if is_trigger(key) {
            ClauseKind::Trigger
        } else {
            ClauseKind::DynamicDesc
        },
        ClauseKind::Struct(spec) => spec_step_struct(*spec, key, value_is_block),
        ClauseKind::Config => ClauseKind::Config,
        ClauseKind::Unknown => ClauseKind::Unknown,
    }
}

/// The context of the block opened by `key` from within `ctx` when walking a
/// key chain: a step into effect context that names a structured built-in
/// effect opens that struct instead.
pub open spec fn spec_chain_step(schema: ContextSchema, ctx: ClauseKind, key: Seq<u8>) -> ClauseKind {
    match spec_step(ctx, key, true) {
        ClauseKind::Effect => match first_effect_struct(schema.effect_structs@, key) {
            Some(s) => ClauseKind::Struct(s),
            None => ClauseKind::Effect,
        },
        other => other,
    }
}

/// The context after folding the key chain (outermost first) from the body
/// clause; `None` for an empty chain.
pub open spec fn spec_chain(schema: ContextSchema, keys: Seq<Seq<u8>>, body: ClauseKind) -> Option<ClauseKind>
    decreases keys.len(),
{
    if keys.len() == 0 {
        None
    } else {
        match spec_chain(schema, keys.drop_last(), body) {
            None => Some(body),
            Some(c) => Some(spec_chain_step(schema, c, keys.last())),
        }
    }
}

/// The context of a position inside the key chain `keys` (outermost first)
/// in a file at `path`: unknown without a root clause (the override `root`,
/// else the directory's), file-top-level configuration for an empty chain.
pub open spec fn spec_context_of_chain(
    schema: ContextSchema,
    keys: Seq<Seq<u8>>,
    root: Option<ClauseKind>,
    path: Seq<u8>,
) -> ClauseKind {
    let body = match root {
        Some(r) => Some(r),
        None => first_root(schema.roots@, path),
    };
    match body {
        None => ClauseKind::Unknown,
        Some(b) => match spec_chain(schema, keys, b) {
            Some(c) => c,
            None => ClauseKind::Config,
        },
    }
}

/// Folds the context transitions over an enclosing-block key chain
/// (outermost first). Anonymous blocks pass an empty key; an empty chain is
/// file top level ([`ClauseKind::Config`]).
pub fn context_of_chain(keys: &[&[u8]], rel_path: &str, schema: &ContextSchema) -> (c: ClauseKind)
    ensures
        c == spec_context_of_chain(*schema, keys@.map_values(|k: &[u8]| k@), None, rel_path.spec_bytes()),
{
    context_of_chain_rooted(keys, None, rel_path, schema)
}

/// Like [`context_of_chain`], but `root` overrides the directory-derived body
/// clause (inline typed definitions).
pub fn context_of_chain_rooted(
    keys: &[&[u8]],
    root: Option<ClauseKind>,
    rel_path: &str,
    schema: &ContextSchema,
) -> (c: ClauseKind)
    ensures
        c == spec_context_of_chain(*schema, keys@.map_values(|k: &[u8]| k@), root, rel_path.spec_bytes()),
{
    let body_kind = match root {
        Some(r) => r,
        None => match schema.root_for(rel_path) {
            Some(r) => r,
            None => {
                return ClauseKind::Unknown;
            },
        },
    };
    let ghost ks = keys@.map_values(|k: &[u8]| k@);
    let mut ctx: Option<ClauseKind> = None;
    let mut i: usize = 0;
    while i < keys.len()
        invariant
            i <= keys@.len(),
            ks == keys@.map_values(|k: &[u8]| k@),
            ctx == spec_chain(*schema, ks.take(i as int), body_kind),
        decreases keys@.len() - i,
    {
        assert(ks.take(i as int + 1).drop_last() =~= ks.take(i as int));
        assert(ks.take(i as int + 1).last() == keys@[i as int]@);
        let key = keys[i];
        ctx = Some(
            match ctx {
                None => body_kind,
                Some(c) => match step(c, key, true) {
                    ClauseKind::Effect => match schema.effect_struct(key) {
                        Some(s) => ClauseKind::Struct(s),
                        None => ClauseKind::Effect,
                    },
                    other => other,
                },
            },
        );
        i += 1;
    }
    assert(ks.take(keys@.len() as int) =~= ks);
    match ctx {
        Some(c) => c,
        None => ClauseKind::Config,
    }
}

/// The clause a `key` opens from within `ctx` — what its value is.
pub fn resolve_key(ctx: ClauseKind, key: &str, value_is_block: bool) -> (c: ClauseKind)
    ensures
        c == spec_step(ctx, key.spec_bytes(), value_is_block),
{
    step(ctx, key.as_bytes(), value_is_block)
}

fn is_key(key: &[u8], word: &[u8]) -> (r: bool)
    ensures
        r == (key@ == word@),
{
    slice_eq(key, word)
}

/// The context transition: entering the value of `key = value` from `ctx`.
fn step(ctx: ClauseKind, key: &[u8], value_is_block: bool) -> (c: ClauseKind)
    ensures
        c == spec_step(ctx, key@, value_is_block),
{
    match ctx {
        ClauseKind::Effect => {
            let limit: [u8; 5] = [108u8, 105, 109, 105, 116];
            let filter: [u8; 6] = [102u8, 105, 108, 116, 101, 114];
            assert(limit@ =~= seq![108u8, 105, 109, 105, 116]);
            assert(filter@ =~= seq![102u8, 105, 108, 116, 101, 114]);
            if is_key(key, &limit) || is_key(key, &filter) {
                ClauseKind::Trigger
            } else {
                ClauseKind::Effect
            }
        },
        ClauseKind::Trigger => ClauseKind::Trigger,
        ClauseKind::ScriptValue => {
            let limit: [u8; 5] = [108u8, 105, 109, 105, 116];
            assert(limit@ =~= seq![108u8, 105, 109, 105, 116]);
            if is_key(key, &limit) {
                ClauseKind::Trigger
            } else {
                ClauseKind::ScriptValue
            }
        },
        ClauseKind::ScriptedModifier => {
            if value_is_block {
                ClauseKind::Trigger
            } else {
                ClauseKind::ScriptedModifier
            }
        },
        ClauseKind::StaticModifier => ClauseKind::Config,
        ClauseKind::DynamicDesc => {
            let trigger: [u8; 7] = [116u8, 114, 105, 103, 103, 101, 114];
            assert(trigger@ =~= seq![116u8, 114, 105, 103, 103, 101, 114]);
            if is_key(key, &trigger) {
                ClauseKind::Trigger
            } else {
                ClauseKind::DynamicDesc
            }
        },
        ClauseKind::Struct(spec) => step_struct(spec, key, value_is_block),
        ClauseKind::Config => ClauseKind::Config,
        ClauseKind::Unknown => ClauseKind::Unknown,
    }
}

fn step_struct(spec: &'static StructSpec, key: &[u8], value_is_block: bool) -> (c: ClauseKind)
    ensures
        c == spec_step_struct(*spec, key@, value_is_block),
{
    if let Some(field) = spec.field_bytes(key) {
        return if value_is_block && field.block.is_some() {
            field.block.unwrap()
        } else if !value_is_block && field.scalar.is_some() {
            ClauseKind::Config
        } else {
            ClauseKind::Unknown
        };
    }
    match spec.fallback {
        Fallback::Effect => ClauseKind::Effect,
        Fallback::Trigger => ClauseKind::Trigger,
        Fallback::Ignore => ClauseKind::Config,
        Fallback::Deny => ClauseKind::Unknown,
        Fallback::Modifier => ClauseKind::StaticModifier,
        Fallback::Struct(s) => if value_is_block {
            ClauseKind::Struct(s)
        } else {
            ClauseKind::Config
        },
    }
}

// ---------------------------------------------------------------------------
// Contexts of tree positions.

/// The ancestor chain from `cur` down to `target` (both included) found by a
/// depth-first search in child order, if `target` lies under `cur`.
pub open spec fn dfs_path(t: SyntaxTree, cur: NodeId, target: NodeId) -> Option<Seq<NodeId>>
    decreases t.rank()[cur@ as int], 1nat, 0int,
{
    if !okn(t, cur) {
        None
    } else if cur == target {
        Some(seq![cur])
    } else {
        match dfs_kids(t, cur, 0, target) {
            Some(p) => Some(seq![cur] + p),
            None => None,
        }
    }
}

/// The chain found under the children of `p` from the `j`-th on.
pub open spec fn dfs_kids(t: SyntaxTree, p: NodeId, j: int, target: NodeId) -> Option<Seq<NodeId>>
    decreases t.rank()[p@ as int], 0nat, nkids(t, p).len() - j,
{
    if !okn(t, p) || j < 0 || j >= nkids(t, p).len() {
        None
    } else {
        proof {
            lemma_kid(t, p, j);
        }
        match dfs_path(t, nkids(t, p)[j], target) {
            Some(x) => Some(x),
            None => dfs_kids(t, p, j + 1, target),
        }
    }
}

/// The context after the first `m` parent→child steps of `path`, and
/// whether still at file top level: only a field's value step counts — the
/// first opens the body clause (a block value) or configuration (a scalar),
/// each later one steps by the field's key.
pub open spec fn path_fold(t: SyntaxTree, path: Seq<NodeId>, m: int, body: ClauseKind) -> (ClauseKind, bool)
    decreases m,
{
    if m <= 0 {
        (ClauseKind::Config, true)
    } else {
        let prev = path_fold(t, path, m - 1, body);
        let parent = path[m - 1];
        let child = path[m];
        if !(nkind(t, parent) is Field) || nkids(t, parent).len() != 2 || child != nkids(t, parent)[1] {
            prev
        } else {
            let vib = blockish(nkind(t, child));
            if prev.1 {
                (
                    if vib {
                        body
                    } else {
                        ClauseKind::Config
                    },
                    false,
                )
            } else {
                (spec_step(prev.0, ntext(t, nkids(t, parent)[0]), vib), false)
            }
        }
    }
}

/// The clause context of `node` in a file at `path`: unknown without a
/// directory root or when `node` is not in the tree, else the fold of the
/// root→node chain.
pub open spec fn spec_context_at(t: SyntaxTree, node: NodeId, path: Seq<u8>, schema: ContextSchema) -> ClauseKind {
    match first_root(schema.roots@, path) {
        None => ClauseKind::Unknown,
        Some(body) => match dfs_path(t, NodeId::spec_root(), node) {
            None => ClauseKind::Unknown,
            Some(chain) => path_fold(t, chain, chain.len() - 1, body).0,
        },
    }
}

fn dfs(tree: &SyntaxTree, current: NodeId, target: NodeId, path: &mut Vec<NodeId>) -> (found: bool)
    requires
        okn(*tree, current),
    ensures
        found == dfs_path(*tree, current, target) is Some,
        found ==> final(path)@ == old(path)@ + dfs_path(*tree, current, target).unwrap(),
        !found ==> final(path)@ == old(path)@,
    decreases tree.rank()[current@ as int], 1nat, 0int,
{
    let ghost t = *tree;
    let ghost base = path@;
    path.push(current);
    if current == target {
        return true;
    }
    let kids = tree.children(current);
    let mut j: usize = 0;
    while j < kids.len()
        invariant
            t == *tree,
            okn(t, current),
            current != target,
            kids@ == nkids(t, current),
            j <= kids@.len(),
            path@ == base.push(current),
            base == old(path)@,
            dfs_kids(t, current, 0, target) == dfs_kids(t, current, j as int, target),
        decreases kids@.len() - j,
    {
        proof {
            lemma_kid(t, current, j as int);
        }
        if dfs(tree, kids[j], target, path) {
            assert(path@ =~= base + (seq![current] + dfs_path(t, kids@[j as int], target).unwrap()));
            return true;
        }
        j += 1;
    }
    path.pop();
    assert(path@ =~= base);
    false
}

/// The clause context of `node` in a file at `rel_path`.
///
/// A field's key and the field node itself report the context of their
/// containing block; the value reports the context the key opens.
pub fn context_at(tree: &SyntaxTree, node: NodeId, rel_path: &str, schema: &ContextSchema) -> (c: ClauseKind)
    requires
        tree.wf(),
    ensures
        c == spec_context_at(*tree, node, rel_path.spec_bytes(), *schema),
{
    let ghost t = *tree;
    let body_kind = match schema.root_for(rel_path) {
        Some(k) => k,
        None => {
            return ClauseKind::Unknown;
        },
    };
    proof {
        NodeId::lemma_spec_root();
    }
    let mut path: Vec<NodeId> = Vec::new();
    if !dfs(tree, tree.root(), node, &mut path) {
        return ClauseKind::Unknown;
    }
    assert(path@ =~= dfs_path(t, NodeId::spec_root(), node).unwrap());
    proof {
        lemma_dfs_nodes(t, NodeId::spec_root(), node);
    }
    let mut ctx = ClauseKind::Config;
    let mut at_top = true;
    let mut m: usize = 1;
    while m < path.len()
        invariant
            t == *tree,
            1 <= m <= path@.len() || path@.len() == 0,
            path@.len() >= 1,
            forall|i: int| 0 <= i < path@.len() ==> okn(t, #[trigger] path@[i]),
            (ctx, at_top) == path_fold(t, path@, m as int - 1, body_kind),
        decreases path@.len() - m,
    {
        let parent = path[m - 1];
        let child = path[m];
        proof {
            assert(okn(t, path@[m - 1]));
        }
        if tree.node(parent).kind == NodeKind::Field {
            let kids = tree.child_ids(parent);
            if kids.len() == 2 && child == kids[1] {
                proof {
                    lemma_kid(t, parent, 0);
                    lemma_kid(t, parent, 1);
                }
                let ck = tree.node(child).kind;
                let value_is_block = ck == NodeKind::Block || ck == NodeKind::TaggedBlock;
                if at_top {
                    ctx = if value_is_block {
                        body_kind
                    } else {
                        ClauseKind::Config
                    };
                    at_top = false;
                } else {
                    ctx = step(ctx, tree.node_text(kids[0]), value_is_block);
                }
            }
        }
        m += 1;
    }
    ctx
}

/// Every node on a found chain is a node of the tree.
proof fn lemma_dfs_nodes(t: SyntaxTree, cur: NodeId, target: NodeId)
    ensures
        dfs_path(t, cur, target) matches Some(p) ==> p.len() >= 1 && forall|i: int| 0 <= i < p.len() ==> okn(t, #[trigger] p[i]),
    decreases t.rank()[cur@ as int], 1nat, 0int,
{
    if okn(t, cur) && cur != target {
        lemma_dfs_kids_nodes(t, cur, 0, target);
        if let Some(p) = dfs_kids(t, cur, 0, target) {
            let q = seq![cur] + p;
            assert forall|i: int| 0 <= i < q.len() implies okn(t, #[trigger] q[i]) by {
                if i > 0 {
                    assert(q[i] == p[i - 1]);
                }
            }
        }
    }
}

proof fn lemma_dfs_kids_nodes(t: SyntaxTree, p: NodeId, j: int, target: NodeId)
    ensures
        dfs_kids(t, p, j, target) matches Some(q) ==> q.len() >= 1 && forall|i: int| 0 <= i < q.len() ==> okn(t, #[trigger] q[i]),
    decreases t.rank()[p@ as int], 0nat, nkids(t, p).len() - j,
{
    if okn(t, p) && 0 <= j < nkids(t, p).len() {
        lemma_kid(t, p, j);
        lemma_dfs_nodes(t, nkids(t, p)[j], target);
        lemma_dfs_kids_nodes(t, p, j + 1, target);
    }
}

// ---------------------------------------------------------------------------
// Chains of parent→child steps.

/// Step `i` of `q` goes from a node to one of its children.
pub open spec fn chain_link(t: SyntaxTree, q: Seq<NodeId>, i: int) -> bool {
    nkids(t, q[i]).contains(q[i + 1])
}

/// `q` is a non-empty chain of tree nodes, each a child of the one before.
pub open spec fn is_chain(t: SyntaxTree, q: Seq<NodeId>) -> bool {
    &&& q.len() > 0
    &&& forall|i: int| 0 <= i < q.len() ==> okn(t, #[trigger] q[i])
    &&& forall|i: int| 0 <= i < q.len() - 1 ==> #[trigger] chain_link(t, q, i)
}

/// The tree is tree-shaped: no node is the child of two nodes, and the root
/// is nobody's child.
pub open spec fn single_parents(t: SyntaxTree) -> bool {
    &&& forall|a: NodeId, b: NodeId, x: NodeId|
        okn(t, a) && okn(t, b) && #[trigger] nkids(t, a).contains(x) && #[trigger] nkids(t, b).contains(x) ==> a == b
    &&& forall|a: NodeId| okn(t, a) ==> !(#[trigger] nkids(t, a)).contains(NodeId::spec_root())
}

/// A well-formed tree is tree-shaped.
proof fn lemma_wf_single_parents(t: SyntaxTree)
    requires
        t.wf(),
    ensures
        single_parents(t),
{
    NodeId::lemma_spec_root();
    assert forall|a: NodeId, b: NodeId, x: NodeId|
        okn(t, a) && okn(t, b) && #[trigger] nkids(t, a).contains(x) && #[trigger] nkids(t, b).contains(x) implies a == b by {
        let ka = nkids(t, a);
        let kb = nkids(t, b);
        let pa = choose|p: int| 0 <= p < ka.len() && ka[p] == x;
        let pb = choose|p: int| 0 <= p < kb.len() && kb[p] == x;
        let ja = t.spec_nodes()[a@ as int].child_start + pa;
        let jb = t.spec_nodes()[b@ as int].child_start + pb;
        assert(t.spec_child_index()[ja] == x);
        assert(t.spec_child_index()[jb] == x);
        assert(ja == jb);
        assert(t.covers(a@ as int, ja));
        assert(t.covers(b@ as int, ja));
        assert(a@ == b@);
        NodeId::lemma_spec_new(0, a);
        NodeId::lemma_spec_new(0, b);
    }
    assert forall|a: NodeId| okn(t, a) implies !(#[trigger] nkids(t, a)).contains(NodeId::spec_root()) by {
        let ka = nkids(t, a);
        if ka.contains(NodeId::spec_root()) {
            let p = choose|p: int| 0 <= p < ka.len() && ka[p] == NodeId::spec_root();
            let j = t.spec_nodes()[a@ as int].child_start + p;
            assert(t.spec_child_index()[j] == NodeId::spec_root());
            assert(t.spec_child_index()[j]@ != 0);
        }
    }
}

proof fn lemma_prepend_chain(t: SyntaxTree, cur: NodeId, p: Seq<NodeId>)
    requires
        okn(t, cur),
        is_chain(t, p),
        nkids(t, cur).contains(p[0]),
    ensures
        is_chain(t, seq![cur] + p),
        (seq![cur] + p)[0] == cur,
        (seq![cur] + p).last() == p.last(),
{
    let q = seq![cur] + p;
    assert forall|i: int| 0 <= i < q.len() implies okn(t, #[trigger] q[i]) by {
        if i > 0 {
            assert(q[i] == p[i - 1]);
        }
    }
    assert forall|i: int| 0 <= i < q.len() - 1 implies #[trigger] chain_link(t, q, i) by {
        if i > 0 {
            assert(chain_link(t, p, i - 1));
            assert(q[i] == p[i - 1] && q[i + 1] == p[i]);
        } else {
            assert(q[1] == p[0]);
        }
    }
}

/// What the depth-first search finds is a chain from where it starts to the
/// target.
proof fn lemma_dfs_sound(t: SyntaxTree, cur: NodeId, target: NodeId)
    ensures
        dfs_path(t, cur, target) matches Some(q) ==> is_chain(t, q) && q[0] == cur && q.last() == target,
    decreases t.rank()[cur@ as int], 1nat, 0int,
{
    if okn(t, cur) && cur != target {
        lemma_dfs_kids_sound(t, cur, 0, target);
        if let Some(p) = dfs_kids(t, cur, 0, target) {
            lemma_prepend_chain(t, cur, p);
        }
    } else if okn(t, cur) {
        let q = seq![cur];
        assert(q[0] == cur);
    }
}

proof fn lemma_dfs_kids_sound(t: SyntaxTree, p: NodeId, j: int, target: NodeId)
    ensures
        dfs_kids(t, p, j, target) matches Some(q) ==> is_chain(t, q) && nkids(t, p).contains(q[0]) && q.last() == target,
    decreases t.rank()[p@ as int], 0nat, nkids(t, p).len() - j,
{
    if okn(t, p) && 0 <= j < nkids(t, p).len() {
        lemma_kid(t, p, j);
        lemma_dfs_sound(t, nkids(t, p)[j], target);
        lemma_dfs_kids_sound(t, p, j + 1, target);
    }
}

proof fn lemma_dfs_kids_complete(t: SyntaxTree, p: NodeId, j: int, j0: int, target: NodeId)
    requires
        okn(t, p),
        0 <= j <= j0 < nkids(t, p).len(),
        dfs_path(t, nkids(t, p)[j0], target) is Some,
    ensures
        dfs_kids(t, p, j, target) is Some,
    decreases j0 - j,
{
    lemma_kid(t, p, j);
    if j < j0 {
        lemma_dfs_kids_complete(t, p, j + 1, j0, target);
    }
}

/// The depth-first search finds the target whenever a chain leads to it.
proof fn lemma_dfs_complete(t: SyntaxTree, q: Seq<NodeId>)
    requires
        is_chain(t, q),
    ensures
        dfs_path(t, q[0], q.last()) is Some,
    decreases q.len(),
{
    if q[0] != q.last() {
        assert(q.len() > 1);
        assert(chain_link(t, q, 0));
        let r = q.drop_first();
        assert forall|i: int| 0 <= i < r.len() implies okn(t, #[trigger] r[i]) by {
            assert(r[i] == q[i + 1]);
        }
        assert forall|i: int| 0 <= i < r.len() - 1 implies #[trigger] chain_link(t, r, i) by {
            assert(chain_link(t, q, i + 1));
            assert(r[i] == q[i + 1] && r[i + 1] == q[i + 2]);
        }
        lemma_dfs_complete(t, r);
        assert(r[0] == q[1] && r.last() == q.last());
        let j0 = choose|j0: int| 0 <= j0 < nkids(t, q[0]).len() && nkids(t, q[0])[j0] == q[1];
        lemma_dfs_kids_complete(t, q[0], 0, j0, q.last());
    }
}

/// In a tree-shaped tree there is one chain from the root to each node.
proof fn lemma_chain_unique(t: SyntaxTree, a: Seq<NodeId>, b: Seq<NodeId>)
    requires
        single_parents(t),
        is_chain(t, a),
        is_chain(t, b),
        a[0] == NodeId::spec_root(),
        b[0] == NodeId::spec_root(),
        a.last() == b.last(),
    ensures
        a == b,
    decreases a.len() + b.len(),
{
    if a.len() == 1 && b.len() == 1 {
        assert(a =~= b);
    } else if a.len() == 1 {
        assert(chain_link(t, b, b.len() - 2));
        assert(okn(t, b[b.len() - 2]));
        assert(!nkids(t, b[b.len() - 2]).contains(NodeId::spec_root()));
    } else if b.len() == 1 {
        assert(chain_link(t, a, a.len() - 2));
        assert(okn(t, a[a.len() - 2]));
        assert(!nkids(t, a[a.len() - 2]).contains(NodeId::spec_root()));
    } else {
        let a2 = a.drop_last();
        let b2 = b.drop_last();
        assert(chain_link(t, a, a.len() - 2));
        assert(chain_link(t, b, b.len() - 2));
        assert(okn(t, a[a.len() - 2]) && okn(t, b[b.len() - 2]));
        assert(a2.last() == b2.last());
        assert forall|i: int| 0 <= i < a2.len() implies okn(t, #[trigger] a2[i]) by {
            assert(a2[i] == a[i]);
        }
        assert forall|i: int| 0 <= i < a2.len() - 1 implies #[trigger] chain_link(t, a2, i) by {
            assert(chain_link(t, a, i));
        }
        assert forall|i: int| 0 <= i < b2.len() implies okn(t, #[trigger] b2[i]) by {
            assert(b2[i] == b[i]);
        }
        assert forall|i: int| 0 <= i < b2.len() - 1 implies #[trigger] chain_link(t, b2, i) by {
            assert(chain_link(t, b, i));
        }
        lemma_chain_unique(t, a2, b2);
        assert(a =~= a2.push(a.last()));
        assert(b =~= b2.push(b.last()));
    }
}

/// The fold over the first `m` steps depends only on the first `m + 1`
/// nodes of the chain.
proof fn lemma_path_fold_prefix(t: SyntaxTree, a: Seq<NodeId>, b: Seq<NodeId>, m: int, body: ClauseKind)
    requires
        0 <= m < a.len(),
        m < b.len(),
        forall|i: int| 0 <= i <= m ==> a[i] == b[i],
    ensures
        path_fold(t, a, m, body) == path_fold(t, b, m, body),
    decreases m,
{
    if m > 0 {
        lemma_path_fold_prefix(t, a, b, m - 1, body);
        assert(a[m - 1] == b[m - 1] && a[m] == b[m]);
    }
}

/// The file root reports configuration context.
pub proof fn law_root_context(t: SyntaxTree, path: Seq<u8>, schema: ContextSchema)
    requires
        t.wf(),
        first_root(schema.roots@, path) is Some,
    ensures
        spec_context_at(t, NodeId::spec_root(), path, schema) == ClauseKind::Config,
{
    NodeId::lemma_spec_root();
    assert(okn(t, NodeId::spec_root()));
}

/// A child's context from its parent's: the value of a field steps from the
/// field's context by the field's key (or, for a top-level definition,
/// opens the directory's body kind for a block and configuration for a
/// scalar); every other child — a field's key, a block's item — reports its
/// parent's context.
pub proof fn law_child_context(t: SyntaxTree, p: NodeId, j: int, path: Seq<u8>, schema: ContextSchema)
    requires
        okn(t, p),
        0 <= j < nkids(t, p).len(),
        dfs_path(t, NodeId::spec_root(), p) is Some,
        first_root(schema.roots@, path) is Some,
    ensures
        ({
            let body = first_root(schema.roots@, path)->0;
            let chain = dfs_path(t, NodeId::spec_root(), p)->0;
            let st = path_fold(t, chain, chain.len() - 1, body);
            let x = nkids(t, p)[j];
            spec_context_at(t, x, path, schema) == if nkind(t, p) is Field && nkids(t, p).len() == 2 && x
                == nkids(t, p)[1] {
                if st.1 {
                    if blockish(nkind(t, x)) {
                        body
                    } else {
                        ClauseKind::Config
                    }
                } else {
                    spec_step(st.0, ntext(t, nkids(t, p)[0]), blockish(nkind(t, x)))
                }
            } else {
                spec_context_at(t, p, path, schema)
            }
        }),
{
    let body = first_root(schema.roots@, path)->0;
    let root = NodeId::spec_root();
    let chain = dfs_path(t, root, p)->0;
    let x = nkids(t, p)[j];
    lemma_wf_single_parents(t);
    lemma_kid(t, p, j);
    lemma_dfs_sound(t, root, p);
    let q = chain.push(x);
    assert forall|i: int| 0 <= i < q.len() implies okn(t, #[trigger] q[i]) by {
        if i < chain.len() {
            assert(q[i] == chain[i]);
        }
    }
    assert forall|i: int| 0 <= i < q.len() - 1 implies #[trigger] chain_link(t, q, i) by {
        if i < chain.len() - 1 {
            assert(chain_link(t, chain, i));
            assert(q[i] == chain[i] && q[i + 1] == chain[i + 1]);
        } else {
            assert(q[i] == p && q[i + 1] == x);
            assert(nkids(t, p)[j] == x);
        }
    }
    assert(is_chain(t, q));
    assert(q[0] == root && q.last() == x);
    lemma_dfs_complete(t, q);
    lemma_dfs_sound(t, root, x);
    let found = dfs_path(t, root, x)->0;
    lemma_chain_unique(t, found, q);
    let m = chain.len() as int;
    lemma_path_fold_prefix(t, q, chain, m - 1, body);
    assert(q[m - 1] == p && q[m] == x);
}

// ---------------------------------------------------------------------------
// Laws.

/// Trigger context is closed under descent: whatever the keys, a chain that
/// reaches a trigger clause never leaves it.
pub proof fn law_trigger_context_is_closed(key: Seq<u8>, value_is_block: bool)
    ensures
        spec_step(ClauseKind::Trigger, key, value_is_block) == ClauseKind::Trigger,
{
}

/// Unknown and configuration positions stay what they are under descent,
/// and a static modifier holds only configuration.
pub proof fn law_unknown_and_config_absorb(key: Seq<u8>, value_is_block: bool)
    ensures
        spec_step(ClauseKind::Unknown, key, value_is_block) == ClauseKind::Unknown,
        spec_step(ClauseKind::Config, key, value_is_block) == ClauseKind::Config,
        spec_step(ClauseKind::StaticModifier, key, value_is_block) == ClauseKind::Config,
{
}

/// A chain with a key that reaches trigger context ends in trigger context.
pub proof fn law_chain_stays_in_trigger(schema: ContextSchema, keys: Seq<Seq<u8>>, body: ClauseKind, n: int)
    requires
        1 <= n <= keys.len(),
        spec_chain(schema, keys.take(n), body) == Some(ClauseKind::Trigger),
    ensures
        spec_chain(schema, keys, body) == Some(ClauseKind::Trigger),
    decreases keys.len() - n,
{
    if n < keys.len() {
        let t = keys.take(n + 1);
        assert(t.drop_last() =~= keys.take(n));
        law_chain_stays_in_trigger(schema, keys, body, n + 1);
    } else {
        assert(keys.take(n) =~= keys);
    }
}

/// Inside effects, the value of a `limit` or a `filter` key holds triggers
/// (`if = { limit = { … } … }`, `every_vassal = { filter = { … } … }`),
/// whatever the value's form; a key of another spelling keeps effect
/// context.
pub proof fn law_limit_and_filter_open_triggers(key: Seq<u8>, value_is_block: bool)
    ensures
        spec_step(ClauseKind::Effect, seq![108u8, 105, 109, 105, 116], value_is_block) == ClauseKind::Trigger,
        spec_step(ClauseKind::Effect, seq![102u8, 105, 108, 116, 101, 114], value_is_block) == ClauseKind::Trigger,
        key != seq![108u8, 105, 109, 105, 116] && key != seq![102u8, 105, 108, 116, 101, 114] ==> spec_step(
            ClauseKind::Effect,
            key,
            value_is_block,
        ) == ClauseKind::Effect,
        spec_step(ClauseKind::ScriptValue, seq![108u8, 105, 109, 105, 116], value_is_block) == ClauseKind::Trigger,
        spec_step(ClauseKind::DynamicDesc, seq![116u8, 114, 105, 103, 103, 101, 114], value_is_block)
            == ClauseKind::Trigger,
{
}

} // verus!
