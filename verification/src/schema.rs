//! The schema: game-specific knowledge as data, compiled into lookup lists.
//!
//! Every game concept is one [`KindSpec`] row; [`Schema::new`] compiles the
//! rows once into the lists the extraction engine consults.  Each compiled
//! list is stated exactly over the input rows (see the `spec_*` functions),
//! and every query is stated over those lists.

use vstd::prelude::*;
use vstd::string::StringSliceAdditionalSpecFns;

use crate::kind::{CallKinds, GuiKinds, KindId};
use crate::text::{
    bytes_start_with, find_byte_from, has_byte, lemma_find_byte_from, slice_eq, slice_eq_take,
    slice_find_byte_from, slice_has_byte, str_eq, str_starts_with,
};

verus! {

/// A presentation hint for a symbol kind, neutral to any editor protocol.
#[derive(Clone, Copy, Debug, PartialEq, Eq, Structural)]
pub enum IconHint {
    /// Callable/composable logic (scripted triggers, effects).
    Function,
    /// Something that fires (events, on_actions).
    Event,
    /// A label attached to objects (traits).
    Tag,
    /// A player-facing action (decisions).
    Action,
    /// A concrete game object (characters).
    Object,
    /// A node in a containment hierarchy (landed titles).
    Hierarchy,
    /// A piece of text (localization keys).
    Text,
}

/// How definitions are shaped inside a directory's files.
#[derive(Clone, Copy, Debug)]
pub enum DefShape {
    /// Definitions are the top-level `NAME = { … }` fields.
    TopLevel,
    /// Definitions are the top-level `NAME = <value>` fields (scalar or block).
    TopLevelValued,
    /// A key is a definition (and is recursed into) iff it starts with one of
    /// these prefixes and its value is a block (landed titles).
    Tree { key_prefixes: &'static [&'static str] },
    /// Definitions are the block-valued children of named container blocks.
    ChildrenOf { containers: &'static [&'static str] },
    /// Definitions are the block-valued children of every top-level block,
    /// minus the named block-valued attributes of that outer block.
    GroupedBlocks { exclude: &'static [&'static str] },
    /// `NAMESPACE = { FIELD = value }` defines `NAMESPACE<separator>FIELD`.
    QualifiedFields { separator: &'static str },
    /// Definitions come from a semicolon-separated CSV file (never reaches the
    /// script extractor).
    IdCsv,
}

/// Where a kind's definitions come from.
#[derive(Clone, Copy, Debug)]
pub struct DefSource {
    pub dir_prefix: &'static str,
    pub shape: DefShape,
}

/// One syntactic shape a reference to a kind can take.
#[derive(Clone, Copy, Debug)]
pub enum RefPattern {
    /// `key = X` — the scalar value resolves to the kind.
    KeyValue(&'static str),
    /// `key = X` directly inside a top-level definition body (depth 1).
    KeyValueTop(&'static str),
    /// `parent = { key = X … }` — only directly inside a block opened by `parent`.
    KeyValueUnder(&'static str, &'static str),
    /// `key = { field = X … }` — the block's named-field scalar.
    KeyBlockField(&'static str, &'static str),
    /// `key = { X Y … }` — loose scalar items.
    KeyList(&'static str),
    /// `key = { X = v Y = v … }` — the block's field keys.
    KeyBlockKeys(&'static str),
    /// `key = { ANY = X ANY = { X Y } … }` — the block's field values.
    KeyBlockValues(&'static str),
    /// `key = { WEIGHT = X … }` — numeric-keyed values.
    KeyWeighted(&'static str),
    /// `prefix:X[.chain…]` — a scope literal in any scalar position.
    ScopePrefix(&'static str),
    /// `X = { … }` at file top level — every top-level block key.
    TopLevelBlockKeys,
}

/// A reference rule: a pattern, optionally gated to a directory prefix, with
/// alternate kinds the reference may resolve to.
#[derive(Clone, Copy, Debug)]
pub struct RefRule {
    pub pattern: RefPattern,
    pub gate: Option<&'static str>,
    pub alt: &'static [KindId],
}

/// All knowledge about one game concept, co-located.
#[derive(Clone, Copy, Debug)]
pub struct KindSpec {
    pub kind: KindId,
    pub icon: IconHint,
    pub defs: Option<DefSource>,
    pub refs: &'static [RefRule],
    pub aliases: &'static [&'static str],
}

/// A compiled definition-directory row.
#[derive(Clone, Copy, Debug)]
pub struct DefRule {
    pub prefix: &'static str,
    pub kind: KindId,
    pub shape: DefShape,
}

/// The per-key form of a key-triggered reference pattern.
#[derive(Clone, Copy, Debug)]
pub enum KeyForm {
    Value,
    /// Scalar value, only as a direct child of a top-level definition body.
    ValueTop,
    /// Scalar value, only when the enclosing block's field key matches.
    ValueUnder(&'static str),
    /// The named direct-child field of the value block carries the reference.
    BlockField(&'static str),
    List,
    /// The block's field keys carry the references.
    BlockKeys,
    /// The block's field values (or their loose items) carry the references.
    BlockValues,
    Weighted,
}

/// A compiled key-triggered reference rule.
#[derive(Clone, Copy, Debug)]
pub struct KeyRule {
    pub kind: KindId,
    pub form: KeyForm,
    pub gate: Option<&'static str>,
    pub alt: &'static [KindId],
}

/// A compiled scope-literal rule (`prefix:name`).
#[derive(Clone, Copy, Debug)]
pub struct ScopeRule {
    pub prefix: &'static str,
    pub kind: KindId,
    pub gate: Option<&'static str>,
    pub alt: &'static [KindId],
}

/// A compiled top-level-block-keys rule.
#[derive(Clone, Copy, Debug)]
pub struct TopKeyRule {
    pub kind: KindId,
    pub gate: Option<&'static str>,
}

// ---------------------------------------------------------------------------
// The compilation, stated over the input rows.

/// A gate admits `path` when it is absent or a byte prefix of `path`.
pub open spec fn gate_admits(gate: Option<&'static str>, path: Seq<u8>) -> bool {
    match gate {
        None => true,
        Some(g) => bytes_start_with(path, g.spec_bytes()),
    }
}

/// The key and per-key form of a key-triggered pattern; `None` for the
/// scope-literal and top-level-key patterns.
pub open spec fn key_form_of(p: RefPattern) -> Option<(&'static str, KeyForm)> {
    match p {
        RefPattern::KeyValue(k) => Some((k, KeyForm::Value)),
        RefPattern::KeyValueTop(k) => Some((k, KeyForm::ValueTop)),
        RefPattern::KeyValueUnder(parent, k) => Some((k, KeyForm::ValueUnder(parent))),
        RefPattern::KeyBlockField(k, field) => Some((k, KeyForm::BlockField(field))),
        RefPattern::KeyList(k) => Some((k, KeyForm::List)),
        RefPattern::KeyBlockKeys(k) => Some((k, KeyForm::BlockKeys)),
        RefPattern::KeyBlockValues(k) => Some((k, KeyForm::BlockValues)),
        RefPattern::KeyWeighted(k) => Some((k, KeyForm::Weighted)),
        RefPattern::ScopePrefix(_) => None,
        RefPattern::TopLevelBlockKeys => None,
    }
}

/// The keyed rules one row's references compile to, in reference order.
pub open spec fn spec_row_key_rules(kind: KindId, refs: Seq<RefRule>) -> Seq<(&'static str, KeyRule)>
    decreases refs.len(),
{
    if refs.len() == 0 {
        Seq::empty()
    } else {
        let prev = spec_row_key_rules(kind, refs.drop_last());
        let r = refs.last();
        match key_form_of(r.pattern) {
            Some((k, form)) => prev.push((k, KeyRule { kind, form, gate: r.gate, alt: r.alt })),
            None => prev,
        }
    }
}

/// The scope-literal rules one row's references compile to.
pub open spec fn spec_row_scope_rules(kind: KindId, refs: Seq<RefRule>) -> Seq<ScopeRule>
    decreases refs.len(),
{
    if refs.len() == 0 {
        Seq::empty()
    } else {
        let prev = spec_row_scope_rules(kind, refs.drop_last());
        let r = refs.last();
        match r.pattern {
            RefPattern::ScopePrefix(prefix) => prev.push(
                ScopeRule { prefix, kind, gate: r.gate, alt: r.alt },
            ),
            _ => prev,
        }
    }
}

/// The top-level-block-keys rules one row's references compile to.
pub open spec fn spec_row_top_rules(kind: KindId, refs: Seq<RefRule>) -> Seq<TopKeyRule>
    decreases refs.len(),
{
    if refs.len() == 0 {
        Seq::empty()
    } else {
        let prev = spec_row_top_rules(kind, refs.drop_last());
        let r = refs.last();
        match r.pattern {
            RefPattern::TopLevelBlockKeys => prev.push(TopKeyRule { kind, gate: r.gate }),
            _ => prev,
        }
    }
}

/// All keyed rules, row after row.
pub open spec fn spec_key_rules(specs: Seq<KindSpec>) -> Seq<(&'static str, KeyRule)>
    decreases specs.len(),
{
    if specs.len() == 0 {
        Seq::empty()
    } else {
        spec_key_rules(specs.drop_last()) + spec_row_key_rules(specs.last().kind, specs.last().refs@)
    }
}

/// All scope-literal rules, row after row.
pub open spec fn spec_scope_rules(specs: Seq<KindSpec>) -> Seq<ScopeRule>
    decreases specs.len(),
{
    if specs.len() == 0 {
        Seq::empty()
    } else {
        spec_scope_rules(specs.drop_last()) + spec_row_scope_rules(
            specs.last().kind,
            specs.last().refs@,
        )
    }
}

/// All top-level-block-keys rules, row after row.
pub open spec fn spec_top_rules(specs: Seq<KindSpec>) -> Seq<TopKeyRule>
    decreases specs.len(),
{
    if specs.len() == 0 {
        Seq::empty()
    } else {
        spec_top_rules(specs.drop_last()) + spec_row_top_rules(specs.last().kind, specs.last().refs@)
    }
}

/// The definition rules: one per row that has a definition source, in row order.
pub open spec fn spec_def_rules(specs: Seq<KindSpec>) -> Seq<DefRule>
    decreases specs.len(),
{
    if specs.len() == 0 {
        Seq::empty()
    } else {
        let prev = spec_def_rules(specs.drop_last());
        let s = specs.last();
        match s.defs {
            Some(d) => prev.push(DefRule { prefix: d.dir_prefix, kind: s.kind, shape: d.shape }),
            None => prev,
        }
    }
}

/// `k` is named (by view) in `ks`.
pub open spec fn kind_listed(ks: Seq<KindId>, k: KindId) -> bool {
    exists|i: int| 0 <= i < ks.len() && ks[i]@ == k@
}

/// Every kind of the rows, once, in first-seen order.
pub open spec fn spec_kinds(specs: Seq<KindSpec>) -> Seq<KindId>
    decreases specs.len(),
{
    if specs.len() == 0 {
        Seq::empty()
    } else {
        let prev = spec_kinds(specs.drop_last());
        if kind_listed(prev, specs.last().kind) {
            prev
        } else {
            prev.push(specs.last().kind)
        }
    }
}

/// The (kind, icon) of every row, in row order (a later row wins on lookup).
pub open spec fn spec_icon_list(specs: Seq<KindSpec>) -> Seq<(KindId, IconHint)> {
    specs.map_values(|s: KindSpec| (s.kind, s.icon))
}

/// The (kind, alias keys) of every row with a non-empty alias list.
pub open spec fn spec_alias_list(specs: Seq<KindSpec>) -> Seq<(KindId, &'static [&'static str])>
    decreases specs.len(),
{
    if specs.len() == 0 {
        Seq::empty()
    } else {
        let prev = spec_alias_list(specs.drop_last());
        let s = specs.last();
        if s.aliases@.len() == 0 {
            prev
        } else {
            prev.push((s.kind, s.aliases))
        }
    }
}

/// The value of the last entry whose name equals `name` (what building a map
/// from the list, later entries overwriting earlier ones, answers).
pub open spec fn last_by_name(list: Seq<(&'static str, KindId)>, name: Seq<char>) -> Option<KindId>
    decreases list.len(),
{
    if list.len() == 0 {
        None
    } else if list.last().0@ == name {
        Some(list.last().1)
    } else {
        last_by_name(list.drop_last(), name)
    }
}

/// The value of the last entry whose name's bytes are `name`.
pub open spec fn last_by_bytes(list: Seq<(&'static str, KindId)>, name: Seq<u8>) -> Option<KindId>
    decreases list.len(),
{
    if list.len() == 0 {
        None
    } else if list.last().0.spec_bytes() == name {
        Some(list.last().1)
    } else {
        last_by_bytes(list.drop_last(), name)
    }
}

/// The icon of the last entry for kind `k`.
pub open spec fn last_icon(list: Seq<(KindId, IconHint)>, k: Seq<char>) -> Option<IconHint>
    decreases list.len(),
{
    if list.len() == 0 {
        None
    } else if list.last().0@ == k {
        Some(list.last().1)
    } else {
        last_icon(list.drop_last(), k)
    }
}

/// The alias keys of the last entry for kind `k`.
pub open spec fn last_aliases(list: Seq<(KindId, &'static [&'static str])>, k: Seq<char>) -> Option<
    &'static [&'static str],
>
    decreases list.len(),
{
    if list.len() == 0 {
        None
    } else if list.last().0@ == k {
        Some(list.last().1)
    } else {
        last_aliases(list.drop_last(), k)
    }
}

/// The keyed rules registered under `key`, in registration order.
pub open spec fn rules_under_key(list: Seq<(&'static str, KeyRule)>, key: Seq<char>) -> Seq<KeyRule>
    decreases list.len(),
{
    if list.len() == 0 {
        Seq::empty()
    } else {
        let prev = rules_under_key(list.drop_last(), key);
        if list.last().0@ == key {
            prev.push(list.last().1)
        } else {
            prev
        }
    }
}

/// The keyed rules whose key's bytes are `key`, in registration order.
pub open spec fn rules_under_key_bytes(list: Seq<(&'static str, KeyRule)>, key: Seq<u8>) -> Seq<KeyRule>
    decreases list.len(),
{
    if list.len() == 0 {
        Seq::empty()
    } else {
        let prev = rules_under_key_bytes(list.drop_last(), key);
        if list.last().0.spec_bytes() == key {
            prev.push(list.last().1)
        } else {
            prev
        }
    }
}

/// Whether a per-key form is a scalar-value form.
pub open spec fn is_value_form(f: KeyForm) -> bool {
    f is Value || f is ValueTop
}

/// Whether a per-key form is a list-value form.
pub open spec fn is_list_form(f: KeyForm) -> bool {
    f is List || f is Weighted
}

/// The kinds of the rules in `rules` whose form satisfies `scalar` (value
/// forms when true, list forms when false) and whose gate admits `path`.
pub open spec fn kinds_of_forms(rules: Seq<KeyRule>, scalar: bool, path: Seq<u8>) -> Seq<KindId>
    decreases rules.len(),
{
    if rules.len() == 0 {
        Seq::empty()
    } else {
        let prev = kinds_of_forms(rules.drop_last(), scalar, path);
        let r = rules.last();
        let form_ok = if scalar {
            is_value_form(r.form)
        } else {
            is_list_form(r.form)
        };
        if form_ok && gate_admits(r.gate, path) {
            prev.push(r.kind)
        } else {
            prev
        }
    }
}

/// The kinds of the scope rules for `prefix` whose gate admits `path`.
pub open spec fn scope_kinds_of(rules: Seq<ScopeRule>, prefix: Seq<char>, path: Seq<u8>) -> Seq<KindId>
    decreases rules.len(),
{
    if rules.len() == 0 {
        Seq::empty()
    } else {
        let prev = scope_kinds_of(rules.drop_last(), prefix, path);
        let r = rules.last();
        if r.prefix@ == prefix && gate_admits(r.gate, path) {
            prev.push(r.kind)
        } else {
            prev
        }
    }
}

/// The leading run of `v` before its first `.` (all of `v` without one).
pub open spec fn first_segment(v: Seq<u8>) -> Seq<u8> {
    v.take(find_byte_from(v, 46u8, 0))
}

/// `seg` is one of the keywords, byte for byte.
pub open spec fn is_keyword(kws: Seq<&'static str>, seg: Seq<u8>) -> bool {
    exists|i: int| 0 <= i < kws.len() && kws[i].spec_bytes() == seg
}

/// A reference value that is never a symbol name: empty, holding `$`, `:` or
/// `/`, opening with `[` or `@`, or whose first `.`-segment is a scope keyword.
pub open spec fn spec_skips_value(kws: Seq<&'static str>, v: Seq<u8>) -> bool {
    ||| v.len() == 0
    ||| has_byte(v, 36u8)
    ||| has_byte(v, 58u8)
    ||| has_byte(v, 47u8)
    ||| v[0] == 91u8
    ||| v[0] == 64u8
    ||| is_keyword(kws, first_segment(v))
}

/// A definition rule applies to `path` when its prefix is a byte prefix of it.
pub open spec fn def_rule_matches(r: DefRule, path: Seq<u8>) -> bool {
    bytes_start_with(path, r.prefix.spec_bytes())
}

/// The definition rules that apply to `path`, in order.
pub open spec fn matching_def_rules(rules: Seq<DefRule>, path: Seq<u8>) -> Seq<DefRule>
    decreases rules.len(),
{
    if rules.len() == 0 {
        Seq::empty()
    } else {
        let prev = matching_def_rules(rules.drop_last(), path);
        if def_rule_matches(rules.last(), path) {
            prev.push(rules.last())
        } else {
            prev
        }
    }
}

// ---------------------------------------------------------------------------

/// Everything the extraction engine needs to know about a game's conventions,
/// compiled from [`KindSpec`] rows.
#[derive(Clone, Debug)]
pub struct Schema {
    def_rules: Vec<DefRule>,
    key_rules: Vec<(&'static str, KeyRule)>,
    scope_rules: Vec<ScopeRule>,
    top_key_rules: Vec<TopKeyRule>,
    alias_keys: Vec<(KindId, &'static [&'static str])>,
    icons: Vec<(KindId, IconHint)>,
    scope_keywords: Vec<&'static str>,
    typed_defs: Vec<(&'static str, KindId)>,
    keyed_value_defs: Vec<(&'static str, KindId)>,
    nested_value_defs: Vec<(&'static str, KindId)>,
    kinds: Vec<KindId>,
    by_alias: Vec<(&'static str, KindId)>,
    call_kinds: Option<CallKinds>,
    gui_kinds: Option<GuiKinds>,
    loc_concept_kind: Option<KindId>,
}

impl Schema {
    /// The compiled definition rules.
    pub closed spec fn spec_def_rule_list(&self) -> Seq<DefRule> {
        self.def_rules@
    }

    /// The compiled keyed rules, each with its key.
    pub closed spec fn spec_key_rule_list(&self) -> Seq<(&'static str, KeyRule)> {
        self.key_rules@
    }

    /// The compiled scope-literal rules.
    pub closed spec fn spec_scope_rule_list(&self) -> Seq<ScopeRule> {
        self.scope_rules@
    }

    /// The compiled top-level-block-keys rules.
    pub closed spec fn spec_top_rule_list(&self) -> Seq<TopKeyRule> {
        self.top_key_rules@
    }

    /// The (kind, alias keys) entries.
    pub closed spec fn spec_alias_list(&self) -> Seq<(KindId, &'static [&'static str])> {
        self.alias_keys@
    }

    /// The (kind, icon) entries.
    pub closed spec fn spec_icon_list(&self) -> Seq<(KindId, IconHint)> {
        self.icons@
    }

    /// The scope keywords.
    pub closed spec fn spec_scope_keywords(&self) -> Seq<&'static str> {
        self.scope_keywords@
    }

    /// The typed-definition keywords.
    pub closed spec fn spec_typed_defs(&self) -> Seq<(&'static str, KindId)> {
        self.typed_defs@
    }

    /// The keyed-value definition keys.
    pub closed spec fn spec_keyed_value_defs(&self) -> Seq<(&'static str, KindId)> {
        self.keyed_value_defs@
    }

    /// The nested keyed-value definition keys.
    pub closed spec fn spec_nested_value_defs(&self) -> Seq<(&'static str, KindId)> {
        self.nested_value_defs@
    }

    /// The doc-ref aliases.
    pub closed spec fn spec_doc_aliases(&self) -> Seq<(&'static str, KindId)> {
        self.by_alias@
    }

    /// Every kind in registration order.
    pub closed spec fn spec_kinds(&self) -> Seq<KindId> {
        self.kinds@
    }

    /// The call-by-name kinds.
    pub closed spec fn spec_call_kinds(&self) -> Option<CallKinds> {
        self.call_kinds
    }

    /// The interface-script kinds.
    pub closed spec fn spec_gui_kinds(&self) -> Option<GuiKinds> {
        self.gui_kinds
    }

    /// The loc-layer concept kind.
    pub closed spec fn spec_loc_concept_kind(&self) -> Option<KindId> {
        self.loc_concept_kind
    }

    /// Compiles kind rows (plus game-wide scope keywords and binding hooks)
    /// into the lookup lists the extraction engine uses.
    pub fn new(
        specs: &[KindSpec],
        scope_keywords: &[&'static str],
        typed_defs: &[(&'static str, KindId)],
        keyed_value_defs: &[(&'static str, KindId)],
        nested_value_defs: &[(&'static str, KindId)],
        doc_ref_aliases: &[(&'static str, KindId)],
        call_kinds: Option<CallKinds>,
        gui_kinds: Option<GuiKinds>,
        loc_concept_kind: Option<KindId>,
    ) -> (s: Schema)
        ensures
            s.spec_def_rule_list() == spec_def_rules(specs@),
            s.spec_key_rule_list() == spec_key_rules(specs@),
            s.spec_scope_rule_list() == spec_scope_rules(specs@),
            s.spec_top_rule_list() == spec_top_rules(specs@),
            s.spec_alias_list() == spec_alias_list(specs@),
            s.spec_icon_list() == spec_icon_list(specs@),
            s.spec_kinds() == spec_kinds(specs@),
            s.spec_scope_keywords() == scope_keywords@,
            s.spec_typed_defs() == typed_defs@,
            s.spec_keyed_value_defs() == keyed_value_defs@,
            s.spec_nested_value_defs() == nested_value_defs@,
            s.spec_doc_aliases() == doc_ref_aliases@,
            s.spec_call_kinds() == call_kinds,
            s.spec_gui_kinds() == gui_kinds,
            s.spec_loc_concept_kind() == loc_concept_kind,
    {
        let mut def_rules: Vec<DefRule> = Vec::new();
        let mut key_rules: Vec<(&'static str, KeyRule)> = Vec::new();
        let mut scope_rules: Vec<ScopeRule> = Vec::new();
        let mut top_key_rules: Vec<TopKeyRule> = Vec::new();
        let mut alias_keys: Vec<(KindId, &'static [&'static str])> = Vec::new();
        let mut icons: Vec<(KindId, IconHint)> = Vec::new();
        let mut kinds: Vec<KindId> = Vec::new();
        let mut i: usize = 0;
        while i < specs.len()
            invariant
                i <= specs@.len(),
                def_rules@ == spec_def_rules(specs@.take(i as int)),
                key_rules@ == spec_key_rules(specs@.take(i as int)),
                scope_rules@ == spec_scope_rules(specs@.take(i as int)),
                top_key_rules@ == spec_top_rules(specs@.take(i as int)),
                alias_keys@ == spec_alias_list(specs@.take(i as int)),
                icons@ == spec_icon_list(specs@.take(i as int)),
                kinds@ == spec_kinds(specs@.take(i as int)),
            decreases specs@.len() - i,
        {
            let spec = specs[i];
            let ghost prefix = specs@.take(i as int);
            let ghost next = specs@.take(i as int + 1);
            assert(next.drop_last() =~= prefix);
            assert(next.last() == spec);
            // A kind may appear in several rows; register it once, first seen.
            if !contains_kind(&kinds, spec.kind) {
                kinds.push(spec.kind);
            }
            icons.push((spec.kind, spec.icon));
            assert(icons@ =~= spec_icon_list(next));
            match spec.defs {
                Some(defs) => {
                    def_rules.push(DefRule { prefix: defs.dir_prefix, kind: spec.kind, shape: defs.shape });
                },
                None => {},
            }
            if spec.aliases.len() != 0 {
                alias_keys.push((spec.kind, spec.aliases));
            }
            let ghost key_base = key_rules@;
            let ghost scope_base = scope_rules@;
            let ghost top_base = top_key_rules@;
            let mut j: usize = 0;
            while j < spec.refs.len()
                invariant
                    j <= spec.refs@.len(),
                    key_rules@ == key_base + spec_row_key_rules(spec.kind, spec.refs@.take(j as int)),
                    scope_rules@ == scope_base + spec_row_scope_rules(spec.kind, spec.refs@.take(j as int)),
                    top_key_rules@ == top_base + spec_row_top_rules(spec.kind, spec.refs@.take(j as int)),
                decreases spec.refs@.len() - j,
            {
                let rule = spec.refs[j];
                let ghost rp = spec.refs@.take(j as int);
                let ghost rn = spec.refs@.take(j as int + 1);
                assert(rn.drop_last() =~= rp);
                assert(rn.last() == rule);
                match rule.pattern {
                    RefPattern::ScopePrefix(prefix) => {
                        scope_rules.push(ScopeRule { prefix, kind: spec.kind, gate: rule.gate, alt: rule.alt });
                    },
                    RefPattern::TopLevelBlockKeys => {
                        top_key_rules.push(TopKeyRule { kind: spec.kind, gate: rule.gate });
                    },
                    _ => {
                        let (key, form) = keyed_form(rule.pattern);
                        key_rules.push((key, KeyRule { kind: spec.kind, form, gate: rule.gate, alt: rule.alt }));
                    },
                }
                proof {
                    assert(key_rules@ =~= key_base + spec_row_key_rules(spec.kind, rn));
                    assert(scope_rules@ =~= scope_base + spec_row_scope_rules(spec.kind, rn));
                    assert(top_key_rules@ =~= top_base + spec_row_top_rules(spec.kind, rn));
                }
                j += 1;
            }
            assert(spec.refs@.take(spec.refs@.len() as int) =~= spec.refs@);
            i += 1;
        }
        assert(specs@.take(specs@.len() as int) =~= specs@);
        Schema {
            def_rules,
            key_rules,
            scope_rules,
            top_key_rules,
            alias_keys,
            icons,
            scope_keywords: copy_strs(scope_keywords),
            typed_defs: copy_named_kinds(typed_defs),
            keyed_value_defs: copy_named_kinds(keyed_value_defs),
            nested_value_defs: copy_named_kinds(nested_value_defs),
            kinds,
            by_alias: copy_named_kinds(doc_ref_aliases),
            call_kinds,
            gui_kinds,
            loc_concept_kind,
        }
    }
}

impl Schema {
    /// The first definition rule whose prefix matches `rel_path`, if any.
    pub fn rule_for(&self, rel_path: &str) -> (r: Option<&DefRule>)
        ensures
            r is Some == (matching_def_rules(self.spec_def_rule_list(), rel_path.spec_bytes()).len() > 0),
            r matches Some(d) ==> *d == matching_def_rules(self.spec_def_rule_list(), rel_path.spec_bytes())[0],
    {
        let ghost path = rel_path.spec_bytes();
        let ghost rules = self.def_rules@;
        let mut i: usize = 0;
        while i < self.def_rules.len()
            invariant
                i <= rules.len(),
                rules == self.def_rules@,
                path == rel_path.spec_bytes(),
                matching_def_rules(rules.take(i as int), path).len() == 0,
            decreases rules.len() - i,
        {
            let ghost t = rules.take(i as int + 1);
            assert(t.drop_last() =~= rules.take(i as int));
            if str_starts_with(rel_path, self.def_rules[i].prefix) {
                proof {
                    assert(rules =~= t + rules.skip(i as int + 1));
                    lemma_matching_concat(t, rules.skip(i as int + 1), path);
                }
                return Some(&self.def_rules[i]);
            }
            i += 1;
        }
        assert(rules.take(rules.len() as int) =~= rules);
        None
    }

    /// Every definition rule whose prefix matches `rel_path`, in order.
    pub fn rules_for(&self, rel_path: &str) -> (r: Vec<DefRule>)
        ensures
            r@ == matching_def_rules(self.spec_def_rule_list(), rel_path.spec_bytes()),
    {
        let ghost path = rel_path.spec_bytes();
        let ghost rules = self.def_rules@;
        let mut out: Vec<DefRule> = Vec::new();
        let mut i: usize = 0;
        while i < self.def_rules.len()
            invariant
                i <= rules.len(),
                rules == self.def_rules@,
                path == rel_path.spec_bytes(),
                out@ == matching_def_rules(rules.take(i as int), path),
            decreases rules.len() - i,
        {
            let ghost t = rules.take(i as int + 1);
            assert(t.drop_last() =~= rules.take(i as int));
            if str_starts_with(rel_path, self.def_rules[i].prefix) {
                out.push(self.def_rules[i]);
            }
            i += 1;
        }
        assert(rules.take(rules.len() as int) =~= rules);
        out
    }

    /// The presentation hint for a kind ([`IconHint::Object`] when the kind
    /// has no row).
    pub fn icon(&self, kind: KindId) -> (r: IconHint)
        ensures
            r == match last_icon(self.spec_icon_list(), kind@) {
                Some(i) => i,
                None => IconHint::Object,
            },
    {
        let ghost list = self.icons@;
        let mut i: usize = self.icons.len();
        assert(list.take(i as int) =~= list);
        while i > 0
            invariant
                i <= list.len(),
                list == self.icons@,
                last_icon(list, kind@) == last_icon(list.take(i as int), kind@),
            decreases i,
        {
            assert(list.take(i as int).drop_last() =~= list.take(i as int - 1));
            if self.icons[i - 1].0 == kind {
                return self.icons[i - 1].1;
            }
            i -= 1;
        }
        IconHint::Object
    }

    /// The keyed rules registered under `key`, or `None` when there are none.
    pub fn key_rules(&self, key: &str) -> (r: Option<Vec<KeyRule>>)
        ensures
            r is Some == (rules_under_key(self.spec_key_rule_list(), key@).len() > 0),
            r matches Some(v) ==> v@ == rules_under_key(self.spec_key_rule_list(), key@),
    {
        let ghost list = self.key_rules@;
        let mut out: Vec<KeyRule> = Vec::new();
        let mut i: usize = 0;
        while i < self.key_rules.len()
            invariant
                i <= list.len(),
                list == self.key_rules@,
                out@ == rules_under_key(list.take(i as int), key@),
            decreases list.len() - i,
        {
            assert(list.take(i as int + 1).drop_last() =~= list.take(i as int));
            if str_eq(self.key_rules[i].0, key) {
                out.push(self.key_rules[i].1);
            }
            i += 1;
        }
        assert(list.take(list.len() as int) =~= list);
        if out.len() == 0 {
            None
        } else {
            Some(out)
        }
    }

    /// The keyed rules whose key is (byte for byte) `key`, in registration
    /// order; bytes that are not UTF-8 match no rule.
    pub fn key_rules_bytes(&self, key: &[u8]) -> (r: Vec<KeyRule>)
        ensures
            r@ == rules_under_key_bytes(self.spec_key_rule_list(), key@),
    {
        let ghost list = self.key_rules@;
        let mut out: Vec<KeyRule> = Vec::new();
        let mut i: usize = 0;
        while i < self.key_rules.len()
            invariant
                i <= list.len(),
                list == self.key_rules@,
                out@ == rules_under_key_bytes(list.take(i as int), key@),
            decreases list.len() - i,
        {
            assert(list.take(i as int + 1).drop_last() =~= list.take(i as int));
            if slice_eq(self.key_rules[i].0.as_bytes(), key) {
                out.push(self.key_rules[i].1);
            }
            i += 1;
        }
        assert(list.take(list.len() as int) =~= list);
        out
    }

    /// [`Schema::typed_def_kind`] for a keyword given as bytes.
    pub fn typed_def_kind_bytes(&self, keyword: &[u8]) -> (r: Option<KindId>)
        ensures
            r == last_by_bytes(self.spec_typed_defs(), keyword@),
    {
        lookup_last_bytes(&self.typed_defs, keyword)
    }

    /// [`Schema::keyed_value_def_kind`] for a key given as bytes.
    pub fn keyed_value_def_kind_bytes(&self, key: &[u8]) -> (r: Option<KindId>)
        ensures
            r == last_by_bytes(self.spec_keyed_value_defs(), key@),
    {
        lookup_last_bytes(&self.keyed_value_defs, key)
    }

    /// [`Schema::nested_value_def_kind`] for a key given as bytes.
    pub fn nested_value_def_kind_bytes(&self, key: &[u8]) -> (r: Option<KindId>)
        ensures
            r == last_by_bytes(self.spec_nested_value_defs(), key@),
    {
        lookup_last_bytes(&self.nested_value_defs, key)
    }

    /// Whether any nested keyed-value definition is registered.
    pub fn has_nested_value_defs(&self) -> (r: bool)
        ensures
            r == (self.spec_nested_value_defs().len() > 0),
    {
        self.nested_value_defs.len() > 0
    }

    /// Symbol kinds referenced by a scalar value for `key` in `rel_path`.
    pub fn value_kinds(&self, key: &str, rel_path: &str) -> (r: Vec<KindId>)
        ensures
            r@ == kinds_of_forms(
                rules_under_key(self.spec_key_rule_list(), key@),
                true,
                rel_path.spec_bytes(),
            ),
    {
        self.kinds_of_key(key, true, rel_path)
    }

    /// Symbol kinds referenced by loose or weighted list values for `key`.
    pub fn list_value_kinds(&self, key: &str, rel_path: &str) -> (r: Vec<KindId>)
        ensures
            r@ == kinds_of_forms(
                rules_under_key(self.spec_key_rule_list(), key@),
                false,
                rel_path.spec_bytes(),
            ),
    {
        self.kinds_of_key(key, false, rel_path)
    }

    fn kinds_of_key(&self, key: &str, scalar: bool, rel_path: &str) -> (r: Vec<KindId>)
        ensures
            r@ == kinds_of_forms(
                rules_under_key(self.spec_key_rule_list(), key@),
                scalar,
                rel_path.spec_bytes(),
            ),
    {
        let mut out: Vec<KindId> = Vec::new();
        match self.key_rules(key) {
            None => {
                assert(rules_under_key(self.spec_key_rule_list(), key@) =~= Seq::<KeyRule>::empty());
                out
            },
            Some(rules) => {
                let ghost path = rel_path.spec_bytes();
                let mut i: usize = 0;
                while i < rules.len()
                    invariant
                        i <= rules@.len(),
                        path == rel_path.spec_bytes(),
                        out@ == kinds_of_forms(rules@.take(i as int), scalar, path),
                    decreases rules@.len() - i,
                {
                    assert(rules@.take(i as int + 1).drop_last() =~= rules@.take(i as int));
                    let rule = rules[i];
                    let form_ok = if scalar {
                        match rule.form {
                            KeyForm::Value | KeyForm::ValueTop => true,
                            _ => false,
                        }
                    } else {
                        match rule.form {
                            KeyForm::List | KeyForm::Weighted => true,
                            _ => false,
                        }
                    };
                    if form_ok && rule.applies(rel_path) {
                        out.push(rule.kind);
                    }
                    i += 1;
                }
                assert(rules@.take(rules@.len() as int) =~= rules@);
                out
            },
        }
    }

    /// Symbol kinds addressed by a configured `prefix:` scope literal.
    pub fn scope_prefix_kinds(&self, prefix: &str, rel_path: &str) -> (r: Vec<KindId>)
        ensures
            r@ == scope_kinds_of(self.spec_scope_rule_list(), prefix@, rel_path.spec_bytes()),
    {
        let ghost list = self.scope_rules@;
        let ghost path = rel_path.spec_bytes();
        let mut out: Vec<KindId> = Vec::new();
        let mut i: usize = 0;
        while i < self.scope_rules.len()
            invariant
                i <= list.len(),
                list == self.scope_rules@,
                path == rel_path.spec_bytes(),
                out@ == scope_kinds_of(list.take(i as int), prefix@, path),
            decreases list.len() - i,
        {
            assert(list.take(i as int + 1).drop_last() =~= list.take(i as int));
            let rule = self.scope_rules[i];
            if str_eq(rule.prefix, prefix) && rule.applies(rel_path) {
                out.push(rule.kind);
            }
            i += 1;
        }
        assert(list.take(list.len() as int) =~= list);
        out
    }

    /// Whether a reference value should not be resolved: macro parameters
    /// (`$X$`), scope/data-function chains (`foo:bar`), file paths (`a/b`),
    /// inline datafunction text (`[…]`), script constants (`@x`), empties,
    /// and values headed by a relative-scope keyword (`root.primary_title`).
    pub fn skip_ref_value(&self, val: &str) -> (r: bool)
        ensures
            r == spec_skips_value(self.spec_scope_keywords(), val.spec_bytes()),
    {
        let b = val.as_bytes();
        if b.len() == 0 || slice_has_byte(b, 36u8) || slice_has_byte(b, 58u8) || slice_has_byte(b, 47u8)
            || b[0] == 91u8 || b[0] == 64u8 {
            return true;
        }
        let seg = slice_find_byte_from(b, 46u8, 0);
        proof {
            lemma_find_byte_from(b@, 46u8, 0);
        }
        let ghost kws = self.scope_keywords@;
        let mut i: usize = 0;
        while i < self.scope_keywords.len()
            invariant
                i <= kws.len(),
                kws == self.scope_keywords@,
                seg <= b@.len(),
                b@ == val.spec_bytes(),
                seg == find_byte_from(b@, 46u8, 0),
                forall|j: int| 0 <= j < i ==> kws[j].spec_bytes() != first_segment(b@),
            decreases kws.len() - i,
        {
            if slice_eq_take(self.scope_keywords[i].as_bytes(), b, seg) {
                return true;
            }
            i += 1;
        }
        false
    }

    /// The kind a typed-definition keyword introduces (`scripted_effect` →
    /// the scripted-effect kind), or `None` for a non-keyword.
    pub fn typed_def_kind(&self, keyword: &str) -> (r: Option<KindId>)
        ensures
            r == last_by_name(self.spec_typed_defs(), keyword@),
    {
        lookup_last(&self.typed_defs, keyword)
    }

    /// The kind a top-level `KEY = value` defines through `KEY`.
    pub fn keyed_value_def_kind(&self, key: &str) -> (r: Option<KindId>)
        ensures
            r == last_by_name(self.spec_keyed_value_defs(), key@),
    {
        lookup_last(&self.keyed_value_defs, key)
    }

    /// The kind a `KEY = value` field at any depth defines through `KEY`.
    pub fn nested_value_def_kind(&self, key: &str) -> (r: Option<KindId>)
        ensures
            r == last_by_name(self.spec_nested_value_defs(), key@),
    {
        lookup_last(&self.nested_value_defs, key)
    }

    /// The kind a doc-comment reference alias names, the alias given as the
    /// first `n` bytes of `text` (bytes that are not UTF-8 name no alias).
    pub fn kind_by_alias_prefix(&self, text: &[u8], n: usize) -> (r: Option<KindId>)
        requires
            n <= text@.len(),
        ensures
            r == last_by_bytes(self.spec_doc_aliases(), text@.take(n as int)),
    {
        let ghost alias = text@.take(n as int);
        let ghost list = self.by_alias@;
        let mut i: usize = self.by_alias.len();
        assert(list.take(i as int) =~= list);
        while i > 0
            invariant
                i <= list.len(),
                list == self.by_alias@,
                n <= text@.len(),
                alias == text@.take(n as int),
                last_by_bytes(list, alias) == last_by_bytes(list.take(i as int), alias),
            decreases i,
        {
            assert(list.take(i as int).drop_last() =~= list.take(i as int - 1));
            if slice_eq_take(self.by_alias[i - 1].0.as_bytes(), text, n) {
                return Some(self.by_alias[i - 1].1);
            }
            i -= 1;
        }
        None
    }

    /// Every kind in registration order.
    pub fn kinds(&self) -> (r: &[KindId])
        ensures
            r@ == self.spec_kinds(),
    {
        self.kinds.as_slice()
    }

    /// The kind a doc-comment reference alias names.
    pub fn kind_by_alias(&self, alias: &str) -> (r: Option<KindId>)
        ensures
            r == last_by_name(self.spec_doc_aliases(), alias@),
    {
        lookup_last(&self.by_alias, alias)
    }

    /// Which kinds call-by-name references resolve to, if this game has any.
    pub fn call_kinds(&self) -> (r: Option<CallKinds>)
        ensures
            r == self.spec_call_kinds(),
    {
        self.call_kinds
    }

    /// The interface-script symbol kinds, when the game declares them.
    pub fn gui_kinds(&self) -> (r: Option<GuiKinds>)
        ensures
            r == self.spec_gui_kinds(),
    {
        self.gui_kinds
    }

    /// The kind that `[concept|E]` localization links resolve to, if any.
    pub fn loc_concept_kind(&self) -> (r: Option<KindId>)
        ensures
            r == self.spec_loc_concept_kind(),
    {
        self.loc_concept_kind
    }

    /// The compiled scope-literal rules.
    pub fn scope_rules(&self) -> (r: &[ScopeRule])
        ensures
            r@ == self.spec_scope_rule_list(),
    {
        self.scope_rules.as_slice()
    }

    /// The compiled top-level-block-keys rules.
    pub fn top_key_rules(&self) -> (r: &[TopKeyRule])
        ensures
            r@ == self.spec_top_rule_list(),
    {
        self.top_key_rules.as_slice()
    }

    /// The alias field keys of a kind.
    pub fn alias_keys(&self, kind: KindId) -> (r: Option<&'static [&'static str]>)
        ensures
            r == last_aliases(self.spec_alias_list(), kind@),
    {
        let ghost list = self.alias_keys@;
        let mut i: usize = self.alias_keys.len();
        assert(list.take(i as int) =~= list);
        while i > 0
            invariant
                i <= list.len(),
                list == self.alias_keys@,
                last_aliases(list, kind@) == last_aliases(list.take(i as int), kind@),
            decreases i,
        {
            assert(list.take(i as int).drop_last() =~= list.take(i as int - 1));
            if self.alias_keys[i - 1].0 == kind {
                return Some(self.alias_keys[i - 1].1);
            }
            i -= 1;
        }
        None
    }
}

impl KeyRule {
    /// Whether this rule applies to the file at `rel_path`.
    pub fn applies(&self, rel_path: &str) -> (r: bool)
        ensures
            r == gate_admits(self.gate, rel_path.spec_bytes()),
    {
        gate_admits_exec(self.gate, rel_path)
    }
}

impl ScopeRule {
    /// Whether this rule applies to the file at `rel_path`.
    pub fn applies(&self, rel_path: &str) -> (r: bool)
        ensures
            r == gate_admits(self.gate, rel_path.spec_bytes()),
    {
        gate_admits_exec(self.gate, rel_path)
    }
}

impl TopKeyRule {
    /// Whether this rule applies to the file at `rel_path`.
    pub fn applies(&self, rel_path: &str) -> (r: bool)
        ensures
            r == gate_admits(self.gate, rel_path.spec_bytes()),
    {
        gate_admits_exec(self.gate, rel_path)
    }
}

fn gate_admits_exec(gate: Option<&'static str>, rel_path: &str) -> (r: bool)
    ensures
        r == gate_admits(gate, rel_path.spec_bytes()),
{
    match gate {
        None => true,
        Some(g) => str_starts_with(rel_path, g),
    }
}

/// The value of the last entry named `name`.
fn lookup_last(list: &Vec<(&'static str, KindId)>, name: &str) -> (r: Option<KindId>)
    ensures
        r == last_by_name(list@, name@),
{
    let mut i: usize = list.len();
    assert(list@.take(i as int) =~= list@);
    while i > 0
        invariant
            i <= list@.len(),
            last_by_name(list@, name@) == last_by_name(list@.take(i as int), name@),
        decreases i,
    {
        assert(list@.take(i as int).drop_last() =~= list@.take(i as int - 1));
        if str_eq(list[i - 1].0, name) {
            return Some(list[i - 1].1);
        }
        i -= 1;
    }
    None
}

/// The value of the last entry whose name's bytes are `name`.
fn lookup_last_bytes(list: &Vec<(&'static str, KindId)>, name: &[u8]) -> (r: Option<KindId>)
    ensures
        r == last_by_bytes(list@, name@),
{
    let mut i: usize = list.len();
    assert(list@.take(i as int) =~= list@);
    while i > 0
        invariant
            i <= list@.len(),
            last_by_bytes(list@, name@) == last_by_bytes(list@.take(i as int), name@),
        decreases i,
    {
        assert(list@.take(i as int).drop_last() =~= list@.take(i as int - 1));
        if slice_eq(list[i - 1].0.as_bytes(), name) {
            return Some(list[i - 1].1);
        }
        i -= 1;
    }
    None
}

/// Matching distributes over concatenation.
pub proof fn lemma_matching_concat(a: Seq<DefRule>, b: Seq<DefRule>, path: Seq<u8>)
    ensures
        matching_def_rules(a + b, path) == matching_def_rules(a, path) + matching_def_rules(b, path),
    decreases b.len(),
{
    if b.len() == 0 {
        assert(a + b =~= a);
        assert(matching_def_rules(a, path) + matching_def_rules(b, path) =~= matching_def_rules(a, path));
    } else {
        assert((a + b).drop_last() =~= a + b.drop_last());
        lemma_matching_concat(a, b.drop_last(), path);
        if def_rule_matches(b.last(), path) {
            assert(matching_def_rules(a, path) + matching_def_rules(b, path) =~= (matching_def_rules(a, path)
                + matching_def_rules(b.drop_last(), path)).push(b.last()));
        } else {
            assert(matching_def_rules(a, path) + matching_def_rules(b, path) =~= matching_def_rules(a, path)
                + matching_def_rules(b.drop_last(), path));
        }
    }
}

/// The key and form of a key-triggered pattern.
fn keyed_form(p: RefPattern) -> (r: (&'static str, KeyForm))
    requires
        key_form_of(p) is Some,
    ensures
        key_form_of(p) == Some(r),
{
    match p {
        RefPattern::KeyValue(k) => (k, KeyForm::Value),
        RefPattern::KeyValueTop(k) => (k, KeyForm::ValueTop),
        RefPattern::KeyValueUnder(parent, k) => (k, KeyForm::ValueUnder(parent)),
        RefPattern::KeyBlockField(k, field) => (k, KeyForm::BlockField(field)),
        RefPattern::KeyList(k) => (k, KeyForm::List),
        RefPattern::KeyBlockKeys(k) => (k, KeyForm::BlockKeys),
        RefPattern::KeyBlockValues(k) => (k, KeyForm::BlockValues),
        RefPattern::KeyWeighted(k) => (k, KeyForm::Weighted),
        RefPattern::ScopePrefix(k) => (k, KeyForm::Value),
        RefPattern::TopLevelBlockKeys => ("", KeyForm::Value),
    }
}

/// Whether `kinds` names `k`.
pub fn contains_kind(kinds: &Vec<KindId>, k: KindId) -> (r: bool)
    ensures
        r == kind_listed(kinds@, k),
{
    let mut i: usize = 0;
    while i < kinds.len()
        invariant
            i <= kinds@.len(),
            forall|j: int| 0 <= j < i ==> kinds@[j]@ != k@,
        decreases kinds@.len() - i,
    {
        if kinds[i] == k {
            return true;
        }
        i += 1;
    }
    false
}

fn copy_strs(v: &[&'static str]) -> (r: Vec<&'static str>)
    ensures
        r@ == v@,
{
    let mut r: Vec<&'static str> = Vec::new();
    let mut i: usize = 0;
    while i < v.len()
        invariant
            i <= v@.len(),
            r@ == v@.take(i as int),
        decreases v@.len() - i,
    {
        r.push(v[i]);
        assert(r@ =~= v@.take(i as int + 1));
        i += 1;
    }
    assert(v@.take(v@.len() as int) =~= v@);
    r
}

fn copy_named_kinds(v: &[(&'static str, KindId)]) -> (r: Vec<(&'static str, KindId)>)
    ensures
        r@ == v@,
{
    let mut r: Vec<(&'static str, KindId)> = Vec::new();
    let mut i: usize = 0;
    while i < v.len()
        invariant
            i <= v@.len(),
            r@ == v@.take(i as int),
        decreases v@.len() - i,
    {
        r.push(v[i]);
        assert(r@ =~= v@.take(i as int + 1));
        i += 1;
    }
    assert(v@.take(v@.len() as int) =~= v@);
    r
}

/// Every row's kind is registered exactly once, in first-seen order: the
/// compiled kind list holds the kind of every row, holds nothing that is not
/// some row's kind, and holds no kind twice.
pub proof fn law_kinds_registered_once(rows: Seq<KindSpec>)
    ensures
        forall|i: int| 0 <= i < rows.len() ==> kind_listed(spec_kinds(rows), #[trigger] rows[i].kind),
        forall|j: int|
            #![trigger spec_kinds(rows)[j]]
            0 <= j < spec_kinds(rows).len() ==> exists|i: int|
                0 <= i < rows.len() && (#[trigger] rows[i]).kind@ == spec_kinds(rows)[j]@,
        forall|a: int, b: int|
            0 <= a < b < spec_kinds(rows).len() ==> (#[trigger] spec_kinds(rows)[a])@ != (#[trigger] spec_kinds(rows)[b])@,
    decreases rows.len(),
{
    if rows.len() > 0 {
        let init = rows.drop_last();
        law_kinds_registered_once(init);
        let prev = spec_kinds(init);
        let ks = spec_kinds(rows);
        let last = rows.last();
        assert forall|i: int| 0 <= i < rows.len() implies kind_listed(ks, #[trigger] rows[i].kind) by {
            if i < rows.len() - 1 {
                assert(init[i] == rows[i]);
                assert(kind_listed(prev, init[i].kind));
                let w = choose|w: int| 0 <= w < prev.len() && prev[w]@ == init[i].kind@;
                assert(ks[w] == prev[w]);
            } else if !kind_listed(prev, last.kind) {
                assert(ks[prev.len() as int] == last.kind);
            }
        }
        assert forall|j: int| #![trigger ks[j]] 0 <= j < ks.len() implies exists|i: int|
            0 <= i < rows.len() && (#[trigger] rows[i]).kind@ == ks[j]@ by {
            if j < prev.len() {
                let i = choose|i: int| 0 <= i < init.len() && (#[trigger] init[i]).kind@ == prev[j]@;
                assert(rows[i] == init[i]);
            } else {
                assert(rows[rows.len() - 1] == last);
            }
        }
    }
}

/// The keyed rule a reference rule of `kind` compiles to, when it has a key.
spec fn keyed_rule_of(kind: KindId, r: RefRule) -> Option<(&'static str, KeyRule)> {
    match key_form_of(r.pattern) {
        Some((k, form)) => Some((k, KeyRule { kind, form, gate: r.gate, alt: r.alt })),
        None => None,
    }
}

proof fn lemma_row_rules_contain(kind: KindId, refs: Seq<RefRule>, j: int)
    requires
        0 <= j < refs.len(),
    ensures
        keyed_rule_of(kind, refs[j]) matches Some(x) ==> spec_row_key_rules(kind, refs).contains(x),
        refs[j].pattern matches RefPattern::ScopePrefix(p) ==> spec_row_scope_rules(kind, refs).contains(
            ScopeRule { prefix: p, kind, gate: refs[j].gate, alt: refs[j].alt },
        ),
        refs[j].pattern is TopLevelBlockKeys ==> spec_row_top_rules(kind, refs).contains(
            TopKeyRule { kind, gate: refs[j].gate },
        ),
    decreases refs.len(),
{
    let init = refs.drop_last();
    if j < refs.len() - 1 {
        lemma_row_rules_contain(kind, init, j);
        assert(init[j] == refs[j]);
        if let Some(x) = keyed_rule_of(kind, refs[j]) {
            let w = choose|w: int| 0 <= w < spec_row_key_rules(kind, init).len() && spec_row_key_rules(kind, init)[w] == x;
            assert(spec_row_key_rules(kind, refs)[w] == x);
        }
        if let RefPattern::ScopePrefix(p) = refs[j].pattern {
            let y = ScopeRule { prefix: p, kind, gate: refs[j].gate, alt: refs[j].alt };
            let w = choose|w: int| 0 <= w < spec_row_scope_rules(kind, init).len() && spec_row_scope_rules(kind, init)[w] == y;
            assert(spec_row_scope_rules(kind, refs)[w] == y);
        }
        if refs[j].pattern is TopLevelBlockKeys {
            let y = TopKeyRule { kind, gate: refs[j].gate };
            let w = choose|w: int| 0 <= w < spec_row_top_rules(kind, init).len() && spec_row_top_rules(kind, init)[w] == y;
            assert(spec_row_top_rules(kind, refs)[w] == y);
        }
    } else {
        assert(refs.last() == refs[j]);
        if let Some(x) = keyed_rule_of(kind, refs[j]) {
            let rs = spec_row_key_rules(kind, refs);
            assert(rs[rs.len() - 1] == x);
        }
        if let RefPattern::ScopePrefix(p) = refs[j].pattern {
            let rs = spec_row_scope_rules(kind, refs);
            assert(rs[rs.len() - 1] == ScopeRule { prefix: p, kind, gate: refs[j].gate, alt: refs[j].alt });
        }
        if refs[j].pattern is TopLevelBlockKeys {
            let rs = spec_row_top_rules(kind, refs);
            assert(rs[rs.len() - 1] == TopKeyRule { kind, gate: refs[j].gate });
        }
    }
}

proof fn lemma_rules_contain(specs: Seq<KindSpec>, i: int, j: int)
    requires
        0 <= i < specs.len(),
        0 <= j < specs[i].refs@.len(),
    ensures
        keyed_rule_of(specs[i].kind, specs[i].refs@[j]) matches Some(x) ==> spec_key_rules(specs).contains(x),
        specs[i].refs@[j].pattern matches RefPattern::ScopePrefix(p) ==> spec_scope_rules(specs).contains(
            ScopeRule { prefix: p, kind: specs[i].kind, gate: specs[i].refs@[j].gate, alt: specs[i].refs@[j].alt },
        ),
        specs[i].refs@[j].pattern is TopLevelBlockKeys ==> spec_top_rules(specs).contains(
            TopKeyRule { kind: specs[i].kind, gate: specs[i].refs@[j].gate },
        ),
    decreases specs.len(),
{
    let init = specs.drop_last();
    let s = specs[i];
    let r = s.refs@[j];
    if i < specs.len() - 1 {
        lemma_rules_contain(init, i, j);
        assert(init[i] == s);
        if let Some(x) = keyed_rule_of(s.kind, r) {
            let w = choose|w: int| 0 <= w < spec_key_rules(init).len() && spec_key_rules(init)[w] == x;
            assert(spec_key_rules(specs)[w] == x);
        }
        if let RefPattern::ScopePrefix(p) = r.pattern {
            let y = ScopeRule { prefix: p, kind: s.kind, gate: r.gate, alt: r.alt };
            let w = choose|w: int| 0 <= w < spec_scope_rules(init).len() && spec_scope_rules(init)[w] == y;
            assert(spec_scope_rules(specs)[w] == y);
        }
        if r.pattern is TopLevelBlockKeys {
            let y = TopKeyRule { kind: s.kind, gate: r.gate };
            let w = choose|w: int| 0 <= w < spec_top_rules(init).len() && spec_top_rules(init)[w] == y;
            assert(spec_top_rules(specs)[w] == y);
        }
    } else {
        assert(specs.last() == s);
        lemma_row_rules_contain(s.kind, s.refs@, j);
        let base_k = spec_key_rules(init).len() as int;
        if let Some(x) = keyed_rule_of(s.kind, r) {
            let row = spec_row_key_rules(s.kind, s.refs@);
            let w = choose|w: int| 0 <= w < row.len() && row[w] == x;
            assert(spec_key_rules(specs)[base_k + w] == x);
        }
        if let RefPattern::ScopePrefix(p) = r.pattern {
            let y = ScopeRule { prefix: p, kind: s.kind, gate: r.gate, alt: r.alt };
            let row = spec_row_scope_rules(s.kind, s.refs@);
            let w = choose|w: int| 0 <= w < row.len() && row[w] == y;
            assert(spec_scope_rules(specs)[spec_scope_rules(init).len() + w] == y);
        }
        if r.pattern is TopLevelBlockKeys {
            let y = TopKeyRule { kind: s.kind, gate: r.gate };
            let row = spec_row_top_rules(s.kind, s.refs@);
            let w = choose|w: int| 0 <= w < row.len() && row[w] == y;
            assert(spec_top_rules(specs)[spec_top_rules(init).len() + w] == y);
        }
    }
}

/// Compiling rows keeps every reference rule under the form of the same
/// name: `KeyValue(k)` becomes a keyed rule under `k` with form `Value`,
/// `KeyBlockKeys(k)` one with form `BlockKeys`, `KeyBlockValues(k)` one with
/// form `BlockValues`, and so on for each key pattern (with the row's kind
/// and the rule's gate and alternates); `ScopePrefix(p)` becomes a scope
/// rule for `p` and `TopLevelBlockKeys` a top-level-keys rule.
pub proof fn law_patterns_compile_to_their_forms(specs: Seq<KindSpec>, i: int, j: int)
    requires
        0 <= i < specs.len(),
        0 <= j < specs[i].refs@.len(),
    ensures
        ({
            let kind = specs[i].kind;
            let r = specs[i].refs@[j];
            let keyed = |k: &'static str, form: KeyForm|
                spec_key_rules(specs).contains((k, KeyRule { kind, form, gate: r.gate, alt: r.alt }));
            match r.pattern {
                RefPattern::KeyValue(k) => keyed(k, KeyForm::Value),
                RefPattern::KeyValueTop(k) => keyed(k, KeyForm::ValueTop),
                RefPattern::KeyValueUnder(parent, k) => keyed(k, KeyForm::ValueUnder(parent)),
                RefPattern::KeyBlockField(k, field) => keyed(k, KeyForm::BlockField(field)),
                RefPattern::KeyList(k) => keyed(k, KeyForm::List),
                RefPattern::KeyBlockKeys(k) => keyed(k, KeyForm::BlockKeys),
                RefPattern::KeyBlockValues(k) => keyed(k, KeyForm::BlockValues),
                RefPattern::KeyWeighted(k) => keyed(k, KeyForm::Weighted),
                RefPattern::ScopePrefix(p) => spec_scope_rules(specs).contains(
                    ScopeRule { prefix: p, kind, gate: r.gate, alt: r.alt },
                ),
                RefPattern::TopLevelBlockKeys => spec_top_rules(specs).contains(TopKeyRule { kind, gate: r.gate }),
            }
        }),
{
    lemma_rules_contain(specs, i, j);
}

} // verus!
