//! CK3 rules for the analysis engine — the game's conventions as data.
//!
//! The schema is compiled from kind rows (one per game concept) plus the
//! game-wide lists below: the skip words, the typed- and keyed-value
//! definition keywords, the doc-comment reference aliases and the kinds the
//! call-by-name, interface-script and localization layers bind to. Rows
//! derived from the game's scope-link table add `ScopePrefix` navigation for
//! every data-carrying link whose output scope type is modeled.

use vstd::prelude::*;

use crate::kind::{CallKinds, GuiKinds, KindId};
use crate::schema::{
    spec_alias_list, spec_def_rules, spec_icon_list, spec_key_rules, spec_kinds, spec_row_key_rules,
    spec_row_top_rules, spec_scope_rules, spec_top_rules, IconHint, KindSpec, RefPattern, RefRule, Schema,
};
use crate::text::str_eq;

verus! {

// ---------------------------------------------------------------------------
// Table-derived scope-link rules.

/// One row of the game's scope-link table: a link `name:` that navigates
/// from the `input_scopes` to the `output_scopes`, taking an argument when
/// `requires_data` is set.
#[derive(Clone, Copy, Debug)]
pub struct ScopeLink {
    pub name: &'static str,
    pub requires_data: bool,
    pub input_scopes: &'static [&'static str],
    pub output_scopes: &'static [&'static str],
}

/// A link names a literal key of `scope_type` when it carries data, needs no
/// input scope, and outputs that scope type.
pub open spec fn takes_literal_key(l: ScopeLink, scope_type: Seq<char>) -> bool {
    &&& l.requires_data
    &&& l.input_scopes@.len() == 0
    &&& exists|j: int| 0 <= j < l.output_scopes@.len() && (#[trigger] l.output_scopes@[j])@ == scope_type
}

/// The names of the links taking a literal key of `scope_type`, in table
/// order.
pub open spec fn key_links(links: Seq<ScopeLink>, scope_type: Seq<char>) -> Seq<&'static str>
    decreases links.len(),
{
    if links.len() == 0 {
        Seq::empty()
    } else {
        let prev = key_links(links.drop_last(), scope_type);
        if takes_literal_key(links.last(), scope_type) {
            prev.push(links.last().name)
        } else {
            prev
        }
    }
}

/// Output scope type → kind: the one curated map. Scope-type names are the
/// game's (`landed_title` is our `title`, `government_type` our
/// `government`, `vassal_contract` our `subject_contract`).
pub open spec fn target_kinds() -> Seq<(Seq<char>, Seq<char>)> {
    seq![
        ("landed_title"@, "title"@),
        ("character"@, "character"@),
        ("province"@, "province"@),
        ("culture"@, "culture"@),
        ("culture_pillar"@, "culture_pillar"@),
        ("culture_tradition"@, "culture_tradition"@),
        ("culture_innovation"@, "culture_innovation"@),
        ("faith"@, "faith"@),
        ("religion"@, "religion"@),
        ("doctrine"@, "doctrine"@),
        ("trait"@, "trait"@),
        ("decision"@, "decision"@),
        ("dynasty"@, "dynasty"@),
        ("dynasty_house"@, "dynasty_house"@),
        ("casus_belli_type"@, "casus_belli"@),
        ("government_type"@, "government"@),
        ("holding_type"@, "holding"@),
        ("situation"@, "situation_type"@),
        ("vassal_contract"@, "subject_contract"@),
        ("vassal_contract_obligation_level"@, "obligation_level"@),
    ]
}

/// For each mapped scope type in order with at least one key-taking link:
/// its kind and those links' names.
pub open spec fn derived_rows(links: Seq<ScopeLink>, targets: Seq<(Seq<char>, Seq<char>)>) -> Seq<(Seq<char>, Seq<&'static str>)>
    decreases targets.len(),
{
    if targets.len() == 0 {
        Seq::empty()
    } else {
        let prev = derived_rows(links, targets.drop_last());
        let names = key_links(links, targets.last().0);
        if names.len() > 0 {
            prev.push((targets.last().1, names))
        } else {
            prev
        }
    }
}

/// `s` is the kind row for `row`: an object kind with no definitions and no
/// aliases, referenced by one `ScopePrefix` rule per link, ungated and with
/// no alternates.
pub open spec fn is_link_row(s: KindSpec, row: (Seq<char>, Seq<&'static str>)) -> bool {
    &&& s.kind@ == row.0
    &&& s.icon is Object
    &&& s.defs is None
    &&& s.aliases@.len() == 0
    &&& s.refs@.len() == row.1.len()
    &&& forall|j: int|
        0 <= j < row.1.len() ==> {
            &&& (#[trigger] s.refs@[j]).pattern == RefPattern::ScopePrefix(row.1[j])
            &&& s.refs@[j].gate is None
            &&& s.refs@[j].alt@.len() == 0
        }
}

/// Each kind row is the row for the corresponding derived entry.
pub open spec fn link_rows_match(specs: Seq<KindSpec>, rows: Seq<(Seq<char>, Seq<&'static str>)>) -> bool {
    &&& specs.len() == rows.len()
    &&& forall|i: int| 0 <= i < rows.len() ==> is_link_row(#[trigger] specs[i], rows[i])
}

/// Views of (name, kind) pairs.
pub open spec fn named_views(v: Seq<(&'static str, KindId)>) -> Seq<(Seq<char>, Seq<char>)> {
    v.map_values(|p: (&'static str, KindId)| (p.0@, p.1@))
}

/// Views of names.
pub open spec fn str_views(v: Seq<&'static str>) -> Seq<Seq<char>> {
    v.map_values(|s: &'static str| s@)
}

/// Keeps a buffer for the rest of the process.
///
/// Calls `Vec::leak`, whose documentation promises a slice with the
/// vector's contents that lives as long as needed.
#[verifier::external_body]
fn leak_slice<T: 'static>(v: Vec<T>) -> (r: &'static [T])
    ensures
        r@ == v@,
{
    v.leak()
}

fn target_kind_table() -> (r: Vec<(&'static str, KindId)>)
    ensures
        named_views(r@) == target_kinds(),
{
    let mut r: Vec<(&'static str, KindId)> = Vec::new();
    r.push(("landed_title", KindId::new("title")));
    r.push(("character", KindId::new("character")));
    r.push(("province", KindId::new("province")));
    r.push(("culture", KindId::new("culture")));
    r.push(("culture_pillar", KindId::new("culture_pillar")));
    r.push(("culture_tradition", KindId::new("culture_tradition")));
    r.push(("culture_innovation", KindId::new("culture_innovation")));
    r.push(("faith", KindId::new("faith")));
    r.push(("religion", KindId::new("religion")));
    r.push(("doctrine", KindId::new("doctrine")));
    r.push(("trait", KindId::new("trait")));
    r.push(("decision", KindId::new("decision")));
    r.push(("dynasty", KindId::new("dynasty")));
    r.push(("dynasty_house", KindId::new("dynasty_house")));
    r.push(("casus_belli_type", KindId::new("casus_belli")));
    r.push(("government_type", KindId::new("government")));
    r.push(("holding_type", KindId::new("holding")));
    r.push(("situation", KindId::new("situation_type")));
    r.push(("vassal_contract", KindId::new("subject_contract")));
    r.push(("vassal_contract_obligation_level", KindId::new("obligation_level")));
    assert(named_views(r@) =~= target_kinds());
    r
}

fn has_scope(scopes: &[&'static str], scope_type: &str) -> (r: bool)
    ensures
        r == exists|j: int| 0 <= j < scopes@.len() && (#[trigger] scopes@[j])@ == scope_type@,
{
    let mut j: usize = 0;
    while j < scopes.len()
        invariant
            j <= scopes@.len(),
            forall|k: int| 0 <= k < j ==> (#[trigger] scopes@[k])@ != scope_type@,
        decreases scopes@.len() - j,
    {
        if str_eq(scopes[j], scope_type) {
            return true;
        }
        j += 1;
    }
    false
}

/// `ScopePrefix` rules derived from the scope-link table: one kind row per
/// mapped output scope type that some data-carrying, input-free link
/// outputs, with one rule per such link. Regenerating the table after a game
/// patch grows navigation with no schema edit.
pub fn derived_link_rules(links: &[ScopeLink]) -> (r: Vec<KindSpec>)
    ensures
        link_rows_match(r@, derived_rows(links@, target_kinds())),
{
    let targets = target_kind_table();
    let ghost tv = target_kinds();
    let mut out: Vec<KindSpec> = Vec::new();
    let mut t: usize = 0;
    while t < targets.len()
        invariant
            t <= targets@.len(),
            named_views(targets@) == tv,
            tv == target_kinds(),
            link_rows_match(out@, derived_rows(links@, tv.take(t as int))),
        decreases targets@.len() - t,
    {
        let (scope_type, kind) = targets[t];
        assert(tv[t as int] == (scope_type@, kind@));
        let mut rules: Vec<RefRule> = Vec::new();
        let mut l: usize = 0;
        let none: &'static [KindId] = &[];
        while l < links.len()
            invariant
                l <= links@.len(),
                none@.len() == 0,
                rules@.len() == key_links(links@.take(l as int), scope_type@).len(),
                forall|j: int|
                    0 <= j < rules@.len() ==> {
                        &&& (#[trigger] rules@[j]).pattern == RefPattern::ScopePrefix(key_links(links@.take(l as int), scope_type@)[j])
                        &&& rules@[j].gate is None
                        &&& rules@[j].alt@.len() == 0
                    },
            decreases links@.len() - l,
        {
            let link = links[l];
            assert(links@.take(l as int + 1).drop_last() =~= links@.take(l as int));
            if link.requires_data && link.input_scopes.len() == 0 && has_scope(link.output_scopes, scope_type) {
                rules.push(RefRule { pattern: RefPattern::ScopePrefix(link.name), gate: None, alt: none });
            }
            l += 1;
        }
        assert(links@.take(links@.len() as int) =~= links@);
        let ghost names = key_links(links@, scope_type@);
        assert(tv.take(t as int + 1).drop_last() =~= tv.take(t as int));
        if rules.len() != 0 {
            let n = rules.len();
            let refs = leak_slice(rules);
            let aliases: &'static [&'static str] = &[];
            let spec = KindSpec { kind, icon: IconHint::Object, defs: None, refs, aliases };
            assert(aliases@.len() == 0);
            out.push(spec);
            proof {
                let rows = derived_rows(links@, tv.take(t as int + 1));
                assert(rows == derived_rows(links@, tv.take(t as int)).push((kind@, names)));
                assert(is_link_row(spec, (kind@, names)));
            }
        }
        t += 1;
    }
    assert(tv.take(tv.len() as int) =~= tv);
    out
}

/// A row that only adds scope-literal navigation: it defines nothing, has no
/// aliases, and every reference rule is a `ScopePrefix`.
pub open spec fn scope_only(s: KindSpec) -> bool {
    &&& s.defs is None
    &&& s.aliases@.len() == 0
    &&& forall|j: int| 0 <= j < s.refs@.len() ==> (#[trigger] s.refs@[j]).pattern is ScopePrefix
}

proof fn lemma_scope_only_refs(kind: KindId, refs: Seq<RefRule>)
    requires
        forall|j: int| 0 <= j < refs.len() ==> (#[trigger] refs[j]).pattern is ScopePrefix,
    ensures
        spec_row_key_rules(kind, refs).len() == 0,
        spec_row_top_rules(kind, refs).len() == 0,
    decreases refs.len(),
{
    if refs.len() > 0 {
        let init = refs.drop_last();
        assert forall|j: int| 0 <= j < init.len() implies (#[trigger] init[j]).pattern is ScopePrefix by {
            assert(init[j] == refs[j]);
        }
        lemma_scope_only_refs(kind, init);
        assert(refs[refs.len() - 1] == refs.last());
    }
}

proof fn lemma_scope_only_extension(rows: Seq<KindSpec>, d: Seq<KindSpec>)
    requires
        forall|i: int| 0 <= i < d.len() ==> scope_only(#[trigger] d[i]),
    ensures
        spec_def_rules(rows + d) == spec_def_rules(rows),
        spec_key_rules(rows + d) == spec_key_rules(rows),
        spec_top_rules(rows + d) == spec_top_rules(rows),
        spec_alias_list(rows + d) == spec_alias_list(rows),
        spec_kinds(rows).len() <= spec_kinds(rows + d).len(),
        spec_kinds(rows + d).take(spec_kinds(rows).len() as int) == spec_kinds(rows),
        spec_scope_rules(rows).len() <= spec_scope_rules(rows + d).len(),
        spec_scope_rules(rows + d).take(spec_scope_rules(rows).len() as int) == spec_scope_rules(rows),
    decreases d.len(),
{
    if d.len() == 0 {
        assert(rows + d =~= rows);
        assert(spec_kinds(rows).take(spec_kinds(rows).len() as int) =~= spec_kinds(rows));
        assert(spec_scope_rules(rows).take(spec_scope_rules(rows).len() as int) =~= spec_scope_rules(rows));
    } else {
        let init = d.drop_last();
        assert forall|i: int| 0 <= i < init.len() implies scope_only(#[trigger] init[i]) by {
            assert(init[i] == d[i]);
        }
        lemma_scope_only_extension(rows, init);
        let all = rows + d;
        assert(all.drop_last() =~= rows + init);
        let last = d[d.len() - 1];
        assert(all.last() == last);
        assert(scope_only(last));
        lemma_scope_only_refs(last.kind, last.refs@);
        assert(spec_key_rules(all) =~= spec_key_rules(rows + init));
        assert(spec_top_rules(all) =~= spec_top_rules(rows + init));
        let kp = spec_kinds(rows + init);
        let n = spec_kinds(rows).len() as int;
        assert(spec_kinds(all).take(n) =~= kp.take(n));
        let sp = spec_scope_rules(rows + init);
        let m = spec_scope_rules(rows).len() as int;
        assert(spec_scope_rules(all).take(m) =~= sp.take(m));
    }
}

/// The full schema extends the one built from the hand-written rows alone:
/// the derived rows define nothing and add no keyed, top-level or alias
/// rules, so definition lookup and keyed value kinds agree; the hand
/// schema's kinds and scope rules come first, in the same order; and the
/// game-wide lists are the same.
pub proof fn law_full_schema_extends_hand(
    full: Schema,
    hand: Schema,
    rows: Seq<KindSpec>,
    derived: Seq<KindSpec>,
    links: Seq<ScopeLink>,
)
    requires
        link_rows_match(derived, derived_rows(links, target_kinds())),
        ck3_schema(full, rows + derived),
        ck3_schema(hand, rows),
    ensures
        full.spec_def_rule_list() == hand.spec_def_rule_list(),
        full.spec_key_rule_list() == hand.spec_key_rule_list(),
        full.spec_top_rule_list() == hand.spec_top_rule_list(),
        full.spec_alias_list() == hand.spec_alias_list(),
        hand.spec_kinds().len() <= full.spec_kinds().len(),
        full.spec_kinds().take(hand.spec_kinds().len() as int) == hand.spec_kinds(),
        hand.spec_scope_rule_list().len() <= full.spec_scope_rule_list().len(),
        full.spec_scope_rule_list().take(hand.spec_scope_rule_list().len() as int) == hand.spec_scope_rule_list(),
        str_views(full.spec_scope_keywords()) == str_views(hand.spec_scope_keywords()),
        named_views(full.spec_typed_defs()) == named_views(hand.spec_typed_defs()),
        named_views(full.spec_keyed_value_defs()) == named_views(hand.spec_keyed_value_defs()),
        named_views(full.spec_doc_aliases()) == named_views(hand.spec_doc_aliases()),
        full.spec_call_kinds() matches Some(a) && hand.spec_call_kinds() matches Some(b) && a.effect@ == b.effect@
            && a.trigger@ == b.trigger@ && a.value@ == b.value@,
        full.spec_loc_concept_kind() matches Some(a) && hand.spec_loc_concept_kind() matches Some(b) && a@ == b@,
{
    let rws = derived_rows(links, target_kinds());
    assert forall|i: int| 0 <= i < derived.len() implies scope_only(#[trigger] derived[i]) by {
        assert(is_link_row(derived[i], rws[i]));
        assert forall|j: int| 0 <= j < derived[i].refs@.len() implies (#[trigger] derived[i].refs@[j]).pattern is ScopePrefix by {
            assert(derived[i].refs@[j].pattern == RefPattern::ScopePrefix(rws[i].1[j]));
        }
    }
    lemma_scope_only_extension(rows, derived);
}

// ---------------------------------------------------------------------------
// The game-wide lists.

/// The definition roots worth surveying for schema coverage (interface
/// scripts and localization are modeled by their own layers).
pub fn survey_roots() -> (r: Vec<&'static str>)
    ensures
        str_views(r@) == seq!["common"@, "events"@, "history"@],
{
    let mut r: Vec<&'static str> = Vec::new();
    r.push("common");
    r.push("events");
    r.push("history");
    assert(str_views(r@) =~= seq!["common"@, "events"@, "history"@]);
    r
}

/// Reference values that are never symbol names (the universal `none`
/// sentinel, title history's vacate sentinel `0`, relative-scope keywords,
/// and coat-of-arms colour slots).
pub open spec fn scope_keywords() -> Seq<Seq<char>> {
    seq![
        "none"@, "0"@, "root"@, "this"@, "prev"@, "prevprev"@, "prevprevprev"@,
        "prevprevprevprev"@, "color1"@, "color2"@, "color3"@, "color4"@, "color5"@, "list"@,
    ]
}

/// Typed-definition keywords: `KEYWORD NAME = { … }` defines `NAME`.
pub open spec fn typed_defs() -> Seq<(Seq<char>, Seq<char>)> {
    seq![("scripted_effect"@, "scripted_effect"@), ("scripted_trigger"@, "scripted_trigger"@)]
}

/// Keyed-value definitions: `namespace = X` declares event namespace `X`.
pub open spec fn keyed_value_defs() -> Seq<(Seq<char>, Seq<char>)> {
    seq![("namespace"@, "namespace"@)]
}

/// Doc-comment reference aliases: `![scheme:X]` pins the lookup to a kind.
pub open spec fn doc_ref_aliases() -> Seq<(Seq<char>, Seq<char>)> {
    seq![
        ("effect"@, "scripted_effect"@),
        ("trigger"@, "scripted_trigger"@),
        ("value"@, "script_value"@),
        ("trait"@, "trait"@),
        ("event"@, "event"@),
        ("decision"@, "decision"@),
        ("on_action"@, "on_action"@),
        ("character"@, "character"@),
        ("title"@, "title"@),
        ("culture"@, "culture"@),
        ("faith"@, "faith"@),
        ("law"@, "law"@),
        ("law_group"@, "law_group"@),
        ("scheme"@, "scheme"@),
        ("government"@, "government"@),
        ("holding"@, "holding"@),
        ("modifier"@, "modifier"@),
        ("animation"@, "portrait_animation"@),
        ("background"@, "event_background"@),
        ("theme"@, "event_theme"@),
        ("template"@, "scripted_character_template"@),
        ("secret"@, "secret_type"@),
        ("interaction"@, "character_interaction"@),
        ("activity"@, "activity_type"@),
        ("intent"@, "activity_intent"@),
        ("task_contract"@, "task_contract_type"@),
        ("namespace"@, "namespace"@),
        ("loc"@, "loc_key"@),
    ]
}

/// Datafunctions whose first quoted argument names a symbol of a kind.
pub open spec fn gui_arg_refs() -> Seq<(Seq<char>, Seq<char>)> {
    seq![
        ("GetScriptedGui"@, "scripted_gui"@),
        ("ScriptValue"@, "script_value"@),
        ("Custom"@, "custom_loc"@),
        ("Custom2"@, "custom_loc"@),
        ("GetDecisionWithKey"@, "decision"@),
        ("GetTitleByKey"@, "title"@),
        ("GetCultureByKey"@, "culture"@),
        ("GetFaithByKey"@, "faith"@),
    ]
}

/// `s` is the CK3 schema compiled from `rows`.
pub open spec fn ck3_schema(s: Schema, rows: Seq<KindSpec>) -> bool {
    &&& s.spec_def_rule_list() == spec_def_rules(rows)
    &&& s.spec_key_rule_list() == spec_key_rules(rows)
    &&& s.spec_scope_rule_list() == spec_scope_rules(rows)
    &&& s.spec_top_rule_list() == spec_top_rules(rows)
    &&& s.spec_alias_list() == spec_alias_list(rows)
    &&& s.spec_icon_list() == spec_icon_list(rows)
    &&& s.spec_kinds() == spec_kinds(rows)
    &&& str_views(s.spec_scope_keywords()) == scope_keywords()
    &&& named_views(s.spec_typed_defs()) == typed_defs()
    &&& named_views(s.spec_keyed_value_defs()) == keyed_value_defs()
    &&& s.spec_nested_value_defs().len() == 0
    &&& named_views(s.spec_doc_aliases()) == doc_ref_aliases()
    &&& s.spec_call_kinds() matches Some(c) && c.effect@ == "scripted_effect"@ && c.trigger@
        == "scripted_trigger"@ && c.value@ == "script_value"@
    &&& s.spec_gui_kinds() matches Some(g) && g.template@ == "gui_template"@ && g.ty@ == "gui_type"@
        && named_views(g.arg_refs@) == gui_arg_refs() && str_views(g.loc_fields@) == seq![
        "text"@,
        "tooltip"@,
    ]
    &&& s.spec_loc_concept_kind() matches Some(k) && k@ == "game_concept"@
}

fn scope_keyword_list() -> (r: Vec<&'static str>)
    ensures
        str_views(r@) == scope_keywords(),
{
    let mut r: Vec<&'static str> = Vec::new();
    r.push("none");
    r.push("0");
    r.push("root");
    r.push("this");
    r.push("prev");
    r.push("prevprev");
    r.push("prevprevprev");
    r.push("prevprevprevprev");
    r.push("color1");
    r.push("color2");
    r.push("color3");
    r.push("color4");
    r.push("color5");
    r.push("list");
    assert(str_views(r@) =~= scope_keywords());
    r
}

fn doc_ref_alias_list() -> (r: Vec<(&'static str, KindId)>)
    ensures
        named_views(r@) == doc_ref_aliases(),
{
    let mut r: Vec<(&'static str, KindId)> = Vec::new();
    r.push(("effect", KindId::new("scripted_effect")));
    r.push(("trigger", KindId::new("scripted_trigger")));
    r.push(("value", KindId::new("script_value")));
    r.push(("trait", KindId::new("trait")));
    r.push(("event", KindId::new("event")));
    r.push(("decision", KindId::new("decision")));
    r.push(("on_action", KindId::new("on_action")));
    r.push(("character", KindId::new("character")));
    r.push(("title", KindId::new("title")));
    r.push(("culture", KindId::new("culture")));
    r.push(("faith", KindId::new("faith")));
    r.push(("law", KindId::new("law")));
    r.push(("law_group", KindId::new("law_group")));
    r.push(("scheme", KindId::new("scheme")));
    r.push(("government", KindId::new("government")));
    r.push(("holding", KindId::new("holding")));
    r.push(("modifier", KindId::new("modifier")));
    r.push(("animation", KindId::new("portrait_animation")));
    r.push(("background", KindId::new("event_background")));
    r.push(("theme", KindId::new("event_theme")));
    r.push(("template", KindId::new("scripted_character_template")));
    r.push(("secret", KindId::new("secret_type")));
    r.push(("interaction", KindId::new("character_interaction")));
    r.push(("activity", KindId::new("activity_type")));
    r.push(("intent", KindId::new("activity_intent")));
    r.push(("task_contract", KindId::new("task_contract_type")));
    r.push(("namespace", KindId::new("namespace")));
    r.push(("loc", KindId::new("loc_key")));
    assert(named_views(r@) =~= doc_ref_aliases());
    r
}

fn gui_kind_list() -> (g: GuiKinds)
    ensures
        g.template@ == "gui_template"@,
        g.ty@ == "gui_type"@,
        named_views(g.arg_refs@) == gui_arg_refs(),
        str_views(g.loc_fields@) == seq!["text"@, "tooltip"@],
{
    let mut refs: Vec<(&'static str, KindId)> = Vec::new();
    refs.push(("GetScriptedGui", KindId::new("scripted_gui")));
    refs.push(("ScriptValue", KindId::new("script_value")));
    refs.push(("Custom", KindId::new("custom_loc")));
    refs.push(("Custom2", KindId::new("custom_loc")));
    refs.push(("GetDecisionWithKey", KindId::new("decision")));
    refs.push(("GetTitleByKey", KindId::new("title")));
    refs.push(("GetCultureByKey", KindId::new("culture")));
    refs.push(("GetFaithByKey", KindId::new("faith")));
    assert(named_views(refs@) =~= gui_arg_refs());
    let mut fields: Vec<&'static str> = Vec::new();
    fields.push("text");
    fields.push("tooltip");
    assert(str_views(fields@) =~= seq!["text"@, "tooltip"@]);
    GuiKinds {
        template: KindId::new("gui_template"),
        ty: KindId::new("gui_type"),
        arg_refs: leak_slice(refs),
        loc_fields: leak_slice(fields),
    }
}

/// Builds a schema from explicit kind rows and the CK3 game-wide lists.
pub fn schema_from_rows(rows: &[KindSpec]) -> (s: Schema)
    ensures
        ck3_schema(s, rows@),
{
    let keywords = scope_keyword_list();
    let mut typed: Vec<(&'static str, KindId)> = Vec::new();
    typed.push(("scripted_effect", KindId::new("scripted_effect")));
    typed.push(("scripted_trigger", KindId::new("scripted_trigger")));
    assert(named_views(typed@) =~= typed_defs());
    let mut keyed: Vec<(&'static str, KindId)> = Vec::new();
    keyed.push(("namespace", KindId::new("namespace")));
    assert(named_views(keyed@) =~= keyed_value_defs());
    // No nested keyed-value definitions in CK3.
    let nested: Vec<(&'static str, KindId)> = Vec::new();
    let aliases = doc_ref_alias_list();
    let call_kinds = CallKinds {
        effect: KindId::new("scripted_effect"),
        trigger: KindId::new("scripted_trigger"),
        value: KindId::new("script_value"),
    };
    let gui_kinds = gui_kind_list();
    Schema::new(
        rows,
        keywords.as_slice(),
        typed.as_slice(),
        keyed.as_slice(),
        nested.as_slice(),
        aliases.as_slice(),
        Some(call_kinds),
        Some(gui_kinds),
        Some(KindId::new("game_concept")),
    )
}

/// Builds the CK3 schema: the hand-written kind rows plus the rules derived
/// from the scope-link table.
pub fn schema(rows: &[KindSpec], links: &[ScopeLink]) -> (s: Schema)
    ensures
        exists|derived: Seq<KindSpec>|
            link_rows_match(derived, derived_rows(links@, target_kinds())) && ck3_schema(s, rows@ + derived),
{
    let derived = derived_link_rules(links);
    let mut all: Vec<KindSpec> = Vec::new();
    let mut i: usize = 0;
    while i < rows.len()
        invariant
            i <= rows@.len(),
            all@ == rows@.take(i as int),
        decreases rows@.len() - i,
    {
        all.push(rows[i]);
        assert(all@ =~= rows@.take(i as int + 1));
        i += 1;
    }
    let mut j: usize = 0;
    while j < derived.len()
        invariant
            j <= derived@.len(),
            all@ == rows@ + derived@.take(j as int),
        decreases derived@.len() - j,
    {
        all.push(derived[j]);
        assert(all@ =~= rows@ + derived@.take(j as int + 1));
        j += 1;
    }
    assert(derived@.take(derived@.len() as int) =~= derived@);
    let s = schema_from_rows(all.as_slice());
    assert(link_rows_match(derived@, derived_rows(links@, target_kinds())) && ck3_schema(s, rows@ + derived@));
    s
}

/// The schema from the hand-written rows only — the baseline the derived
/// rules are measured against.
pub fn schema_hand_only(rows: &[KindSpec]) -> (s: Schema)
    ensures
        ck3_schema(s, rows@),
{
    schema_from_rows(rows)
}

/// Some link of the table named `name` takes a literal key of `scope_type`.
pub open spec fn literal_link_named(links: Seq<ScopeLink>, name: Seq<char>, scope_type: Seq<char>) -> bool {
    exists|i: int| 0 <= i < links.len() && (#[trigger] links[i]).name@ == name && takes_literal_key(links[i], scope_type)
}

/// Every derived link name belongs to a link of the table that takes a
/// literal key of the scope type: data-carrying, input-free, outputting it.
pub proof fn law_derived_links_take_literal_keys(links: Seq<ScopeLink>, scope_type: Seq<char>)
    ensures
        forall|j: int|
            0 <= j < key_links(links, scope_type).len() ==> literal_link_named(
                links,
                (#[trigger] key_links(links, scope_type)[j])@,
                scope_type,
            ),
    decreases links.len(),
{
    if links.len() > 0 {
        let init = links.drop_last();
        law_derived_links_take_literal_keys(init, scope_type);
        let names = key_links(links, scope_type);
        assert forall|j: int| 0 <= j < names.len() implies literal_link_named(links, (#[trigger] names[j])@, scope_type) by {
            if j < key_links(init, scope_type).len() {
                assert(names[j] == key_links(init, scope_type)[j]);
                assert(literal_link_named(init, key_links(init, scope_type)[j]@, scope_type));
                let i = choose|i: int| 0 <= i < init.len() && (#[trigger] init[i]).name@ == key_links(init, scope_type)[j]@
                    && takes_literal_key(init[i], scope_type);
                assert(links[i] == init[i]);
            } else {
                let i = links.len() - 1;
                assert(takes_literal_key(links.last(), scope_type));
                assert(links[i] == links.last());
                assert(links[i].name@ == names[j]@);
            }
        }
    }
}

} // verus!
