use pdxl::ck3::{derived_link_rules, schema, schema_from_rows, schema_hand_only, survey_roots, ScopeLink};
use pdxl::kind::KindId;
use pdxl::schema::{DefShape, DefSource, IconHint, KindSpec, RefPattern, RefRule};

fn leak<T>(v: Vec<T>) -> &'static [T] {
    Box::leak(v.into_boxed_slice())
}

fn links() -> Vec<ScopeLink> {
    vec![
        // Data-carrying, input-free, outputs a character: `character:`.
        ScopeLink { name: "character", requires_data: true, input_scopes: &[], output_scopes: &["character"] },
        // Navigates from an input scope: not a literal key.
        ScopeLink { name: "cp", requires_data: true, input_scopes: &["character"], output_scopes: &["character"] },
        // Takes no argument.
        ScopeLink { name: "primary_title", requires_data: false, input_scopes: &[], output_scopes: &["landed_title"] },
        ScopeLink { name: "title", requires_data: true, input_scopes: &[], output_scopes: &["landed_title"] },
        ScopeLink { name: "faith", requires_data: true, input_scopes: &[], output_scopes: &["faith"] },
        // An unmodeled output scope type.
        ScopeLink { name: "accolade_type", requires_data: true, input_scopes: &[], output_scopes: &["accolade_type"] },
        ScopeLink { name: "dynasty", requires_data: true, input_scopes: &[], output_scopes: &["value", "dynasty"] },
    ]
}

fn prefixes(spec: &KindSpec) -> Vec<&'static str> {
    spec.refs
        .iter()
        .map(|r| match r.pattern {
            RefPattern::ScopePrefix(p) => p,
            _ => panic!("not a scope prefix"),
        })
        .collect()
}

#[test]
fn derived_rows_follow_the_target_map_order() {
    let rows = derived_link_rules(&links());
    let kinds: Vec<&str> = rows.iter().map(|r| r.kind.name()).collect();
    assert_eq!(kinds, vec!["title", "character", "faith", "dynasty"]);
    assert_eq!(prefixes(&rows[0]), vec!["title"]);
    assert_eq!(prefixes(&rows[1]), vec!["character"]);
    assert_eq!(prefixes(&rows[3]), vec!["dynasty"]);
    for row in &rows {
        assert!(matches!(row.icon, IconHint::Object));
        assert!(row.defs.is_none());
        assert!(row.aliases.is_empty());
        for r in row.refs {
            assert!(r.gate.is_none());
            assert!(r.alt.is_empty());
        }
    }
}

#[test]
fn an_empty_link_table_derives_nothing() {
    assert!(derived_link_rules(&[]).is_empty());
}

fn trait_row() -> KindSpec {
    KindSpec {
        kind: KindId::new("trait"),
        icon: IconHint::Tag,
        defs: Some(DefSource { dir_prefix: "common/traits/", shape: DefShape::TopLevel }),
        refs: leak(vec![RefRule { pattern: RefPattern::KeyValue("has_trait"), gate: None, alt: &[] }]),
        aliases: &[],
    }
}

#[test]
fn the_schema_carries_the_game_wide_lists() {
    let s = schema_hand_only(&[trait_row()]);
    assert!(s.skip_ref_value("none"));
    assert!(s.skip_ref_value("prevprev"));
    assert!(!s.skip_ref_value("brave"));
    assert_eq!(s.typed_def_kind("scripted_effect").map(|k| k.name()), Some("scripted_effect"));
    assert_eq!(s.keyed_value_def_kind("namespace").map(|k| k.name()), Some("namespace"));
    assert_eq!(s.kind_by_alias("loc").map(|k| k.name()), Some("loc_key"));
    assert_eq!(s.kind_by_alias("animation").map(|k| k.name()), Some("portrait_animation"));
    assert_eq!(s.loc_concept_kind().map(|k| k.name()), Some("game_concept"));
    let calls = s.call_kinds().unwrap();
    assert_eq!(calls.value.name(), "script_value");
    let gui = s.gui_kinds().unwrap();
    assert_eq!(gui.arg_refs.len(), 8);
    assert_eq!(gui.loc_fields, &["text", "tooltip"]);
    assert!(!s.has_nested_value_defs());
    assert_eq!(s.rule_for("common/traits/00_traits.txt").map(|r| r.kind.name()), Some("trait"));
}

#[test]
fn the_full_schema_adds_the_derived_rows() {
    let rows = [trait_row()];
    let hand = schema_hand_only(&rows);
    let full = schema(&rows, &links());
    assert_eq!(hand.kinds().len(), 1);
    let names: Vec<&str> = full.kinds().iter().map(|k| k.name()).collect();
    assert_eq!(names, vec!["trait", "title", "character", "faith", "dynasty"]);
    assert!(hand.scope_prefix_kinds("title", "events/a.txt").is_empty());
    let k: Vec<&str> = full.scope_prefix_kinds("title", "events/a.txt").iter().map(|k| k.name()).collect();
    assert_eq!(k, vec!["title"]);
    assert_eq!(
        full.rule_for("common/traits/x.txt").map(|r| r.kind.name()),
        hand.rule_for("common/traits/x.txt").map(|r| r.kind.name())
    );
    let fv: Vec<&str> = full.value_kinds("has_trait", "events/a.txt").iter().map(|k| k.name()).collect();
    let hv: Vec<&str> = hand.value_kinds("has_trait", "events/a.txt").iter().map(|k| k.name()).collect();
    assert_eq!(fv, hv);
    assert_eq!(fv, vec!["trait"]);
    let again = schema_from_rows(&rows);
    assert_eq!(again.kinds().len(), 1);
}

#[test]
fn survey_roots_are_the_definition_trees() {
    assert_eq!(survey_roots(), vec!["common", "events", "history"]);
}
