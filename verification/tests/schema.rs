use pdxl::kind::KindId;
use pdxl::schema::{DefShape, DefSource, IconHint, KindSpec, RefPattern, RefRule, Schema};

fn leak<X>(v: Vec<X>) -> &'static [X] {
    Box::leak(v.into_boxed_slice())
}

fn rule(pattern: RefPattern, gate: Option<&'static str>) -> RefRule {
    RefRule { pattern, gate, alt: &[] }
}

fn schema() -> Schema {
    let rows = vec![
        KindSpec {
            kind: KindId::new("trait"),
            icon: IconHint::Tag,
            defs: Some(DefSource { dir_prefix: "common/traits/", shape: DefShape::TopLevel }),
            refs: leak(vec![
                rule(RefPattern::KeyValue("has_trait"), None),
                rule(RefPattern::KeyList("traits"), Some("common/culture/")),
                rule(RefPattern::KeyValueTop("trait"), None),
            ]),
            aliases: leak(vec!["group", "group_equivalence"]),
        },
        KindSpec {
            kind: KindId::new("event"),
            icon: IconHint::Event,
            defs: Some(DefSource { dir_prefix: "events/", shape: DefShape::TopLevel }),
            refs: leak(vec![
                rule(RefPattern::KeyValue("trigger_event"), None),
                rule(RefPattern::KeyWeighted("random_events"), None),
                rule(RefPattern::ScopePrefix("event"), Some("events/")),
            ]),
            aliases: &[],
        },
        KindSpec {
            kind: KindId::new("trait"),
            icon: IconHint::Object,
            defs: Some(DefSource { dir_prefix: "common/traits/more/", shape: DefShape::TopLevel }),
            refs: &[],
            aliases: &[],
        },
    ];
    Schema::new(
        &rows,
        &["prev", "root"],
        &[("scripted_trigger", KindId::new("scripted_trigger"))],
        &[],
        &[],
        &[("trait", KindId::new("trait")), ("ev", KindId::new("event"))],
        None,
        None,
        None,
    )
}

fn ks(v: Vec<KindId>) -> Vec<&'static str> {
    v.iter().map(|k| k.name()).collect()
}

#[test]
fn kinds_are_registered_once_in_first_seen_order() {
    let s = schema();
    let names: Vec<&str> = s.kinds().iter().map(|k| k.name()).collect();
    assert_eq!(names, vec!["trait", "event"]);
}

#[test]
fn the_first_matching_directory_wins() {
    let s = schema();
    assert_eq!(s.rule_for("common/traits/more/x.txt").map(|r| r.prefix), Some("common/traits/"));
    assert_eq!(s.rules_for("common/traits/more/x.txt").len(), 2);
    assert!(s.rule_for("gfx/x.txt").is_none());
}

#[test]
fn value_and_list_kinds_respect_form_and_gate() {
    let s = schema();
    assert_eq!(ks(s.value_kinds("has_trait", "events/a.txt")), vec!["trait"]);
    assert_eq!(ks(s.value_kinds("trait", "events/a.txt")), vec!["trait"]);
    assert!(s.value_kinds("traits", "common/culture/x.txt").is_empty());
    assert_eq!(ks(s.list_value_kinds("traits", "common/culture/x.txt")), vec!["trait"]);
    assert!(s.list_value_kinds("traits", "events/a.txt").is_empty());
    assert_eq!(ks(s.list_value_kinds("random_events", "events/a.txt")), vec!["event"]);
    assert_eq!(ks(s.scope_prefix_kinds("event", "events/a.txt")), vec!["event"]);
    assert!(s.scope_prefix_kinds("event", "common/a.txt").is_empty());
    assert!(s.key_rules("nothing").is_none());
    assert_eq!(s.key_rules("has_trait").map(|r| r.len()), Some(1));
}

#[test]
fn later_rows_override_the_icon() {
    let s = schema();
    assert!(matches!(s.icon(KindId::new("trait")), IconHint::Object));
    assert!(matches!(s.icon(KindId::new("event")), IconHint::Event));
    assert!(matches!(s.icon(KindId::new("unknown")), IconHint::Object));
}

#[test]
fn skip_words_cover_paths_chains_and_keywords() {
    let s = schema();
    for v in ["", "$X$", "a:b", "gfx/x.dds", "[GetX]", "@c", "prev", "root.primary_title"] {
        assert!(s.skip_ref_value(v), "{v}");
    }
    for v in ["brave", "prevx", "x.root"] {
        assert!(!s.skip_ref_value(v), "{v}");
    }
}

#[test]
fn aliases_and_doc_ref_aliases() {
    let s = schema();
    assert_eq!(s.alias_keys(KindId::new("trait")), Some(&["group", "group_equivalence"][..]));
    assert!(s.alias_keys(KindId::new("event")).is_none());
    assert_eq!(s.kind_by_alias("ev").map(|k| k.name()), Some("event"));
    assert!(s.kind_by_alias("nope").is_none());
    assert_eq!(s.typed_def_kind("scripted_trigger").map(|k| k.name()), Some("scripted_trigger"));
    assert!(s.call_kinds().is_none());
    assert!(s.gui_kinds().is_none());
    assert!(s.loc_concept_kind().is_none());
}
