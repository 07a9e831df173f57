use pdxl::context::{
    block, context_at, context_of_chain, context_of_chain_rooted, resolve_key, scalar, ClauseKind,
    ContextSchema, Fallback, FieldSpec, ScalarKind, StructSpec,
};
use pdxl::node::{Node, NodeId, NodeKind, Operator, SyntaxTree, TextRange};

fn leak<X>(x: X) -> &'static X {
    Box::leak(Box::new(x))
}

fn leak_slice<X>(v: Vec<X>) -> &'static [X] {
    Box::leak(v.into_boxed_slice())
}

fn holding() -> &'static StructSpec {
    leak(StructSpec {
        name: "holding type",
        fields: leak_slice(vec![
            ("primary_building", scalar(ScalarKind::Setting)),
            ("can_be_inherited", scalar(ScalarKind::Setting).doc("Whether it can be inherited.")),
            ("parameters", block(ClauseKind::Config)),
            ("limit_block", block(ClauseKind::Trigger)),
        ]),
        fallback: Fallback::Deny,
    })
}

fn schema() -> ContextSchema {
    let create: &'static StructSpec = leak(StructSpec { name: "create", fields: &[], fallback: Fallback::Ignore });
    ContextSchema {
        roots: leak_slice(vec![
            ("common/holdings/", ClauseKind::Struct(holding())),
            ("events/", ClauseKind::Effect),
            ("common/scripted_triggers/", ClauseKind::Trigger),
        ]),
        effect_structs: leak_slice(vec![("create_character", create)]),
    }
}

#[test]
fn effect_context_flips_to_triggers_under_limit() {
    assert_eq!(resolve_key(ClauseKind::Effect, "limit", true), ClauseKind::Trigger);
    assert_eq!(resolve_key(ClauseKind::Effect, "if", true), ClauseKind::Effect);
    assert_eq!(resolve_key(ClauseKind::ScriptValue, "limit", true), ClauseKind::Trigger);
    assert_eq!(resolve_key(ClauseKind::DynamicDesc, "trigger", true), ClauseKind::Trigger);
    assert_eq!(resolve_key(ClauseKind::ScriptedModifier, "modifier", true), ClauseKind::Trigger);
    assert_eq!(resolve_key(ClauseKind::ScriptedModifier, "add", false), ClauseKind::ScriptedModifier);
    assert_eq!(resolve_key(ClauseKind::StaticModifier, "x", true), ClauseKind::Config);
}

#[test]
fn trigger_config_and_unknown_absorb() {
    for key in ["limit", "AND", "anything"] {
        assert_eq!(resolve_key(ClauseKind::Trigger, key, true), ClauseKind::Trigger);
        assert_eq!(resolve_key(ClauseKind::Config, key, false), ClauseKind::Config);
        assert_eq!(resolve_key(ClauseKind::Unknown, key, true), ClauseKind::Unknown);
    }
}

#[test]
fn struct_fields_pick_the_form_they_accept() {
    let h = ClauseKind::Struct(holding());
    assert_eq!(resolve_key(h, "primary_building", false), ClauseKind::Config);
    assert_eq!(resolve_key(h, "primary_building", true), ClauseKind::Unknown);
    assert_eq!(resolve_key(h, "limit_block", true), ClauseKind::Trigger);
    assert_eq!(resolve_key(h, "limit_block", false), ClauseKind::Unknown);
    assert_eq!(resolve_key(h, "nonsense", true), ClauseKind::Unknown);
    let spec: &FieldSpec = holding().field("can_be_inherited").unwrap();
    assert_eq!(spec.doc, Some("Whether it can be inherited."));
    assert!(holding().field("nope").is_none());
}

#[test]
fn chains_start_in_the_directory_body_kind() {
    let s = schema();
    let chain: Vec<&[u8]> = vec![b"my_event", b"immediate", b"limit"];
    assert_eq!(context_of_chain(&chain, "events/a.txt", &s), ClauseKind::Trigger);
    let chain: Vec<&[u8]> = vec![b"my_event"];
    assert_eq!(context_of_chain(&chain, "events/a.txt", &s), ClauseKind::Effect);
    assert_eq!(context_of_chain(&[], "events/a.txt", &s), ClauseKind::Config);
    assert_eq!(context_of_chain(&chain, "gfx/a.txt", &s), ClauseKind::Unknown);
    let chain: Vec<&[u8]> = vec![b"e", b"create_character", b"x"];
    assert_eq!(context_of_chain(&chain, "events/a.txt", &s), ClauseKind::Config);
    let chain: Vec<&[u8]> = vec![b"t", b"x"];
    assert_eq!(
        context_of_chain_rooted(&chain, Some(ClauseKind::ScriptValue), "gfx/a.txt", &s),
        ClauseKind::ScriptValue
    );
}

fn node(kind: NodeKind, start: u32, end: u32, child_start: u32, child_end: u32) -> Node {
    Node { kind, range: TextRange { start, end }, operator: Operator::Invalid, child_start, child_end }
}

/// `ev = { limit = { x = y } }`
fn event_tree() -> SyntaxTree {
    let src = b"ev = { limit = { x = y } }".to_vec();
    let nodes = vec![
        node(NodeKind::File, 0, 26, 0, 1),
        node(NodeKind::Field, 0, 26, 1, 3),
        node(NodeKind::Scalar, 0, 2, 0, 0),
        node(NodeKind::Block, 5, 26, 3, 4),
        node(NodeKind::Field, 7, 24, 4, 6),
        node(NodeKind::Scalar, 7, 12, 0, 0),
        node(NodeKind::Block, 15, 24, 6, 7),
        node(NodeKind::Field, 17, 22, 7, 9),
        node(NodeKind::Scalar, 17, 18, 0, 0),
        node(NodeKind::Scalar, 21, 22, 0, 0),
    ];
    let ids = [1u32, 2, 3, 4, 5, 6, 7, 8, 9].iter().map(|&i| NodeId::new(i)).collect();
    let t = SyntaxTree::from_parts(src, nodes, ids);
    assert!(t.validate());
    t
}

#[test]
fn context_at_walks_from_the_root() {
    let t = event_tree();
    let s = schema();
    assert_eq!(context_at(&t, NodeId::new(7), "events/a.txt", &s), ClauseKind::Trigger);
    assert_eq!(context_at(&t, NodeId::new(4), "events/a.txt", &s), ClauseKind::Effect);
    assert_eq!(context_at(&t, NodeId::new(5), "events/a.txt", &s), ClauseKind::Effect);
    assert_eq!(context_at(&t, NodeId::new(6), "events/a.txt", &s), ClauseKind::Trigger);
    assert_eq!(context_at(&t, NodeId::new(3), "events/a.txt", &s), ClauseKind::Effect);
    assert_eq!(context_at(&t, NodeId::new(2), "events/a.txt", &s), ClauseKind::Config);
    assert_eq!(context_at(&t, NodeId::new(0), "events/a.txt", &s), ClauseKind::Config);
    assert_eq!(context_at(&t, NodeId::new(7), "gfx/a.txt", &s), ClauseKind::Unknown);
    assert_eq!(context_at(&t, NodeId::new(7), "common/scripted_triggers/a.txt", &s), ClauseKind::Trigger);
}
