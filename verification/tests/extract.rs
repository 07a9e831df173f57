use pdxl::extract::{extract_calls, extract_facts};
use pdxl::kind::{CallKinds, KindId};
use pdxl::model::CallTargets;
use pdxl::node::{Node, NodeId, NodeKind, Operator, SyntaxTree, TextRange};
use pdxl::schema::{DefShape, DefSource, IconHint, KindSpec, RefPattern, RefRule, Schema};

/// A script fragment to lay out as source text and a flat tree.
enum T {
    S(&'static str),
    F(&'static str, Box<T>),
    B(Vec<T>),
}

fn s(text: &'static str) -> T {
    T::S(text)
}

fn f(key: &'static str, value: T) -> T {
    T::F(key, Box::new(value))
}

fn b(items: Vec<T>) -> T {
    T::B(items)
}

struct Builder {
    src: Vec<u8>,
    nodes: Vec<Node>,
    child_ids: Vec<NodeId>,
}

impl Builder {
    fn node(&mut self, kind: NodeKind, start: u32) -> usize {
        self.nodes.push(Node {
            kind,
            range: TextRange { start, end: start },
            operator: Operator::Invalid,
            child_start: 0,
            child_end: 0,
        });
        self.nodes.len() - 1
    }

    fn finish(&mut self, id: usize, kids: Vec<u32>) {
        self.nodes[id].range.end = self.src.len() as u32;
        self.nodes[id].child_start = self.child_ids.len() as u32;
        for k in kids {
            self.child_ids.push(NodeId::new(k));
        }
        self.nodes[id].child_end = self.child_ids.len() as u32;
    }

    fn emit(&mut self, t: &T) -> u32 {
        let start = self.src.len() as u32;
        match t {
            T::S(text) => {
                let id = self.node(NodeKind::Scalar, start);
                self.src.extend_from_slice(text.as_bytes());
                self.finish(id, vec![]);
                id as u32
            }
            T::F(key, value) => {
                let id = self.node(NodeKind::Field, start);
                let k = self.emit(&T::S(key));
                self.src.extend_from_slice(b" = ");
                let v = self.emit(value);
                self.finish(id, vec![k, v]);
                id as u32
            }
            T::B(items) => {
                let id = self.node(NodeKind::Block, start);
                self.src.extend_from_slice(b"{ ");
                let mut kids = Vec::new();
                for it in items {
                    kids.push(self.emit(it));
                    self.src.push(b' ');
                }
                self.src.push(b'}');
                self.finish(id, kids);
                id as u32
            }
        }
    }
}

fn tree(items: Vec<T>) -> SyntaxTree {
    let mut bld = Builder { src: Vec::new(), nodes: Vec::new(), child_ids: Vec::new() };
    let root = bld.node(NodeKind::File, 0);
    let mut kids = Vec::new();
    for it in &items {
        kids.push(bld.emit(it));
        bld.src.push(b'\n');
    }
    bld.finish(root, kids);
    let t = SyntaxTree::from_parts(bld.src, bld.nodes, bld.child_ids);
    assert!(t.validate());
    t
}

fn leak<X>(v: Vec<X>) -> &'static [X] {
    Box::leak(v.into_boxed_slice())
}

fn schema() -> Schema {
    let rows = vec![
        KindSpec {
            kind: KindId::new("trait"),
            icon: IconHint::Tag,
            defs: Some(DefSource { dir_prefix: "common/traits/", shape: DefShape::TopLevel }),
            refs: leak(vec![RefRule { pattern: RefPattern::KeyValue("has_trait"), gate: None, alt: &[] }]),
            aliases: leak(vec!["group"]),
        },
        KindSpec {
            kind: KindId::new("title"),
            icon: IconHint::Hierarchy,
            defs: None,
            refs: leak(vec![RefRule { pattern: RefPattern::ScopePrefix("title"), gate: None, alt: &[] }]),
            aliases: &[],
        },
        KindSpec {
            kind: KindId::new("building"),
            icon: IconHint::Object,
            defs: None,
            refs: leak(vec![RefRule { pattern: RefPattern::KeyList("buildings"), gate: None, alt: &[] }]),
            aliases: &[],
        },
    ];
    Schema::new(
        &rows,
        &["none", "root"],
        &[("scripted_effect", KindId::new("scripted_effect"))],
        &[("namespace", KindId::new("namespace"))],
        &[("coa_template", KindId::new("coa"))],
        &[],
        None,
        None,
        None,
    )
}

fn names(v: &[pdxl::model::Symbol]) -> Vec<(&str, &str)> {
    v.iter().map(|s| (s.name.as_str(), s.kind.name())).collect()
}

#[test]
fn top_level_definitions_carry_their_parameters_and_aliases() {
    let t = tree(vec![
        f("brave", b(vec![f("group", s("bold")), f("cost", s("$COST$")), f("x", s("$AMOUNT$"))])),
        f("craven", s("yes")),
    ]);
    let facts = extract_facts(&t, "common/traits/a.txt", "/mod/common/traits/a.txt", &schema(), None);
    assert_eq!(names(&facts.defs), vec![("brave", "trait")]);
    let brave = &facts.defs[0];
    assert_eq!((brave.offset, brave.end_offset), (0, 5));
    assert_eq!(brave.file, "common/traits/a.txt");
    assert_eq!(brave.params, vec!["AMOUNT".to_string(), "COST".to_string()]);
    assert_eq!(names(&facts.aliases), vec![("bold", "trait")]);
}

#[test]
fn definitions_need_a_matching_directory() {
    let t = tree(vec![f("brave", b(vec![]))]);
    let facts = extract_facts(&t, "events/a.txt", "/mod/events/a.txt", &schema(), None);
    assert!(facts.defs.is_empty());
}

#[test]
fn references_skip_keywords_and_report_the_full_path() {
    let t = tree(vec![f(
        "my_event",
        b(vec![
            f("has_trait", s("brave")),
            f("has_trait", s("root")),
            f("has_trait", s("\"bold\"")),
            f("buildings", b(vec![s("castle_01"), s("$B$")])),
            f("limit", s("title:k_france.holder")),
        ]),
    )]);
    let facts = extract_facts(&t, "events/a.txt", "/mod/events/a.txt", &schema(), None);
    let refs: Vec<(&str, &str)> = facts.refs.iter().map(|r| (r.name.as_str(), r.kind.name())).collect();
    assert_eq!(
        refs,
        vec![("brave", "trait"), ("bold", "trait"), ("castle_01", "building"), ("k_france", "title")]
    );
    assert!(facts.refs.iter().all(|r| r.file == "/mod/events/a.txt"));
    let france = &facts.refs[3];
    let text = &t.source()[france.start as usize..france.end as usize];
    assert_eq!(text, b"k_france");
}

#[test]
fn script_constants_are_defined_and_referenced_file_locally() {
    let t = tree(vec![
        f("@cost", s("100")),
        f("x", b(vec![f("amount", s("@cost")), f("other", s("@missing")), f("math", s("@[cost * 2]"))])),
    ]);
    let facts = extract_facts(&t, "common/traits/a.txt", "/p/a.txt", &schema(), None);
    assert_eq!(names(&facts.constants), vec![("@cost", "script_constant")]);
    let crefs: Vec<&str> = facts.constant_refs.iter().map(|r| r.name.as_str()).collect();
    assert_eq!(crefs, vec!["@cost", "@missing"]);
    assert!(facts.refs.is_empty());
    assert_eq!(names(&facts.defs), vec![("x", "trait")]);
}

#[test]
fn typed_and_keyed_value_definitions() {
    let t = tree(vec![
        f("namespace", s("my_ns")),
        s("scripted_effect"),
        f("do_thing", b(vec![])),
        f("holder", b(vec![f("coa_template", s("\"lion\""))])),
    ]);
    let facts = extract_facts(&t, "events/a.txt", "/p/a.txt", &schema(), None);
    assert_eq!(
        names(&facts.defs),
        vec![("my_ns", "namespace"), ("do_thing", "scripted_effect"), ("lion", "coa")]
    );
}

#[test]
fn calls_are_matched_below_the_top_level() {
    let t = tree(vec![
        f("my_effect", b(vec![])),
        f("e", b(vec![f("my_effect", s("yes")), f("add_gold", s("my_value")), f("other", s("x"))])),
    ]);
    let targets = CallTargets {
        effects: vec!["my_effect".to_string()],
        triggers: vec![],
        script_values: vec!["my_value".to_string()],
        kinds: CallKinds {
            effect: KindId::new("scripted_effect"),
            trigger: KindId::new("scripted_trigger"),
            value: KindId::new("script_value"),
        },
    };
    let calls = extract_calls(&t, "/p/a.txt", &targets);
    let got: Vec<(&str, &str)> = calls.iter().map(|r| (r.name.as_str(), r.kind.name())).collect();
    assert_eq!(got, vec![("my_effect", "scripted_effect"), ("my_value", "script_value")]);
    let facts = extract_facts(&t, "events/a.txt", "/p/a.txt", &schema(), Some(&targets));
    assert_eq!(facts.calls.len(), 2);
}
