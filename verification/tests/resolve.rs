use pdxl::kind::{doc_anchor, KindId};
use pdxl::model::{FileFacts, Ref, Symbol};
use pdxl::resolve::{merge_and_resolve, resolve_refs, unknown_msg, Severity};
use pdxl::table::SymbolTable;

fn sym(name: &str, kind: &'static str, file: &str) -> Symbol {
    Symbol {
        name: name.to_string(),
        kind: KindId::new(kind),
        file: file.to_string(),
        offset: 0,
        end_offset: name.len() as u32,
        params: Vec::new(),
    }
}

fn reference(name: &str, kind: KindId, alt: &'static [KindId], file: &str, start: u32) -> Ref {
    Ref {
        kind,
        alt,
        name: name.to_string(),
        file: file.to_string(),
        start,
        end: start + name.len() as u32,
    }
}

#[test]
fn the_unknown_message_quotes_the_name() {
    assert_eq!(unknown_msg(KindId::new("trait"), "brav\"e"), "unknown trait \"brav\\\"e\"");
}

#[test]
fn unresolved_references_are_reported_in_order() {
    let mut t = SymbolTable::new();
    t.add(sym("brave", "trait", "a.txt"));
    let r1 = reference("brave", KindId::new("trait"), &[], "e.txt", 3);
    let r2 = reference("craven", KindId::new("trait"), &[], "e.txt", 20);
    let r3 = reference("gone", doc_anchor(), &[], "f.txt", 7);
    let diags = resolve_refs(&t, &[&r1, &r2, &r3]);
    assert_eq!(diags.len(), 2);
    assert_eq!(diags[0].file, "e.txt");
    assert_eq!((diags[0].start, diags[0].end), (20, 26));
    assert_eq!(diags[0].msg, "unknown trait \"craven\"");
    assert_eq!(diags[0].severity, Severity::Error);
    assert_eq!(diags[1].severity, Severity::Warning);
}

#[test]
fn an_alternate_kind_resolves_a_reference() {
    let mut t = SymbolTable::new();
    t.add(sym("x", "event", "a.txt"));
    let alts: &'static [KindId] = Box::leak(vec![KindId::new("event")].into_boxed_slice());
    let r = reference("x", KindId::new("decision"), alts, "e.txt", 0);
    assert!(resolve_refs(&t, &[&r]).is_empty());
}

#[test]
fn merge_registers_in_walk_order_and_checks_constants_per_file() {
    let mut a = FileFacts::empty();
    a.defs.push(sym("brave", "trait", "a.txt"));
    a.refs.push(reference("bold", KindId::new("trait"), &[], "a.txt", 1));
    a.constants.push(sym("@x", "script_constant", "a.txt"));
    a.constant_refs.push(reference("@x", KindId::new("script_constant"), &[], "a.txt", 4));
    a.constant_refs.push(reference("@y", KindId::new("script_constant"), &[], "a.txt", 9));
    let mut b = FileFacts::empty();
    b.defs.push(sym("brave", "trait", "b.txt"));
    b.aliases.push(sym("bold", "trait", "b.txt"));
    let facts = vec![("a.txt".to_string(), a), ("b.txt".to_string(), b)];
    let (table, diags) = merge_and_resolve(&["b.txt", "a.txt"], &facts);
    assert_eq!(table.lookup(KindId::new("trait"), "brave").unwrap().file, "b.txt");
    assert_eq!(table.duplicates.len(), 1);
    let d = &table.duplicates[0];
    assert_eq!((d.kind.name(), d.name.as_str(), d.file.as_str()), ("trait", "brave", "a.txt"));
    assert_eq!(d.first.file, "b.txt");
    assert_eq!(diags.len(), 1);
    assert_eq!(diags[0].msg, "unknown script_constant \"@y\"");
    assert_eq!(diags[0].start, 9);
}

#[test]
fn files_missing_from_the_order_are_ignored() {
    let mut a = FileFacts::empty();
    a.refs.push(reference("nothing", KindId::new("trait"), &[], "a.txt", 0));
    let facts = vec![("a.txt".to_string(), a)];
    let (table, diags) = merge_and_resolve(&[], &facts);
    assert_eq!(table.total(), 0);
    assert!(diags.is_empty());
}
