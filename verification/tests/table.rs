use pdxl::kind::KindId;
use pdxl::model::Symbol;
use pdxl::table::SymbolTable;

fn sym(name: &str, kind: &'static str, file: &str, offset: u32) -> Symbol {
    Symbol {
        name: name.to_string(),
        kind: KindId::new(kind),
        file: file.to_string(),
        offset,
        end_offset: offset + name.len() as u32,
        params: Vec::new(),
    }
}

#[test]
fn first_definition_wins_and_later_ones_are_duplicates() {
    let mut t = SymbolTable::new();
    t.add(sym("brave", "trait", "a.txt", 0));
    t.add(sym("brave", "trait", "b.txt", 10));
    assert_eq!(t.count(KindId::new("trait")), 1);
    assert_eq!(t.lookup(KindId::new("trait"), "brave").unwrap().file, "a.txt");
    assert_eq!(t.duplicates.len(), 1);
    let d = &t.duplicates[0];
    assert_eq!(d.name, "brave");
    assert_eq!(d.file, "b.txt");
    assert_eq!(d.first.file, "a.txt");
    assert_eq!(d.kind.name(), "trait");
}

#[test]
fn kinds_are_separate_namespaces() {
    let mut t = SymbolTable::new();
    t.add(sym("x", "trait", "a.txt", 0));
    t.add(sym("x", "event", "a.txt", 5));
    assert_eq!(t.total(), 2);
    assert_eq!(t.count(KindId::new("trait")), 1);
    assert_eq!(t.count(KindId::new("event")), 1);
    assert_eq!(t.count(KindId::new("decision")), 0);
    assert!(t.duplicates.is_empty());
    assert!(t.lookup(KindId::new("decision"), "x").is_none());
}

#[test]
fn an_alias_fills_a_gap_but_never_overrides() {
    let mut t = SymbolTable::new();
    t.add(sym("brave", "trait", "a.txt", 0));
    t.add_alias(KindId::new("trait"), "brave", sym("brave_alias", "trait", "b.txt", 3));
    assert_eq!(t.lookup(KindId::new("trait"), "brave").unwrap().file, "a.txt");
    t.add_alias(KindId::new("trait"), "bold", sym("brave", "trait", "b.txt", 3));
    assert_eq!(t.lookup(KindId::new("trait"), "bold").unwrap().name, "brave");
    assert_eq!(t.count(KindId::new("trait")), 2);
    assert!(t.duplicates.is_empty());
}

#[test]
fn names_and_iteration_follow_registration_order() {
    let mut t = SymbolTable::new();
    t.add(sym("b", "trait", "a.txt", 0));
    t.add(sym("a", "trait", "a.txt", 1));
    t.add(sym("c", "event", "a.txt", 2));
    assert_eq!(t.names(KindId::new("trait")), vec!["b", "a"]);
    let all: Vec<&str> = t.iter().iter().map(|s| s.name.as_str()).collect();
    assert_eq!(all, vec!["b", "a", "c"]);
}

#[test]
fn total_is_the_sum_of_the_kind_counts() {
    let mut t = SymbolTable::new();
    assert_eq!(t.total(), 0);
    t.add(sym("a", "trait", "a.txt", 0));
    t.add(sym("b", "trait", "a.txt", 1));
    t.add(sym("a", "event", "a.txt", 2));
    t.add_alias(KindId::new("event"), "z", sym("a", "event", "a.txt", 2));
    t.add(sym("a", "trait", "b.txt", 3));
    let sum = t.count(KindId::new("trait")) + t.count(KindId::new("event"));
    assert_eq!(t.total(), sum);
    assert_eq!(t.iter().len(), t.total());
    assert_eq!(t.names(KindId::new("event")), vec!["a", "z"]);
}
