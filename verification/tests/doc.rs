use pdxl::doc::{doc_anchor_span, doc_ref_spans};

/// Parses `src` as a single doc comment, returning the anchor key text.
fn anchor(src: &str) -> Option<&str> {
    let b = src.as_bytes();
    let (s, e) = doc_anchor_span(b, 0, b.len() as u32)?;
    Some(&src[s as usize..e as usize])
}

#[test]
fn anchor_key_runs_to_the_first_byte_it_cannot_use() {
    assert_eq!(
        anchor("#! @todo:rebalance_piety rework the piety curve"),
        Some("todo:rebalance_piety")
    );
    assert_eq!(anchor("#! @regency.system"), Some("regency.system"));
    assert_eq!(anchor("#!@tight"), Some("tight"));
    assert_eq!(anchor("#!\t@tabbed desc"), Some("tabbed"));
}

#[test]
fn a_declaration_needs_a_leading_at_and_a_non_empty_key() {
    assert_eq!(anchor("#! @"), None);
    assert_eq!(anchor("#! @ spaced"), None);
    assert_eq!(anchor("#! ordinary prose"), None);
    assert_eq!(anchor("#!"), None);
}

#[test]
fn prose_mentioning_a_script_constant_declares_nothing() {
    assert_eq!(anchor("#! Scales with @rich_threshold and @gold_bonus."), None);
    assert_eq!(anchor("#! Created by: [@unlomtrois](https://example)"), None);
    assert_eq!(anchor("#! ask mail@example.com"), None);
}

#[test]
fn a_declaration_line_still_carries_its_doc_refs() {
    let src = "#! @todo:x see ![brave]";
    assert_eq!(anchor(src), Some("todo:x"));
    let mut spans = Vec::new();
    doc_ref_spans(src.as_bytes(), 0, src.len() as u32, &mut spans);
    let names: Vec<&str> = spans
        .iter()
        .map(|&(s, e)| &src[s as usize..e as usize])
        .collect();
    assert_eq!(names, vec!["brave"]);
}

#[test]
fn anchor_span_is_relative_to_the_whole_source() {
    let src = "a = b\n#! @key rest";
    let start = 6u32;
    let span = doc_anchor_span(src.as_bytes(), start, src.len() as u32);
    assert_eq!(span, Some((10, 13)));
}

#[test]
fn empty_and_unclosed_doc_refs_are_skipped() {
    let src = "#! ![] and ![open and ![ok]";
    let mut spans = Vec::new();
    doc_ref_spans(src.as_bytes(), 0, src.len() as u32, &mut spans);
    let names: Vec<&str> = spans
        .iter()
        .map(|&(s, e)| &src[s as usize..e as usize])
        .collect();
    assert_eq!(names, vec!["open and ![ok"]);
}

#[test]
fn doc_ref_spans_append_to_what_is_there() {
    let src = "#! ![a] ![b]";
    let mut spans = vec![(0u32, 0u32)];
    doc_ref_spans(src.as_bytes(), 0, src.len() as u32, &mut spans);
    assert_eq!(spans, vec![(0, 0), (5, 6), (10, 11)]);
}
