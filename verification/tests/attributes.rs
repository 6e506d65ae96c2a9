use css_lens::duplicates::diagnostics_for_duplicate_classes;
use css_lens::html::{html_selector_refs, selector_refs, SelectorRef};
use css_lens::pattern::Patterns;
use css_lens::protocol::Severity;

fn patterns() -> Patterns {
    Patterns::new().unwrap()
}

fn names(refs: &[SelectorRef]) -> Vec<&str> {
    refs.iter().map(|r| r.name.as_str()).collect()
}

#[test]
fn single_line_class_attr() {
    let html = r#"<div class="foo bar baz"></div>"#;
    let refs = html_selector_refs(&patterns(), html);
    assert_eq!(names(&refs), ["foo", "bar", "baz"]);
}

#[test]
fn multi_line_class_attr() {
    let html = "<div class=\"foo\n  bar baz\">";
    let refs = html_selector_refs(&patterns(), html);
    assert_eq!(names(&refs), ["foo", "bar", "baz"]);
}

#[test]
fn multi_line_class_attr_three_lines() {
    let html = "<div class=\"foo\n  bar\n  baz\">";
    let refs = html_selector_refs(&patterns(), html);
    assert_eq!(names(&refs), ["foo", "bar", "baz"]);
}

#[test]
fn multi_line_then_new_attr_on_same_line() {
    let html = "<div class=\"foo\n  bar\"> <span class=\"qux\">";
    let refs = html_selector_refs(&patterns(), html);
    assert_eq!(names(&refs), ["foo", "bar", "qux"]);
}

#[test]
fn continuation_line_numbers() {
    let html = "<div class=\"foo\n  bar\">";
    let refs = html_selector_refs(&patterns(), html);
    assert_eq!(refs[0].line, 0); // foo on line 0
    assert_eq!(refs[1].line, 1); // bar on line 1
}

#[test]
fn unclosed_attr_does_not_bleed_into_next_tag() {
    // The class attribute on line 0 has no closing quote.
    // Line 1 is a completely separate element: its class should not be
    // contaminated by the continuation of line 0's attribute.
    let html = "<div class=\"btn\n<p class=\"card\">";
    let refs = html_selector_refs(&patterns(), html);
    // 'btn' is valid; 'card' must be found independently on line 1.
    // '<p class=' must NOT appear as a class name token.
    assert!(refs.iter().all(|r| !r.name.contains('<')));
    assert!(refs.iter().all(|r| !r.name.contains('=')));
    assert!(refs.iter().any(|r| r.name == "card" && r.line == 1));
}

#[test]
fn unclosed_attr_same_line_stops_at_tag_boundary() {
    // If a quote appears inside a following attribute on the same line,
    // e.g. class="foo onclick="handler", only 'foo' should be collected.
    let html = r#"<div class="foo <span class="bar">"#;
    let refs = html_selector_refs(&patterns(), html);
    let names: Vec<&str> = refs.iter().map(|r| r.name.as_str()).collect();
    // 'foo' is in the class attribute up to '<'; '<span' should not be a class
    assert!(!names.iter().any(|n| n.contains('<')));
}

#[test]
fn unclosed_attr_stops_at_the_next_attribute() {
    let p = patterns();
    let refs = html_selector_refs(&p, r#"<div class="foo onclick="handler">"#);
    assert_eq!(names(&refs), ["foo"]);
    let refs = html_selector_refs(&p, r#"<div id='top data-x = 'y'>"#);
    assert_eq!(names(&refs), ["top"]);
    assert!(diagnostics_for_duplicate_classes(&p, r#"<p class="a b onclick="a">"#).is_empty());
}

#[test]
fn closed_values_keep_names_that_end_with_an_equals_sign() {
    let p = patterns();
    let all = |html: &str| -> Vec<String> {
        html_selector_refs(&p, html).into_iter().map(|r| r.name).collect()
    };
    assert_eq!(all(r#"<i class="x=">"#), ["x="]);
    assert_eq!(all(r#"<i class="a x=" title="t">"#), ["a", "x="]);
    assert_eq!(all(r#"<i class="a x="/>"#), ["a", "x="]);
    assert_eq!(all(r#"<i class="a x="title="t">"#), ["a", "x="]);
    assert_eq!(all("<i class='a\nx='"), ["a", "x="]);
    assert_eq!(all(r#"<i class="a href="/x">"#), ["a"]);
    assert_eq!(all("<i class=\"a\n b onclick=\"c\">"), ["a", "b"]);
    let diags = diagnostics_for_duplicate_classes(&p, r#"<i class="x= x=">"#);
    assert_eq!(diags.len(), 1);
    assert_eq!(diags[0].message, "class 'x=' is already listed in this attribute");
    assert_eq!((diags[0].range.start.character, diags[0].range.end.character), (13, 15));
}

#[test]
fn multi_line_attr_still_works_without_intervening_tag() {
    // Genuine multi-line class attribute (no '<' between open and close).
    let html = "<div class=\"foo\n  bar baz\">";
    let refs = html_selector_refs(&patterns(), html);
    assert_eq!(names(&refs), ["foo", "bar", "baz"]);
}

#[test]
fn columns_are_byte_offsets_of_the_names() {
    let html = "é <p id='hero'\n class=\"a\té\">";
    let refs = html_selector_refs(&patterns(), html);
    assert_eq!(names(&refs), ["hero", "a", "é"]);
    assert!(refs[0].is_id);
    assert_eq!((refs[0].line, refs[0].col_start, refs[0].col_end), (0, 10, 14));
    assert!(!refs[1].is_id);
    assert_eq!((refs[1].line, refs[1].col_start, refs[1].col_end), (1, 8, 9));
    assert_eq!((refs[2].line, refs[2].col_start, refs[2].col_end), (1, 10, 12));
}

#[test]
fn class_values_come_before_id_values_of_a_line() {
    let html = "<p id=\"x\" class=\"y\">";
    let refs = html_selector_refs(&patterns(), html);
    assert_eq!(names(&refs), ["y", "x"]);
}

#[test]
fn references_from_given_matches() {
    let lines = vec!["class=\"a b".to_string(), "c\" x".to_string()];
    let classes = vec![vec![vec![Some((0, 7)), Some((6, 7))]], vec![]];
    let ids = vec![vec![], vec![]];
    let refs = selector_refs(&lines, &classes, &ids);
    assert_eq!(names(&refs), ["a", "b", "c"]);
    assert_eq!((refs[2].line, refs[2].col_start, refs[2].col_end), (1, 0, 1));
}

#[test]
fn repeated_class_is_flagged_at_the_repetition() {
    let diags = diagnostics_for_duplicate_classes(&patterns(), "<p class=\"btn card btn\">");
    assert_eq!(diags.len(), 1);
    assert_eq!(diags[0].message, "class 'btn' is already listed in this attribute");
    assert_eq!(diags[0].severity, Some(Severity::Warning));
    assert_eq!(diags[0].source, Some("css-lens".to_string()));
    assert_eq!(diags[0].range.start.character, 19);
    assert_eq!(diags[0].range.end.character, 22);
}

#[test]
fn repetition_over_several_lines_is_flagged() {
    let html = "<p class=\"a\n  b a\n a\"> <p class='a'>";
    let diags = diagnostics_for_duplicate_classes(&patterns(), html);
    assert_eq!(diags.len(), 2);
    assert_eq!((diags[0].range.start.line, diags[0].range.start.character), (1, 4));
    assert_eq!((diags[1].range.start.line, diags[1].range.start.character), (2, 1));
}

#[test]
fn attributes_behind_a_tag_boundary_are_checked() {
    let html = "<p class=\"a\n<p class=\"b b\">";
    let diags = diagnostics_for_duplicate_classes(&patterns(), html);
    assert_eq!(diags.len(), 1);
    assert_eq!(diags[0].range.start.line, 1);
    assert_eq!(diags[0].message, "class 'b' is already listed in this attribute");
}

#[test]
fn different_attributes_do_not_repeat_each_other() {
    let html = "<p class=\"a\"><p class=\"a\">";
    assert!(diagnostics_for_duplicate_classes(&patterns(), html).is_empty());
}
