use css_lens::actions::{
    code_action_handler, create_rule, css_files, css_target, edit_out_rule, extract_quoted,
    find_target_css_file, unused_blocks, CssTarget,
};
use css_lens::css::parse_css_content;
use css_lens::model::{ClassMap, DocumentMap};
use css_lens::naming::is_named_throughout;
use css_lens::pattern::Patterns;
use css_lens::protocol::{Diagnostic, Position, Range, Severity};
use css_lens::rename::{
    css_selector_at_cursor, defining_files, edit_selectors, rename_edits, rename_target,
    INVALID_PARAMS,
};
use css_lens::table::Table;

const PAGE: &str = "file:///p/i.html";

fn patterns() -> Patterns {
    Patterns::new().unwrap()
}

fn at(line: u32, character: u32) -> Position {
    Position { line, character }
}

fn map_of(css: &str) -> ClassMap {
    let mut map = ClassMap::new();
    parse_css_content(&patterns(), css, 0, "a.css", "/p/a.css", &mut map);
    map
}

fn documents(uri: &str, text: &str) -> DocumentMap {
    let mut d: DocumentMap = Table::new();
    d.insert(uri.to_string(), text.to_string());
    d
}

fn diag(severity: Severity, line: u32, message: &str) -> Diagnostic {
    Diagnostic {
        range: Range { start: at(line, 0), end: at(line, 0) },
        severity: Some(severity),
        source: Some("css-lens".to_string()),
        message: message.to_string(),
    }
}

#[test]
fn a_bad_new_name_is_refused() {
    let docs = documents(PAGE, "<p class=\"btn\">");
    let refused = rename_target(&patterns(), PAGE, at(0, 11), "2col", &map_of(""), &docs);
    let error = refused.unwrap_err();
    assert_eq!(error.code, INVALID_PARAMS);
    assert_eq!(error.code, -32602);
    assert_eq!(error.message, "'2col' is not a valid CSS identifier");
}

#[test]
fn the_name_to_rename_is_found() {
    let p = patterns();
    let css = ".btn { x: y }\n#hero { x: y }";
    let map = map_of(css);
    let mut docs = documents(PAGE, "<p class=\"btn\" id='hero'>");
    docs.insert("file:///p/a.css".to_string(), css.to_string());
    let key = |uri: &str, pos: Position| rename_target(&p, uri, pos, "new", &map, &docs).unwrap();
    assert_eq!(key(PAGE, at(0, 11)), Some("btn".to_string()));
    assert_eq!(key(PAGE, at(0, 20)), Some("#hero".to_string()));
    assert_eq!(key(PAGE, at(0, 1)), None);
    assert_eq!(key("file:///p/a.css", at(0, 2)), Some("btn".to_string()));
    assert_eq!(key("file:///p/a.css", at(1, 2)), Some("#hero".to_string()));
    assert_eq!(key("file:///p/a.css", at(0, 7)), None);
    assert_eq!(key("file:///none", at(0, 2)), None);
    assert_eq!(css_selector_at_cursor(PAGE, css, at(0, 2), &map), None);
}

fn replaced(css: &str, line: u32) -> Vec<Range> {
    let edits = edit_selectors(css, line, ".btn", ".b");
    assert!(edits.iter().all(|e| e.new_text == ".b"));
    edits.into_iter().map(|e| e.range).collect()
}

fn span(line: u32, from: u32, to: u32) -> Range {
    Range { start: at(line, from), end: at(line, to) }
}

#[test]
fn selectors_are_replaced_as_whole_names() {
    assert_eq!(replaced("é .btn, .btn-primary { }", 0), [span(0, 3, 7)]);
    assert_eq!(replaced(".btn-primary, .btn { color: red; }", 0), [span(0, 14, 18)]);
    assert_eq!(replaced(".btn, .btn:hover { x: y }", 0), [span(0, 0, 4), span(0, 6, 10)]);
    assert_eq!(replaced(".btn-primary { }", 0), []);
    assert_eq!(replaced("a { } .btn", 0), []);
    assert_eq!(replaced(".btn { }", 1), []);
    assert_eq!(replaced("\n.btn{}", 1), [span(1, 0, 4)]);
}

#[test]
fn selectors_are_replaced_up_to_the_brace() {
    assert_eq!(replaced(".a,\n.btn {\n}", 0), [span(1, 0, 4)]);
    assert_eq!(replaced(".a { x: url(i.btn) } .btn { }", 0), [span(0, 21, 25)]);
    assert_eq!(replaced(".a /* .btn */ .btn { }", 0), [span(0, 14, 18)]);
    assert_eq!(replaced("@media x { .btn { } }", 0), [span(0, 11, 15)]);
    assert_eq!(replaced(".a { }\n.btn { }", 0), []);
}

#[test]
fn a_definition_behind_a_longer_name_is_renamed() {
    let p = patterns();
    let css = ".btn-primary, .btn { color: red; }";
    let map = map_of(css);
    let sources = documents("/p/a.css", css);
    let changes = rename_edits(&p, "btn", "cta", &map, &sources, &None);
    let edits = changes.get("file:///p/a.css").unwrap();
    assert_eq!(edits.len(), 1);
    assert_eq!(edits[0].range, span(0, 14, 18));
    assert_eq!(edits[0].new_text, ".cta");
}

#[test]
fn each_line_is_renamed_once() {
    let p = patterns();
    let css = ".btn,\n.btn:hover { x: y }\n.btn { }";
    let map = map_of(css);
    assert_eq!(map.get("btn").unwrap().len(), 3);
    let changes = rename_edits(&p, "btn", "b", &map, &documents("/p/a.css", css), &None);
    let ranges: Vec<Range> =
        changes.get("file:///p/a.css").unwrap().iter().map(|e| e.range).collect();
    assert_eq!(ranges, [span(0, 0, 4), span(1, 0, 4), span(2, 0, 4)]);
}

#[test]
fn renaming_edits_definitions_and_uses() {
    let p = patterns();
    let css = ".btn { x: y }\n.btn-x { x: y }";
    let map = map_of(css);
    let sources = documents("/p/a.css", css);
    let files = documents(PAGE, "<p class=\"btn btn-x\">");
    let changes = rename_edits(&p, "btn", "b", &map, &sources, &Some(files));
    assert_eq!(changes.len(), 2);
    let in_css = changes.get("file:///p/a.css").unwrap();
    assert_eq!(in_css.len(), 1);
    assert_eq!(in_css[0].new_text, ".b");
    assert_eq!(in_css[0].range, Range { start: at(0, 0), end: at(0, 4) });
    let in_html = changes.get(PAGE).unwrap();
    assert_eq!(in_html.len(), 1);
    assert_eq!(in_html[0].new_text, "b");
    assert_eq!(in_html[0].range, Range { start: at(0, 10), end: at(0, 13) });
    let changes = rename_edits(&p, "btn", "b", &map, &Table::new(), &None);
    assert_eq!(changes.len(), 0);
    assert_eq!(defining_files("btn", &map), ["/p/a.css"]);
    assert!(defining_files("none", &map).is_empty());
}

#[test]
fn identifiers_are_renamed_with_their_mark() {
    let p = patterns();
    let css = "#hero { x: y }";
    let sources = documents("/p/a.css", css);
    let files = documents(PAGE, "<p id=\"hero\" class=\"hero\">");
    let changes = rename_edits(&p, "#hero", "top", &map_of(css), &sources, &Some(files));
    assert_eq!(changes.get("file:///p/a.css").unwrap()[0].new_text, "#top");
    assert_eq!(changes.get(PAGE).unwrap().len(), 1);
    assert_eq!(changes.get(PAGE).unwrap()[0].range.start.character, 7);
}

#[test]
fn the_first_quoted_text_is_extracted() {
    assert_eq!(extract_quoted("Unknown CSS class 'btn'"), Some("btn".to_string()));
    assert_eq!(extract_quoted("'a' and 'b'"), Some("a".to_string()));
    assert_eq!(extract_quoted("''"), None);
    assert_eq!(extract_quoted("'a"), None);
    assert_eq!(extract_quoted("a"), None);
}

#[test]
fn missing_rules_are_created() {
    let target = css_target("/p/a.css", Some(".x { }".to_string()));
    assert!(target.is_some());
    let diags = vec![
        diag(Severity::Error, 3, "Unknown CSS class 'btn'"),
        diag(Severity::Error, 3, "Unknown CSS id 'hero'"),
        diag(Severity::Error, 3, "Unknown CSS class 'a{}'"),
        diag(Severity::Warning, 3, "Unknown CSS class 'x'"),
    ];
    let actions = code_action_handler(&diags, &target, &map_of(""), &Table::new(), &Table::new());
    assert_eq!(actions.len(), 2);
    assert_eq!(actions[0].title, "Create CSS class .btn in a.css");
    assert_eq!(actions[0].diagnostic, Some(0));
    assert!(actions[0].preferred);
    assert_eq!(actions[0].uri, "file:///p/a.css");
    assert_eq!(actions[0].edit.range, Range { start: at(1, 0), end: at(1, 0) });
    assert_eq!(actions[0].edit.new_text, "\n.btn {\n  \n}\n");
    assert_eq!(actions[1].title, "Create CSS id #hero in a.css");
    assert_eq!(actions[1].diagnostic, Some(1));
    let none = code_action_handler(&diags, &None, &map_of(""), &Table::new(), &Table::new());
    assert!(none.is_empty());
    assert!(css_target("relative.css", None).is_none());
}

#[test]
fn a_new_rule_starts_on_its_own_line() {
    let target = CssTarget {
        uri: "file:///a.css".to_string(),
        file_name: "a.css".to_string(),
        content: ".x { }\n".to_string(),
    };
    let action = create_rule("y", false, &target, 0);
    assert_eq!(action.edit.new_text, ".y {\n  \n}\n");
    assert_eq!(action.edit.range.start.line, 1);
}

#[test]
fn a_foreign_diagnostic_is_left_alone() {
    let mut d = diag(Severity::Error, 0, "Unknown CSS class 'btn'");
    d.source = Some("other".to_string());
    let target = css_target("/p/a.css", None);
    let actions = code_action_handler(&vec![d], &target, &map_of(""), &Table::new(), &Table::new());
    assert!(actions.is_empty());
}

#[test]
fn unused_rules_are_removed_as_a_whole() {
    let css = ".a, .b {\n  x: y\n}\n.c { x: y }";
    let map = map_of(css);
    let hint = |line: u32, name: &str| {
        diag(Severity::Hint, line, &format!("'{name}' is not used in any open HTML file"))
    };
    let only_a = vec![hint(0, ".a")];
    assert!(unused_blocks(&only_a, &map).is_empty());
    let both = vec![hint(0, ".b"), hint(0, ".a")];
    let blocks = unused_blocks(&both, &map);
    assert_eq!(blocks.len(), 1);
    assert_eq!(blocks[0].path, "/p/a.css");
    assert_eq!(blocks[0].line, 0);
    assert_eq!(blocks[0].selector, ".a, .b");
    assert_eq!(blocks[0].selectors, [".a", ".b"]);
    let sources = documents("/p/a.css", css);
    let actions = code_action_handler(&both, &None, &map, &Table::new(), &sources);
    assert_eq!(actions.len(), 1);
    assert_eq!(actions[0].title, "Remove unused rule '.a, .b' from a.css");
    assert_eq!(actions[0].diagnostic, None);
    assert!(!actions[0].preferred);
    assert_eq!(actions[0].edit.new_text, "");
    assert_eq!(actions[0].edit.range, Range { start: at(0, 0), end: at(3, 0) });
    let last = vec![hint(3, ".c")];
    let actions = code_action_handler(&last, &None, &map, &Table::new(), &sources);
    assert_eq!(actions[0].edit.range, Range { start: at(3, 0), end: at(3, 11) });
    let unread = code_action_handler(&last, &None, &map, &Table::new(), &Table::new());
    assert!(unread.is_empty());
}

#[test]
fn the_open_document_counts_for_removal() {
    let css = "#a { x: y }";
    let map = map_of(css);
    let hints = vec![diag(Severity::Hint, 0, "'#a' is not used in any open HTML file")];
    let open = documents("file:///p/a.css", "#a {\n x: y\n}\n\n");
    let sources = documents("/p/a.css", css);
    let actions = code_action_handler(&hints, &None, &map, &open, &sources);
    assert_eq!(actions[0].edit.range, Range { start: at(0, 0), end: at(3, 0) });
}

#[test]
fn a_rule_that_cannot_be_delimited_stays() {
    assert!(edit_out_rule(".a {", 0, ".a").is_none());
    assert!(edit_out_rule("", 0, ".a").is_none());
    assert!(edit_out_rule(".a { }", 0, ".b").is_none());
    assert!(edit_out_rule(".a { }", 1, ".a").is_none());
}

#[test]
fn new_rules_go_to_the_nearest_style_sheet() {
    let list = |v: &[&str]| -> Vec<String> { v.iter().map(|s| s.to_string()).collect() };
    let files = list(&["/q/far.css", "/p/near.css", "/q/linked.css", "/p/both.css"]);
    let pick = |linked: &[&str]| find_target_css_file(&files, "/p", &list(linked));
    assert_eq!(pick(&["/q/linked.css", "/p/both.css"]), Some("/p/both.css".to_string()));
    assert_eq!(pick(&["/q/linked.css"]), Some("/q/linked.css".to_string()));
    assert_eq!(pick(&[]), Some("/p/near.css".to_string()));
    assert_eq!(find_target_css_file(&files, "/p/", &vec![]), Some("/p/near.css".to_string()));
    assert_eq!(find_target_css_file(&files, "/x", &vec![]), Some("/q/far.css".to_string()));
    assert_eq!(find_target_css_file(&vec![], "/x", &vec![]), None);
    assert_eq!(css_files(&map_of(".a { x: y } .b { x: y }")), ["/p/a.css"]);
}

fn removed(css: &str, line: u32, selector: &str) -> Range {
    let edit = edit_out_rule(css, line, selector).unwrap();
    assert_eq!(edit.new_text, "");
    edit.range
}

#[test]
fn a_removal_spares_what_stands_beside_the_rule() {
    let css = ".a {\n  color: red; } .live { color: blue; }\n";
    assert_eq!(removed(css, 0, ".a"), Range { start: at(0, 0), end: at(1, 15) });
    let css = ".live { x: y } .a { x: y }\n.b { }";
    assert_eq!(removed(css, 0, ".a"), span(0, 15, 26));
    assert_eq!(removed("@media x { .a { } }", 0, ".a"), span(0, 11, 17));
    assert_eq!(removed(".a { } /* kept */\n", 0, ".a"), span(0, 0, 6));
    assert_eq!(removed(".a { x: \"}\" }\n.b { }", 0, ".a"), Range { start: at(0, 0), end: at(1, 0) });
    assert_eq!(removed("  .a { } \n\n.b { }", 0, ".a"), Range { start: at(0, 0), end: at(1, 0) });
    assert_eq!(removed(".a {\r\n}\r\n", 0, ".a"), Range { start: at(0, 0), end: at(1, 1) });
    assert_eq!(removed(".a { } .b { }", 0, ".b"), span(0, 7, 13));
}

#[test]
fn rules_on_one_line_are_removed_apart() {
    let css = ".dead { x: y } .live { x: y }";
    let map = map_of(css);
    let hints = vec![diag(Severity::Hint, 0, "'.dead' is not used in any open HTML file")];
    let sources = documents("/p/a.css", css);
    let actions = code_action_handler(&hints, &None, &map, &Table::new(), &sources);
    assert_eq!(actions.len(), 1);
    assert_eq!(actions[0].title, "Remove unused rule '.dead' from a.css");
    assert_eq!(actions[0].edit.range, span(0, 0, 14));
}

#[test]
fn a_rule_for_other_elements_is_not_removed() {
    let hints = vec![diag(Severity::Hint, 0, "'.a' is not used in any open HTML file")];
    assert!(unused_blocks(&hints, &map_of(".a, p { x: y }")).is_empty());
    assert!(unused_blocks(&hints, &map_of("p:not(.a) { x: y }")).is_empty());
    assert_eq!(unused_blocks(&hints, &map_of("p.a { x: y }")).len(), 1);
    assert_eq!(unused_blocks(&hints, &map_of("p:is(.a, i.a) { x: y }")).len(), 1);
}

#[test]
fn selectors_are_named_throughout() {
    assert!(is_named_throughout(".a, ul > #b"));
    assert!(is_named_throughout(".a:is(p, i)"));
    assert!(is_named_throughout(".a[x=\"], p\"]"));
    assert!(!is_named_throughout(".a, p"));
    assert!(!is_named_throughout("p, .a"));
    assert!(is_named_throughout(":is(.a, .b)"));
    assert!(is_named_throughout("p:is(.a:hover, i > :where(#b, .c)), .d"));
    assert!(is_named_throughout(".a\\, p"));
    assert!(!is_named_throughout(":is(.a, p)"));
    assert!(!is_named_throughout(":is(.a, :where(.b, p))"));
    assert!(!is_named_throughout("p:NOT(.a)"));
    assert!(!is_named_throughout(":is(:not(.a))"));
    assert!(!is_named_throughout("(.a)"));
    assert!(!is_named_throughout(".a:is(p"));
    assert!(!is_named_throughout("[x='.a']"));
    assert!(!is_named_throughout(".5"));
    assert!(!is_named_throughout(""));
}
