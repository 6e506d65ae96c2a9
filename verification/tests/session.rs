use css_lens::css::parse_css_content;
use css_lens::diagnostics::{
    all_html_diagnostics, any_html_open, diagnostics_for_css_duplicates, diagnostics_for_html,
    diagnostics_for_unused, unknown_names, unused_hints,
};
use css_lens::html::SelectorRef;
use css_lens::js::collect_js_class_refs;
use css_lens::model::{ClassMap, DocumentMap, KeyframesMap};
use css_lens::paths::{
    html_address, html_file_at, is_css_path, is_html_file, is_html_uri, is_script, keep_entry,
};
use css_lens::pattern::Patterns;
use css_lens::protocol::{Position, Severity};
use css_lens::references::DefinitionReply;
use css_lens::scope::{
    build_document_class_map, build_scoped_class_map, directory_of_document, forget_keyframes,
    forget_source, keep_sheet, linked_files, read_animations, scan_keyframes_content, start_links,
    Crawl, DocumentScope, StyleSheet, MAX_CSS_BYTES,
};
use css_lens::session::{
    invalid_params, last_change, method_not_found, read_style_sheet, route_notification,
    route_request, workspace_files, NotificationKind, RequestKind, Session, WalkedFile,
};
use css_lens::table::Table;
use css_lens::updates::{
    css_change, is_read_anew, update_css_map, update_keyframes_map, update_source, CssChange,
    FileChange, FileUpdate,
};

const PAGE: &str = "file:///p/i.html";

fn patterns() -> Patterns {
    Patterns::new().unwrap()
}

fn at(line: u32, character: u32) -> Position {
    Position { line, character }
}

fn file(map: &mut ClassMap, path: &str, css: &str) {
    parse_css_content(&patterns(), css, 0, "f.css", path, map);
}

fn map_of(css: &str) -> ClassMap {
    let mut map = ClassMap::new();
    file(&mut map, "/p/a.css", css);
    map
}

fn documents(uri: &str, text: &str) -> DocumentMap {
    let mut d: DocumentMap = Table::new();
    d.insert(uri.to_string(), text.to_string());
    d
}

#[test]
fn methods_are_routed() {
    assert_eq!(route_request("textDocument/hover").unwrap(), RequestKind::Hover);
    assert_eq!(route_request("workspace/symbol").unwrap(), RequestKind::WorkspaceSymbol);
    let error = route_request("x/y").unwrap_err();
    assert_eq!(error.code, -32601);
    assert_eq!(error.message, "method not found: x/y");
    assert_eq!(invalid_params("why".to_string()).code, -32602);
    assert_eq!(route_notification("textDocument/didClose"), Some(NotificationKind::Closed));
    assert_eq!(route_notification("initialized"), None);
    assert_eq!(last_change(vec!["a".to_string(), "b".to_string()]), Some("b".to_string()));
    assert_eq!(last_change(vec![]), None);
}

#[test]
fn unknown_names_are_errors() {
    let p = patterns();
    let map = map_of(".known { x: y } #top { x: y }");
    let html = "<style>\n.own { x: y }\n</style>\n<p class=\"known own lost\" id=\"top\"><p id='gone'>";
    let diags = diagnostics_for_html(&p, html, &map).unwrap();
    let shown: Vec<&str> = diags.iter().map(|d| d.message.as_str()).collect();
    assert_eq!(shown, ["Unknown CSS class 'lost'", "Unknown CSS id 'gone'"]);
    assert_eq!(diags[0].severity, Some(Severity::Error));
    assert_eq!(diags[0].range.start, at(3, 20));
    assert_eq!(diags[0].range.end, at(3, 24));
    let all = all_html_diagnostics(&p, "<p class='known known x'>", &map).unwrap();
    let shown: Vec<&str> = all.iter().map(|d| d.message.as_str()).collect();
    assert_eq!(shown, ["Unknown CSS class 'x'", "class 'known' is already listed in this attribute"]);
}

#[test]
fn a_style_block_with_an_open_string_has_no_diagnostics() {
    let p = patterns();
    assert!(diagnostics_for_html(&p, "<style>.a { x: \"y }</style>", &map_of("")).is_none());
}

#[test]
fn unknown_names_from_given_references() {
    let r = SelectorRef { line: 1, col_start: 2, col_end: 5, name: "abc".to_string(), is_id: true };
    let diags = unknown_names(&vec![r], &map_of(".abc { x: y }"), &map_of(""));
    assert_eq!(diags.len(), 1);
    assert_eq!(diags[0].message, "Unknown CSS id 'abc'");
}

#[test]
fn redefinitions_are_warnings() {
    let mut map = map_of(".a { x: y }\n.a { x: y }\n#b { x: y }\n.a { x: y }");
    file(&mut map, "/p/other.css", ".a { x: y }");
    let diags = diagnostics_for_css_duplicates(&map, "/p/a.css");
    let shown: Vec<u32> = diags.iter().map(|d| d.range.start.line).collect();
    assert_eq!(shown, [1, 3]);
    assert_eq!(diags[0].message, "'.a' is already defined earlier in this file");
    assert_eq!(diags[0].severity, Some(Severity::Warning));
    assert!(diagnostics_for_css_duplicates(&map, "/p/other.css").is_empty());
}

#[test]
fn unused_names_get_hints() {
    let p = patterns();
    let map = map_of(".used { x: y }\n.unused { x: y }\n#scripted { x: y }");
    let docs = documents(PAGE, "<p class=\"used\">");
    let hints = diagnostics_for_unused(&p, &map, &docs, &vec!["#scripted".to_string()]);
    assert_eq!(hints.len(), 1);
    let in_file = hints.get("file:///p/a.css").unwrap();
    assert_eq!(in_file.len(), 1);
    assert_eq!(in_file[0].message, "'.unused' is not used in any open HTML file");
    assert_eq!(in_file[0].severity, Some(Severity::Hint));
    assert_eq!(in_file[0].range.start, at(1, 0));
}

#[test]
fn without_an_open_document_there_are_no_hints() {
    let p = patterns();
    let map = map_of(".unused { x: y }");
    let css_only = documents("file:///p/a.css", "<p class=\"x\">");
    assert_eq!(diagnostics_for_unused(&p, &map, &css_only, &vec![]).len(), 0);
    assert!(!any_html_open(&css_only));
    assert!(any_html_open(&documents(PAGE, "")));
    assert_eq!(diagnostics_for_unused(&p, &map, &documents(PAGE, "<p>"), &vec![]).len(), 1);
    assert_eq!(unused_hints(&map, &vec!["unused".to_string()]).len(), 0);
}

#[test]
fn scripts_use_names() {
    let p = patterns();
    let js = "e.classList.add('a b'); getElementsByClassName(\"c\"); querySelector('.d #e'); querySelectorAll(\".f\")";
    let mut used = vec!["old".to_string()];
    collect_js_class_refs(&p, js, &mut used);
    assert_eq!(used, ["old", "a", "b", "c", "d", "#e", "f"]);
    let mut used = Vec::new();
    collect_js_class_refs(&p, "x.querySelectorAll('.d #e .g')", &mut used);
    assert_eq!(used, ["d", "g", "#e"]);
    let mut used = Vec::new();
    collect_js_class_refs(&p, "document.querySelector('.foo #bar')", &mut used);
    assert_eq!(used, ["foo", "#bar"]);
}

#[test]
fn files_are_told_apart() {
    assert!(is_html_uri("file:///p/i.html"));
    assert!(is_html_uri("untitled:x.htm"));
    assert!(!is_html_uri("file:///p/i.css"));
    assert!(!is_html_uri("no address"));
    assert!(is_css_path("/p/a.css"));
    assert!(!is_css_path("/p/.css"));
    assert!(is_html_file("/p/a.htm"));
    assert!(!is_html_file("/p/a.xhtml"));
    assert!(is_script("/p/a.js"));
    assert!(!is_script("/p/a.mjs"));
    assert!(keep_entry("src"));
    assert!(!keep_entry("node_modules"));
    assert!(!keep_entry(".git"));
    assert_eq!(directory_of_document("file:///p/q/i.html"), Some("/p/q".to_string()));
    assert_eq!(directory_of_document("untitled:x"), None);
    assert_eq!(html_address("/p/a b.html"), Some("file:///p/a%20b.html".to_string()));
    assert_eq!(html_address("/p/a.css"), None);
    assert_eq!(html_address("a.html"), None);
    assert_eq!(html_file_at("file:///p/a%20b.html"), Some("/p/a b.html".to_string()));
    assert_eq!(html_file_at("file:///p/a.css"), None);
    assert_eq!(html_file_at("untitled:x.html"), None);
}

#[test]
fn the_path_of_an_address_counts() {
    assert!(is_html_uri("file:///p/i.html?x=y#z"));
    assert!(!is_html_uri("file:///p/i.css?x=i.html"));
}

#[test]
fn changes_of_style_sheets_are_told_apart() {
    let change = css_change("file:///p/a%20b.css", FileChange::Deleted).unwrap();
    assert_eq!(change.path, "/p/a b.css");
    assert!(change.deleted);
    assert!(!css_change("file:///p/a.css", FileChange::Changed).unwrap().deleted);
    assert!(css_change("file:///p/a.html", FileChange::Created).is_none());
    assert!(is_read_anew(FileChange::Created));
    assert!(is_read_anew(FileChange::Changed));
    assert!(!is_read_anew(FileChange::Deleted));
    assert!(!is_read_anew(FileChange::Unknown));
    assert_eq!(method_not_found("m").message, "method not found: m");
}

#[test]
fn linked_files_are_those_reached() {
    let files = vec!["/p/a.css".to_string(), "/p/b.css".to_string()];
    let reached = vec!["/real/a.css".to_string()];
    assert_eq!(linked_files(&files, &resolved(), &reached), ["/p/a.css"]);
    assert!(linked_files(&files, &resolved(), &vec![]).is_empty());
}

#[test]
fn a_walk_takes_each_file_up_once() {
    let mut crawl = Crawl::new();
    crawl.start("/p/a.css".to_string());
    let a = Some("/p/a.css".to_string());
    assert_eq!(crawl.next(), Some("/p/a.css".to_string()));
    assert!(!crawl.take_up(Some(MAX_CSS_BYTES + 1), &a));
    assert!(!crawl.take_up(Some(1), &None));
    assert!(crawl.take_up(Some(MAX_CSS_BYTES), &a));
    crawl.follow(&patterns(), "/p/a.css", "@import 'b'; @import 'c.css';");
    assert_eq!(crawl.next(), Some("/p/b.css".to_string()));
    crawl.follow_files("/p/b.css", &vec!["a.css".to_string()]);
    assert_eq!(crawl.next(), Some("/p/a.css".to_string()));
    assert!(!crawl.take_up(None, &a));
    assert_eq!(crawl.next(), Some("/p/c.css".to_string()));
    assert_eq!(crawl.next(), None);
    assert_eq!(crawl.into_visited(), ["/p/a.css"]);
}

#[test]
fn links_are_followed_in_order() {
    let mut crawl = Crawl::new();
    start_links(&mut crawl, "/p", &vec!["a.css".to_string(), "../b.css".to_string()]);
    assert_eq!(crawl.next(), Some("/p/a.css".to_string()));
    assert_eq!(crawl.next(), Some("/p/../b.css".to_string()));
}

#[test]
fn style_sheets_are_read_during_a_walk() {
    let p = patterns();
    let mut map = ClassMap::new();
    let mut crawl = Crawl::new();
    let css = "@import 'x';\n.a { x: y }";
    assert!(read_style_sheet(&p, "/p/a.css", css, &mut map, &mut crawl));
    assert_eq!(map.get("a").unwrap()[0].source_file, "a.css");
    assert_eq!(map.get("a").unwrap()[0].definition_line, 1);
    assert_eq!(crawl.next(), Some("/p/x.css".to_string()));
    assert!(!read_style_sheet(&p, "/p/b.css", ".b { x: 'y }", &mut map, &mut crawl));
    assert_eq!(map.len(), 1);
    assert_eq!(crawl.next(), None);
}

#[test]
fn forgetting_a_file_spares_the_others() {
    let mut map = map_of(".a { x: 1 } .b { x: 1 }");
    file(&mut map, "/p/other.css", ".a { x: 2 }");
    forget_source(&mut map, "/p/a.css");
    assert_eq!(map.len(), 1);
    assert_eq!(map.get("a").unwrap().len(), 1);
    assert_eq!(map.get("a").unwrap()[0].properties, "x: 2");
    file(&mut map, "/p/a.css", ".a { x: 3 }");
    let values: Vec<&str> = map.get("a").unwrap().iter().map(|i| i.properties.as_str()).collect();
    assert_eq!(values, ["x: 2", "x: 3"]);
}

#[test]
fn animations_are_tracked_by_file() {
    let p = patterns();
    let mut keyframes: KeyframesMap = Table::new();
    let css = "\n@keyframes spin { }\n@KEYFRAMES -fade{ }\n@keyframes spin { }";
    scan_keyframes_content(&p, css, "/p/k.css", &mut keyframes);
    assert_eq!(keyframes.len(), 2);
    assert_eq!(keyframes.get("spin").unwrap().definition_line, 3);
    assert_eq!(keyframes.get("-fade").unwrap().source_file, "k.css");
    scan_keyframes_content(&p, "@keyframes pop{}", "/p/l.css", &mut keyframes);
    forget_keyframes(&mut keyframes, "/p/k.css");
    assert_eq!(keyframes.len(), 1);
    assert!(keyframes.get("pop").is_some());
}

fn resolved() -> Table<String> {
    let mut t: Table<String> = Table::new();
    t.insert("/p/a.css".to_string(), "/real/a.css".to_string());
    t
}

#[test]
fn a_document_sees_what_it_reaches() {
    let mut map = map_of(".a { x: y } .b { x: y }");
    file(&mut map, "/p/other.css", ".b { x: y } .c { x: y }");
    let scoped = build_scoped_class_map(&map, &resolved(), &vec!["/real/a.css".to_string()]).unwrap();
    assert_eq!(scoped.len(), 2);
    assert_eq!(scoped.get("b").unwrap().len(), 1);
    assert!(scoped.get("c").is_none());
    assert!(build_scoped_class_map(&map, &resolved(), &vec![]).is_none());
    let p = patterns();
    let html = "<style>.own { x: y }</style>";
    let reached = vec!["/real/a.css".to_string()];
    match build_document_class_map(&p, &map, &resolved(), &reached, html, "/p/i.html") {
        DocumentScope::Own(own) => {
            assert_eq!(own.len(), 3);
            assert_eq!(own.get("own").unwrap()[0].source_file, "i.html");
        }
        _ => panic!(),
    }
    match build_document_class_map(&p, &map, &resolved(), &vec![], html, "/p/i.html") {
        DocumentScope::Own(own) => assert_eq!(own.len(), 4),
        _ => panic!(),
    }
    assert!(matches!(
        build_document_class_map(&p, &map, &resolved(), &vec![], "<p>", "/p/i.html"),
        DocumentScope::Workspace
    ));
    assert!(matches!(
        build_document_class_map(&p, &map, &resolved(), &vec![], "<style>a{'</style>", "/p/i.html"),
        DocumentScope::Unreadable
    ));
}

#[test]
fn documents_come_and_go() {
    let p = patterns();
    let mut session = Session::new();
    file(&mut session.class_map, "/p/a.css", ".a { x: y }");
    let sent = session.set_document(&p, PAGE, "<p class='a b'>", &None).unwrap();
    assert_eq!(sent.len(), 1);
    assert_eq!(sent[0].uri, PAGE);
    assert_eq!(sent[0].diagnostics.len(), 1);
    assert_eq!(session.documents.get(PAGE), Some(&"<p class='a b'>".to_string()));
    assert!(session.set_document(&p, "file:///p/a.css", "x", &None).unwrap().is_empty());
    assert!(session.set_document(&p, PAGE, "<style>a { \"</style>", &None).is_none());
    let closed = session.close_document(&p, PAGE, &None);
    assert_eq!(closed.uri, PAGE);
    assert!(closed.diagnostics.is_empty());
    assert_eq!(session.documents.get(PAGE), None);
    assert_eq!(session.documents.len(), 1);
}

#[test]
fn changed_style_sheets_cause_remarks() {
    let p = patterns();
    let mut session = Session::new();
    file(&mut session.class_map, "/p/a.css", ".a { --v: 1 }\n.a { x: y }\n.u { x: y }");
    session.refresh_vars();
    assert_eq!(session.var_map.get("--v"), Some(&"1".to_string()));
    session.set_document(&p, PAGE, "<p class='a lost'>", &None);
    let changes = vec![
        CssChange { path: "/p/a.css".to_string(), deleted: false },
        CssChange { path: "/p/gone.css".to_string(), deleted: true },
    ];
    let sent = session.remarks_after_change(&p, &changes, &vec![]).unwrap();
    assert_eq!(sent.len(), 3);
    assert_eq!(sent[0].uri, "file:///p/a.css");
    assert_eq!(sent[0].diagnostics.len(), 2);
    assert_eq!(sent[0].diagnostics[0].message, "'.a' is already defined earlier in this file");
    assert_eq!(sent[0].diagnostics[1].message, "'.u' is not used in any open HTML file");
    assert_eq!(sent[1].uri, "file:///p/gone.css");
    assert!(sent[1].diagnostics.is_empty());
    assert_eq!(sent[2].uri, PAGE);
    assert_eq!(sent[2].diagnostics[0].message, "Unknown CSS class 'lost'");
    session.recount(&p, &Some(vec![walked("file:///p/o.html", Some("<p class='a'>"))]));
    assert_eq!(session.usage.get("a"), Some(&1));
    session.set_document(&p, "file:///p/bad.html", "<style>a { '</style>", &None);
    assert!(session.remarks_after_change(&p, &changes, &vec![]).is_none());
}

#[test]
fn requests_use_what_the_document_sees() {
    let p = patterns();
    let mut session = Session::new();
    file(&mut session.class_map, "/p/a.css", ".global {\n --g: 1;\n}");
    session.refresh_vars();
    session.set_document(&p, PAGE, "<p class='' style='color: var(--g)'>", &None);
    let scope = DocumentScope::Own(map_of(".local { x: y }"));
    let items = session.complete(&p, &scope, PAGE, at(0, 10)).unwrap();
    assert_eq!(items[0].label, "local");
    let items = session.complete(&p, &DocumentScope::Workspace, PAGE, at(0, 10)).unwrap();
    assert_eq!(items[0].label, "global");
    let shown = session.hover(&p, &scope, PAGE, at(0, 31));
    assert_eq!(shown, Some("**--g**\n\n```css\n--g: 1;\n```".to_string()));
    session.set_document(&p, PAGE, "<p class='local'>", &None);
    assert!(matches!(session.define(&p, &scope, PAGE, at(0, 12)), DefinitionReply::One(_)));
    assert!(matches!(
        session.define(&p, &DocumentScope::Workspace, PAGE, at(0, 12)),
        DefinitionReply::Nothing
    ));
}

fn walked(uri: &str, on_disk: Option<&str>) -> WalkedFile {
    WalkedFile { uri: uri.to_string(), on_disk: on_disk.map(|t| t.to_string()) }
}

#[test]
fn open_documents_take_precedence_over_disk() {
    let docs = documents(PAGE, "open");
    let files = vec![
        walked(PAGE, Some("disk")),
        walked("file:///x", Some("disk")),
        walked("file:///y", None),
    ];
    let texts = workspace_files(&files, &docs);
    assert_eq!(texts.len(), 2);
    assert_eq!(texts.get(PAGE), Some(&"open".to_string()));
    assert_eq!(texts.get("file:///x"), Some(&"disk".to_string()));
}

#[test]
fn counts_follow_the_editor() {
    let p = patterns();
    let mut session = Session::new();
    let files = || {
        Some(vec![walked(PAGE, Some("<p class='d'>")), walked("file:///p/o.html", Some("<i class='o'>"))])
    };
    session.set_document(&p, PAGE, "<p class='a a'>", &files());
    assert_eq!(session.usage.get("a"), Some(&2));
    assert_eq!(session.usage.get("o"), Some(&1));
    assert_eq!(session.usage.get("d"), None);
    session.set_document(&p, PAGE, "<p class='b'>", &files());
    assert_eq!(session.usage.get("a"), None);
    assert_eq!(session.usage.get("b"), Some(&1));
    session.set_document(&p, PAGE, "<p class='c'>", &None);
    assert_eq!(session.usage.get("b"), Some(&1));
    session.close_document(&p, PAGE, &files());
    assert_eq!(session.usage.get("c"), None);
    assert_eq!(session.usage.get("d"), Some(&1));
    assert_eq!(session.usage.get("o"), Some(&1));
}

fn update(uri: &str, change: FileChange, content: Option<&str>) -> FileUpdate {
    let content = content.map(|t| t.to_string());
    FileUpdate { uri: uri.to_string(), change, content, imported: vec![] }
}

#[test]
fn only_the_changed_style_sheet_is_read_anew() {
    let p = patterns();
    let mut map = map_of("@import \"b.css\";\n.a { x: 1 }\n.gone { x: 1 }");
    file(&mut map, "/p/b.css", ".b { x: 1 }");
    assert!(update_source(&mut map, &p, "/p/a.css", "@import \"b.css\";\n.a { x: 2 }"));
    assert_eq!(map.len(), 2);
    assert_eq!(map.get("b").unwrap().len(), 1);
    assert_eq!(map.get("a").unwrap().len(), 1);
    assert_eq!(map.get("a").unwrap()[0].properties, "x: 2");
    assert_eq!(map.get("a").unwrap()[0].source_file, "a.css");
    assert_eq!(map.all_rules().len(), 2);
    assert!(!update_source(&mut map, &p, "/p/a.css", ".a { x: '"));
    assert_eq!(map.get("a").unwrap()[0].properties, "x: 2");
}

#[test]
fn changes_are_taken_in_order() {
    let p = patterns();
    let mut map = map_of(".a { x: 1 }");
    let updates = vec![
        update("file:///p/b.css", FileChange::Created, Some(".a { x: 2 }")),
        update("file:///p/c.html", FileChange::Changed, Some(".c { x: '")),
        update("file:///p/a.css", FileChange::Changed, Some(".a { x: 3 }")),
        update("file:///p/d.css", FileChange::Unknown, Some(".d { x: 4 }")),
    ];
    assert!(update_css_map(&mut map, &p, &updates));
    assert_eq!(map.len(), 1);
    let values: Vec<&str> = map.get("a").unwrap().iter().map(|i| i.properties.as_str()).collect();
    assert_eq!(values, ["x: 2", "x: 3"]);
    let bad = vec![
        update("file:///p/a.css", FileChange::Deleted, None),
        update("file:///p/b.css", FileChange::Changed, Some(".a { x: \"")),
    ];
    assert!(!update_css_map(&mut map, &p, &bad));
    assert_eq!(map.get("a").unwrap().len(), 2);
}

#[test]
fn deletions_drop_their_files() {
    let p = patterns();
    let mut map = map_of(".a { x: 1 } .only { x: 1 }");
    file(&mut map, "/p/b.css", ".a { x: 2 } :root { --v: 1 }");
    file(&mut map, "/p/c.css", ".a { x: 3 }");
    let gone = vec![
        update("file:///p/a.css", FileChange::Deleted, Some(".back { x: y }")),
        update("file:///p/c.html", FileChange::Deleted, None),
        update("file:///p/c.css", FileChange::Deleted, None),
    ];
    for _ in 0..2 {
        assert!(update_css_map(&mut map, &p, &gone));
        assert_eq!(map.len(), 1);
        assert_eq!(map.get("a").unwrap().len(), 1);
        assert_eq!(map.get("a").unwrap()[0].properties, "x: 2");
        assert_eq!(map.all_rules().len(), 2);
    }
}

#[test]
fn animations_are_read_anew() {
    let p = patterns();
    let mut keyframes: KeyframesMap = Table::new();
    scan_keyframes_content(&p, "@keyframes a{} @keyframes b{}", "/p/k.css", &mut keyframes);
    scan_keyframes_content(&p, "@keyframes c{}", "/p/l.css", &mut keyframes);
    let updates = vec![
        update("file:///p/k.css", FileChange::Changed, Some("\n@keyframes b{}")),
        update("file:///p/l.css", FileChange::Deleted, None),
    ];
    update_keyframes_map(&mut keyframes, &p, &updates);
    assert_eq!(keyframes.len(), 1);
    assert_eq!(keyframes.get("b").unwrap().definition_line, 1);
}

#[test]
fn animations_of_imports_are_read_anew() {
    let p = patterns();
    let mut keyframes: KeyframesMap = Table::new();
    let mut changed = update("file:///p/k.css", FileChange::Changed, Some("@import 'n.css';"));
    changed.imported = vec![StyleSheet {
        path: "/p/n.css".to_string(),
        content: "\n\n@keyframes new{}".to_string(),
    }];
    update_keyframes_map(&mut keyframes, &p, &vec![changed]);
    assert_eq!(keyframes.len(), 1);
    assert_eq!(keyframes.get("new").unwrap().source_path, "/p/n.css");
    assert_eq!(keyframes.get("new").unwrap().definition_line, 2);
}

#[test]
fn a_walk_keeps_sheets_and_animations() {
    let p = patterns();
    let mut keyframes: KeyframesMap = Table::new();
    let mut sheets = Vec::new();
    let mut crawl = Crawl::new();
    let css = "@import 'x.css'; @keyframes k{}";
    read_animations(&p, "/p/a.css", css, &mut keyframes, &mut crawl);
    assert!(keyframes.contains("k"));
    assert_eq!(crawl.next(), Some("/p/x.css".to_string()));
    keep_sheet(&p, "/p/a.css".to_string(), css.to_string(), &mut sheets, &mut crawl);
    assert_eq!(sheets.len(), 1);
    assert_eq!(sheets[0].path, "/p/a.css");
    assert_eq!(sheets[0].content, css);
    assert_eq!(crawl.next(), Some("/p/x.css".to_string()));
    assert_eq!(crawl.next(), None);
}

#[test]
fn each_address_gets_one_message() {
    let p = patterns();
    let mut session = Session::new();
    file(&mut session.class_map, "/p/a.css", ".x { }\n.x { }");
    file(&mut session.class_map, "/p/b.css", ".used { }\n.used { }");
    session.set_document(&p, PAGE, "<p class='used'>", &None);
    let change = || CssChange { path: "/p/b.css".to_string(), deleted: false };
    let sent = session.remarks_after_change(&p, &vec![change(), change()], &vec![]).unwrap();
    let shown: Vec<(&str, usize)> =
        sent.iter().map(|s| (s.uri.as_str(), s.diagnostics.len())).collect();
    assert_eq!(shown, [("file:///p/b.css", 1), ("file:///p/a.css", 3), (PAGE, 0)]);
    assert_eq!(sent[1].diagnostics[0].severity, Some(Severity::Warning));
    assert_eq!(sent[1].diagnostics[1].severity, Some(Severity::Hint));
}

#[test]
fn a_session_takes_changed_files_in() {
    let p = patterns();
    let mut session = Session::new();
    session.set_document(&p, PAGE, "<p class='a lost'>", &None);
    let updates = vec![
        update("file:///p/a.css", FileChange::Created, Some(".a { }\n.u { }\n:root {\n--v: 1;\n}\n@keyframes k{}")),
    ];
    let files = Some(vec![walked(PAGE, None)]);
    let sent = session.files_changed(&p, &updates, &files, &vec![]).unwrap();
    assert_eq!(sent.len(), 2);
    assert_eq!(sent[0].uri, "file:///p/a.css");
    assert_eq!(sent[0].diagnostics.len(), 1);
    assert_eq!(sent[0].diagnostics[0].message, "'.u' is not used in any open HTML file");
    assert_eq!(sent[1].diagnostics[0].message, "Unknown CSS class 'lost'");
    assert_eq!(session.var_map.get("--v"), Some(&"1".to_string()));
    assert_eq!(session.keyframes.get("k").unwrap().definition_line, 5);
    assert_eq!(session.usage.get("a"), Some(&1));
    let bad = vec![update("file:///p/a.css", FileChange::Changed, Some(".a { '"))];
    assert!(session.files_changed(&p, &bad, &None, &vec![]).is_none());
    assert_eq!(session.class_map.len(), 2);
}
