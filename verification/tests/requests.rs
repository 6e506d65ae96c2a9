use css_lens::completion::{
    completion_handler, offer_classes, offer_ids, offer_style, CompletionKind,
};
use css_lens::context::StyleContext;
use css_lens::css::parse_css_content;
use css_lens::dictionary::{css_property_completions, css_value_completions};
use css_lens::hover::{
    color_summary, count_specificity, hover_handler, show_several, show_single, specificity,
    summarize_colors,
};
use css_lens::model::{ClassMap, DocumentMap, KeyframeInfo, KeyframesMap, VarMap};
use css_lens::pattern::Patterns;
use css_lens::protocol::Position;
use css_lens::references::{
    definition_handler, references_handler, workspace_html_refs, DefinitionReply,
};
use css_lens::symbols::{
    build_usage_counts, code_lens_handler, count_keys, document_symbol_handler, show_usage,
    workspace_symbol_handler,
};
use css_lens::table::Table;

const CSS: &str = ".btn { color: #fff; background: rgb(1, 2, 3); border-color: #fff }\n.Card { x: y }\n#hero { x: y }\n@media print {\n  .btn { x: z }\n}";

const PAGE: &str = "file:///p/i.html";

fn patterns() -> Patterns {
    Patterns::new().unwrap()
}

fn at(line: u32, character: u32) -> Position {
    Position { line, character }
}

fn map() -> ClassMap {
    let mut map = ClassMap::new();
    parse_css_content(&patterns(), CSS, 0, "a.css", "/p/a.css", &mut map);
    map
}

fn documents(uri: &str, text: &str) -> DocumentMap {
    let mut d: DocumentMap = Table::new();
    d.insert(uri.to_string(), text.to_string());
    d
}

fn no_vars() -> VarMap {
    Table::new()
}

fn keyframes() -> KeyframesMap {
    let mut k: KeyframesMap = Table::new();
    k.insert(
        "spin".to_string(),
        KeyframeInfo {
            source_file: "k.css".to_string(),
            source_path: "/p/k.css".to_string(),
            definition_line: 4,
        },
    );
    k
}

fn labels(text: &str, pos: Position) -> Option<Vec<String>> {
    let mut vars = no_vars();
    vars.insert("--main".to_string(), "red".to_string());
    let docs = documents(PAGE, text);
    completion_handler(&patterns(), PAGE, pos, &map(), &vars, &keyframes(), &docs)
        .map(|items| items.into_iter().map(|i| i.label).collect())
}

#[test]
fn class_names_are_offered_in_order() {
    assert_eq!(labels("<p class=\"\">", at(0, 10)), Some(vec!["Card".to_string(), "btn".to_string()]));
    assert_eq!(labels("<p class=\"ca\">", at(0, 12)), Some(vec!["Card".to_string()]));
    assert_eq!(labels("<p class=\"BTN \">", at(0, 14)), Some(vec!["Card".to_string()]));
    assert_eq!(labels("<p class=\"x\">", at(0, 11)), Some(vec![]));
}

#[test]
fn class_items_tell_their_file_and_spacing() {
    let items = offer_classes(&map(), &vec!["card".to_string()], "", "a", 1);
    assert_eq!(items.len(), 1);
    assert_eq!(items[0].label, "btn");
    assert_eq!(items[0].kind, CompletionKind::Class);
    assert_eq!(items[0].detail, Some("a.css".to_string()));
    assert_eq!(items[0].insert_text, " btn");
    assert_eq!(items[0].filter_text, "btn");
    let items = offer_classes(&map(), &vec![], "c", "", 0);
    assert_eq!(items[0].filter_text, "card");
}

#[test]
fn one_identifier_is_offered_at_most() {
    assert_eq!(labels("<p id=\"\">", at(0, 7)), Some(vec!["hero".to_string()]));
    assert_eq!(labels("<p id=\"HE\">", at(0, 9)), Some(vec!["hero".to_string()]));
    assert_eq!(labels("<p id=\"other \">", at(0, 13)), None);
    let items = offer_ids(&map(), "x");
    assert!(items.is_empty());
}

#[test]
fn properties_values_variables_and_animations_are_offered() {
    assert_eq!(labels("<p style=\"justify-c\">", at(0, 19)), Some(vec!["justify-content".to_string()]));
    assert_eq!(
        labels("<p style=\"position: S\">", at(0, 21)),
        Some(vec!["static".to_string(), "sticky".to_string()])
    );
    assert_eq!(labels("<p style=\"color: var(--M\">", at(0, 24)), Some(vec!["--main".to_string()]));
    assert_eq!(labels("<p style=\"animation-name: \">", at(0, 26)), Some(vec!["spin".to_string()]));
    assert_eq!(labels("<p style=\"color: r\">", at(0, 18)), None);
}

#[test]
fn nothing_is_offered_elsewhere() {
    assert_eq!(labels("<p>", at(0, 2)), None);
    let docs = documents("file:///p/other.html", "<p class=\"\">");
    assert!(completion_handler(&patterns(), PAGE, at(0, 10), &map(), &no_vars(), &keyframes(), &docs).is_none());
}

#[test]
fn property_items_end_with_a_colon() {
    let context = StyleContext::PropertyName { prefix: "z-".to_string() };
    let items = offer_style(&context, &no_vars(), &keyframes()).unwrap();
    assert_eq!(items.len(), 1);
    assert_eq!(items[0].insert_text, "z-index: ");
    assert_eq!(items[0].kind, CompletionKind::Property);
    assert!(offer_style(&StyleContext::Outside, &no_vars(), &keyframes()).is_none());
}

#[test]
fn the_dictionary_knows_properties_and_keywords() {
    let names = css_property_completions();
    assert_eq!(names.len(), 112);
    assert_eq!(names[0], "align-content");
    assert_eq!(names[111], "z-index");
    assert_eq!(css_value_completions("overflow-y"), ["visible", "hidden", "scroll", "auto", "clip"]);
    assert_eq!(css_value_completions("animation-iteration-count"), ["infinite"]);
    assert!(css_value_completions("color").is_empty());
}

#[test]
fn specificity_counts_the_first_selector() {
    let p = patterns();
    assert_eq!(specificity(&p, "#a .b.c > div:hover::before, .x"), (1, 2, 1));
    assert_eq!(specificity(&p, "ul li[data-x=\"y\"] *"), (0, 0, 2));
    assert_eq!(specificity(&p, ""), (0, 0, 0));
    let star = vec!["*".to_string(), "p".to_string()];
    assert_eq!(count_specificity(&vec![], &star, &star), (0, 2, 1));
}

#[test]
fn colors_are_listed_once() {
    let p = patterns();
    assert_eq!(color_summary(&p, "color: #FFF; x: hsl(1, 2%, 3%); y: #FFF"), "`#FFF` `hsl(1, 2%, 3%)`");
    assert_eq!(color_summary(&p, "x: y"), "");
    let found = vec!["a".to_string(), "b".to_string(), "a".to_string()];
    assert_eq!(summarize_colors(&found), "`a` `b`");
}

fn hover(text: &str, pos: Position, vars: &VarMap, uri: &str) -> Option<String> {
    let docs = documents(uri, text);
    hover_handler(&patterns(), uri, pos, &map(), &no_vars(), vars, &keyframes(), &docs)
}

#[test]
fn one_definition_is_shown_in_full() {
    assert_eq!(
        hover("<p id=\"hero\">", at(0, 8), &no_vars(), PAGE),
        Some("**#hero** — a.css:3\n\nSpecificity: `(1,0,0)`\n\n```css\n#hero {\nx: y\n}\n```".to_string())
    );
    let info = {
        let mut info = map().get("btn").unwrap()[0].clone();
        info.media_query = Some("@media print".to_string());
        info.layer = Some("ui".to_string());
        info
    };
    assert_eq!(
        show_single("btn", &info, (0, 1, 0), "`#fff`"),
        "**btn** — a.css:1\n_inside_ `@media print`\n_in `@layer ui`_\n\nSpecificity: `(0,1,0)`\n\nColors: `#fff`\n\n```css\n.btn {\ncolor: #fff; background: rgb(1, 2, 3); border-color: #fff\n}\n```"
    );
}

#[test]
fn several_definitions_are_numbered() {
    let shown = hover("<p class='btn'>", at(0, 11), &no_vars(), PAGE).unwrap();
    assert_eq!(
        shown,
        "**btn** — 2 definitions\n\n\n**1.** a.css:1 — Specificity: `(0,1,0)`\n```css\n.btn {\ncolor: #fff; background: rgb(1, 2, 3); border-color: #fff\n}\n```\n\n**2.** a.css:5 _(inside `@media print`)_ — Specificity: `(0,1,0)`\n```css\n.btn {\nx: z\n}\n```"
    );
    assert_eq!(show_several("x", &vec![], &vec![]), "**x** — 0 definitions\n");
}

#[test]
fn variables_and_animations_are_shown() {
    let mut vars = no_vars();
    vars.insert("--main".to_string(), "red".to_string());
    let shown = Some("**--main**\n\n```css\n--main: red;\n```".to_string());
    assert_eq!(hover("<p style=\"color: var(--main)\">", at(0, 24), &vars, PAGE), shown);
    assert_eq!(hover(".a { color: var(--main) }", at(0, 18), &vars, "file:///p/a.css"), shown);
    assert_eq!(hover("--other", at(0, 1), &vars, "file:///p/a.css"), None);
    assert_eq!(
        hover("<p style=\"animation-name: spin\">", at(0, 28), &vars, PAGE),
        Some("**@keyframes spin** — k.css:5".to_string())
    );
    assert_eq!(hover("<p style=\"color: spin\">", at(0, 19), &vars, PAGE), None);
    assert_eq!(hover("<p class=\"unknown\">", at(0, 12), &vars, PAGE), None);
    assert_eq!(hover("<p>", at(7, 0), &vars, PAGE), None);
}

#[test]
fn definitions_are_places_in_files() {
    let p = patterns();
    let docs = documents(PAGE, "<p class=\"btn\" id='hero' style='animation-name:spin'>");
    match definition_handler(&p, PAGE, at(0, 11), &map(), &keyframes(), &docs) {
        DefinitionReply::Several(places) => {
            assert_eq!(places.len(), 2);
            assert_eq!(places[0].uri, "file:///p/a.css");
            assert_eq!(places[0].range.start.line, 0);
            assert_eq!(places[1].range.start.line, 4);
        }
        _ => panic!(),
    }
    match definition_handler(&p, PAGE, at(0, 20), &map(), &keyframes(), &docs) {
        DefinitionReply::One(place) => assert_eq!(place.range.start.line, 2),
        _ => panic!(),
    }
    match definition_handler(&p, PAGE, at(0, 48), &map(), &keyframes(), &docs) {
        DefinitionReply::One(place) => {
            assert_eq!(place.uri, "file:///p/k.css");
            assert_eq!(place.range.start.line, 4);
        }
        _ => panic!(),
    }
    assert!(matches!(
        definition_handler(&p, PAGE, at(0, 1), &map(), &keyframes(), &docs),
        DefinitionReply::Nothing
    ));
    assert!(matches!(
        definition_handler(&p, "file:///none", at(0, 1), &map(), &keyframes(), &docs),
        DefinitionReply::Nothing
    ));
}

#[test]
fn definitions_without_an_address_are_left_out() {
    let p = patterns();
    let mut map = ClassMap::new();
    parse_css_content(&p, ".a { x: y }", 0, "a.css", "relative.css", &mut map);
    let docs = documents(PAGE, "<p class=\"a\">");
    assert!(matches!(
        definition_handler(&p, PAGE, at(0, 10), &map, &keyframes(), &docs),
        DefinitionReply::Nothing
    ));
}

#[test]
fn references_are_found_in_the_workspace() {
    let p = patterns();
    let mut files = documents("file:///p/a.html", "<p class=\"btn x\" id=\"btn\">");
    files.insert("file:///p/b.html".to_string(), "<i class='btn btn'>".to_string());
    let places = workspace_html_refs(&p, "btn", &files);
    let columns: Vec<u32> = places.iter().map(|l| l.range.start.character).collect();
    assert_eq!(columns, [10, 10, 14]);
    assert_eq!(places[2].uri, "file:///p/b.html");
    assert_eq!(workspace_html_refs(&p, "#btn", &files).len(), 1);
    let docs = documents(PAGE, "<p class=\"btn\">");
    assert_eq!(references_handler(&p, PAGE, at(0, 11), &docs, &Some(files)).len(), 3);
    assert!(references_handler(&p, PAGE, at(0, 11), &docs, &None).is_empty());
    assert!(references_handler(&p, PAGE, at(0, 1), &docs, &None).is_empty());
}

#[test]
fn outlines_are_sorted_by_line() {
    let symbols = document_symbol_handler("file:///p/a.css", &map());
    let shown: Vec<(&str, u32)> = symbols.iter().map(|s| (s.name.as_str(), s.line)).collect();
    assert_eq!(shown, [(".btn", 0), (".Card", 1), ("#hero", 2), (".btn", 4)]);
    assert_eq!(symbols[3].container, Some("@media print".to_string()));
    assert_eq!(symbols[0].container, None);
    assert!(document_symbol_handler("file:///p/a.html", &map()).is_empty());
    assert!(document_symbol_handler("untitled:x", &map()).is_empty());
    assert!(document_symbol_handler("file:///p/b.css", &map()).is_empty());
}

#[test]
fn containers_name_group_and_layer() {
    let mut map = ClassMap::new();
    let css = "@media print { @layer ui { .a { x: y } } }\n@layer b { .c { x: y } }";
    parse_css_content(&patterns(), css, 0, "a.css", "/p/a.css", &mut map);
    let symbols = document_symbol_handler("file:///p/a.css", &map);
    assert_eq!(symbols[0].container, Some("@media print • @layer ui".to_string()));
    assert_eq!(symbols[1].container, Some("@layer b".to_string()));
}

#[test]
fn symbols_are_searched_by_name() {
    let found = workspace_symbol_handler("", &map());
    let shown: Vec<(&str, u32)> = found.iter().map(|s| (s.name.as_str(), s.line)).collect();
    assert_eq!(shown, [("#hero", 2), (".Card", 1), (".btn", 0), (".btn", 4)]);
    let found = workspace_symbol_handler(".CA", &map());
    assert_eq!(found.len(), 1);
    assert_eq!(found[0].uri, "file:///p/a.css");
    assert_eq!(found[0].source_file, "a.css");
    assert!(workspace_symbol_handler("zzz", &map()).is_empty());
}

#[test]
fn uses_are_counted() {
    let p = patterns();
    let files = documents("file:///p/a.html", "<p class=\"btn btn\" id=\"hero\">");
    let counts = build_usage_counts(&p, &files);
    assert_eq!(counts.get("btn"), Some(&2));
    assert_eq!(counts.get("#hero"), Some(&1));
    assert_eq!(counts.get("hero"), None);
    let lenses = code_lens_handler("file:///p/a.css", &map(), &counts);
    let shown: Vec<(u32, &str)> = lenses.iter().map(|l| (l.line, l.title.as_str())).collect();
    assert_eq!(shown, [(0, "used 2 times"), (1, "unused"), (2, "used 1 time"), (4, "used 2 times")]);
    assert!(code_lens_handler(PAGE, &map(), &counts).is_empty());
    let counts = count_keys(&vec!["a".to_string(), "b".to_string(), "a".to_string()]);
    assert_eq!(counts.get("a"), Some(&2));
    assert_eq!(show_usage(0), "unused");
    assert_eq!(show_usage(12), "used 12 times");
}

#[test]
fn variables_are_offered_as_soon_as_they_are_typed() {
    let mut vars = no_vars();
    vars.insert("--primary-color".to_string(), "red".to_string());
    let docs = documents(PAGE, "<div style=\"--\">");
    let items =
        completion_handler(&patterns(), PAGE, at(0, 14), &map(), &vars, &keyframes(), &docs).unwrap();
    assert_eq!(items.len(), 1);
    assert_eq!(items[0].label, "--primary-color");
}

#[test]
fn listed_classes_are_not_offered_again() {
    assert_eq!(labels("<p class=\" \n btn\">", at(0, 10)), Some(vec!["Card".to_string()]));
    assert_eq!(labels("<p class=\"btn btn\">", at(0, 17)), Some(vec![]));
    assert_eq!(labels("<p class=\"btn\">", at(0, 13)), Some(vec!["btn".to_string()]));
}
