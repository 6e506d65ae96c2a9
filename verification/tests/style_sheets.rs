use css_lens::css::{blocks_closed, parse_css_content, parse_rules_at_level, strip_comments};
use css_lens::extent::find_rule_extent;
use css_lens::heads::{find_heads, position_of};
use css_lens::model::ClassMap;
use css_lens::pattern::Patterns;
use css_lens::scope::source_files;
use css_lens::style::{blocks_at, extract_style_blocks, parse_style_blocks};
use css_lens::vars::{read_var, refresh_var_map};

fn patterns() -> Patterns {
    Patterns::new().unwrap()
}

fn parsed(css: &str) -> ClassMap {
    let mut map = ClassMap::new();
    parse_css_content(&patterns(), css, 0, "a.css", "/p/a.css", &mut map);
    map
}

fn keys(map: &ClassMap) -> Vec<String> {
    (0..map.len()).map(|i| map.name_at(i).clone()).collect()
}

#[test]
fn rule_extent_single_line() {
    let css = ".btn { color: red; }\n.other { }";
    assert_eq!(find_rule_extent(css, 0), Some((0, 0)));
}

#[test]
fn rule_extent_multi_line() {
    let css = ".btn {\n  color: red;\n  font-size: 1rem;\n}\n.other { }";
    // .btn opens on line 0, closes on line 3
    assert_eq!(find_rule_extent(css, 0), Some((0, 3)));
}

#[test]
fn rule_extent_skips_to_definition_line() {
    let css = ".first { color: red; }\n\n.second {\n  display: flex;\n}\n";
    // .second is at line 2, closes at line 4
    assert_eq!(find_rule_extent(css, 2), Some((2, 4)));
}

#[test]
fn rule_extent_nested_media_query() {
    let css = "@media (max-width: 768px) {\n  .btn {\n    color: blue;\n  }\n}\n";
    // .btn is at line 1, its closing brace is line 3
    assert_eq!(find_rule_extent(css, 1), Some((1, 3)));
}

#[test]
fn rule_extent_comment_with_braces() {
    let css = ".btn {\n  /* } this brace is a comment */\n  color: red;\n}\n";
    assert_eq!(find_rule_extent(css, 0), Some((0, 3)));
}

#[test]
fn rule_extent_missing_line_returns_none() {
    let css = ".btn { color: red; }";
    assert_eq!(find_rule_extent(css, 5), None);
}

#[test]
fn rule_extent_ignores_braces_in_strings() {
    let css = ".a {\n  content: \"}\\\"}\";\n}\n";
    assert_eq!(find_rule_extent(css, 0), Some((0, 2)));
}

#[test]
fn rule_extent_counts_lines_continued_in_strings() {
    let css = ".a {\n  content: \"x\\\ny\";\n}\n";
    assert_eq!(find_rule_extent(css, 0), Some((0, 3)));
}

#[test]
fn rule_extent_of_an_open_block_is_unknown() {
    assert_eq!(find_rule_extent(".a { color: red;", 0), None);
    assert_eq!(find_rule_extent("} }", 0), None);
}

#[test]
fn comments_are_blanked_in_place() {
    let css = "a/* é\n*/b/*";
    let stripped = strip_comments(css);
    assert_eq!(stripped, "a    \n  b  ");
    assert_eq!(stripped.chars().count(), css.chars().count());
    assert_eq!(stripped.matches('\n').count(), css.matches('\n').count());
}

#[test]
fn a_slash_and_a_star_apart_are_no_comment() {
    assert_eq!(strip_comments("a / * b */ c"), "a / * b */ c");
}

#[test]
fn rules_are_filed_under_all_their_names() {
    let map = parsed("/* x */\n.btn.primary, #hero:not(.big) { color: red; }");
    assert_eq!(keys(&map), ["btn", "primary", "big", "#hero"]);
    let infos = map.get("btn").unwrap();
    assert_eq!(infos.len(), 1);
    assert_eq!(infos[0].definition_line, 1);
    assert_eq!(infos[0].properties, "color: red;");
    assert_eq!(infos[0].selector, ".btn.primary, #hero:not(.big)");
    assert_eq!(infos[0].source_file, "a.css");
    assert_eq!(infos[0].source_path, "/p/a.css");
    assert_eq!(infos[0].media_query, None);
    assert_eq!(infos[0].layer, None);
}

#[test]
fn at_rules_pass_their_context_on() {
    let css = "@media (min-width: 1px) {\n @layer base {\n  .a { color: red }\n }\n}\n@layer { .b { x: y } }\n@supports (x: y) { .c { x: y } }";
    let map = parsed(css);
    let a = &map.get("a").unwrap()[0];
    assert_eq!(a.media_query, Some("@media (min-width: 1px)".to_string()));
    assert_eq!(a.layer, Some("base".to_string()));
    assert_eq!(a.definition_line, 2);
    let b = &map.get("b").unwrap()[0];
    assert_eq!(b.media_query, None);
    assert_eq!(b.layer, None);
    assert_eq!(b.definition_line, 5);
    let c = &map.get("c").unwrap()[0];
    assert_eq!(c.media_query, Some("@supports (x: y)".to_string()));
}

#[test]
fn every_definition_is_kept_in_order() {
    let map = parsed(".a { x: 1 }\n.a { x: 2 }\n.a { }");
    let infos = map.get("a").unwrap();
    let lines: Vec<u32> = infos.iter().map(|i| i.definition_line).collect();
    assert_eq!(lines, [0, 1, 2]);
    assert_eq!(infos[1].properties, "x: 2");
    assert_eq!(infos[2].properties, "");
}

#[test]
fn strings_may_hold_braces() {
    let map = parsed(".a::before { content: \"} \\\" {\"; }\n.b { x: y }");
    assert_eq!(keys(&map), ["a", "b"]);
    assert_eq!(map.get("a").unwrap()[0].properties, "content: \"} \\\" {\";");
    assert_eq!(map.get("b").unwrap()[0].definition_line, 1);
}

#[test]
fn statements_and_stray_braces_end_a_selector() {
    let map = parsed("@import \"x.css\"; .a { x: y } } .b { x: y } .open { x: y");
    assert_eq!(keys(&map), ["a", "b", "open"]);
    assert_eq!(map.get("a").unwrap()[0].selector, ".a");
    assert_eq!(map.get("open").unwrap()[0].properties, "x: y");
}

#[test]
fn a_string_left_open_in_a_block_is_noticed() {
    assert!(!blocks_closed(".a { content: \"x }"));
    assert!(!blocks_closed("@media x { .a { content: 'x\\' } }"));
    assert!(blocks_closed(".a { content: \"x\" }"));
    assert!(blocks_closed(".a { x: y"));
    assert!(blocks_closed("\"open .a { x: y }"));
}

#[test]
fn a_level_starts_at_its_base_line_and_context() {
    let mut map = ClassMap::new();
    let layer = Some("ui".to_string());
    parse_rules_at_level(&patterns(), "\n.a{x:y}", 7, &None, &layer, "f", "/f", &mut map);
    let info = &map.get("a").unwrap()[0];
    assert_eq!(info.definition_line, 8);
    assert_eq!(info.layer, Some("ui".to_string()));
}

#[test]
fn extract_style_blocks_basic() {
    let html = "<style>.btn { color: red; }</style>";
    let blocks = extract_style_blocks(&patterns(), html);
    assert_eq!(blocks.len(), 1);
    assert_eq!(blocks[0].0, 0); // base_line = 0
    assert!(blocks[0].1.contains(".btn"));
}

#[test]
fn extract_style_blocks_line_offset() {
    let html = "<html>\n<head>\n<style>\n.btn { color: red; }\n</style>";
    let blocks = extract_style_blocks(&patterns(), html);
    assert_eq!(blocks.len(), 1);
    assert_eq!(blocks[0].0, 2); // <style> opens on line 2, content starts on line 2/3
}

#[test]
fn extract_style_blocks_multiple() {
    let html = "<style>.a{}</style>\n<style>.b{}</style>";
    let blocks = extract_style_blocks(&patterns(), html);
    assert_eq!(blocks.len(), 2);
}

#[test]
fn extract_style_blocks_none() {
    let html = "<div class=\"foo\"></div>";
    assert!(extract_style_blocks(&patterns(), html).is_empty());
}

#[test]
fn definitions_in_style_blocks_point_into_the_document() {
    let html = "<html>\n<style>\n.btn { color: red; }\n</style>";
    let blocks = extract_style_blocks(&patterns(), html);
    let mut map = ClassMap::new();
    parse_style_blocks(&patterns(), &blocks, "i.html", "/p/i.html", &mut map);
    assert_eq!(map.get("btn").unwrap()[0].definition_line, 2);
    assert_eq!(map.get("btn").unwrap()[0].source_file, "i.html");
}

#[test]
fn blocks_from_given_matches() {
    let text = "x\ny<style>é</style>";
    let blocks = blocks_at(text, &vec![vec![Some((3, 20)), Some((10, 12))]]);
    assert_eq!(blocks, vec![(1, "é".to_string())]);
}

#[test]
fn variables_are_read_line_by_line() {
    assert_eq!(read_var("  --a : b c;; "), Some(("--a".to_string(), "b c".to_string())));
    assert_eq!(read_var("--a:"), None);
    assert_eq!(read_var("color: red;"), None);
    assert_eq!(read_var("--a"), None);
}

#[test]
fn the_first_value_of_a_variable_counts() {
    let map = parsed(".a {\n  --x: 1;\n  --y: 2;\n}\n.b {\n  --x: 3;\n}");
    let vars = refresh_var_map(&map);
    assert_eq!(vars.len(), 2);
    assert_eq!(vars.get("--x"), Some(&"1".to_string()));
    assert_eq!(vars.get("--y"), Some(&"2".to_string()));
}

#[test]
fn a_rule_without_declarations_defines_its_names() {
    let map = parsed(".card {\n  \n}\n");
    assert_eq!(keys(&map), ["card"]);
    assert_eq!(map.get("card").unwrap()[0].definition_line, 0);
    assert_eq!(map.get("card").unwrap()[0].properties, "");
}

#[test]
fn names_may_begin_with_a_dash_or_an_underscore() {
    let map = parsed("._a.-b, #--c, .5x { x: y }");
    assert_eq!(keys(&map), ["_a", "-b", "#--c"]);
}

#[test]
fn variables_of_every_rule_are_collected() {
    let map = parsed(":root {\n  --primary-color: red;\n}\n");
    assert_eq!(map.len(), 0);
    assert_eq!(map.all_rules().len(), 1);
    assert_eq!(map.all_rules()[0].selector, ":root");
    let vars = refresh_var_map(&map);
    assert_eq!(vars.len(), 1);
    assert_eq!(vars.get("--primary-color"), Some(&"red".to_string()));
    assert_eq!(source_files(&map), ["/p/a.css"]);
}

#[test]
fn selectors_are_found_where_they_stand() {
    let css = "/* x */ .a,\n .b { x: \"{\" }\n@media y { #c{} }";
    let bare: Vec<char> = strip_comments(css).chars().collect();
    let chars: Vec<char> = css.chars().collect();
    let heads = find_heads(&bare);
    let shown: Vec<String> = heads.iter().map(|h| bare[h.0..h.1].iter().collect()).collect();
    assert_eq!(shown, [".a,\n .b", "#c"]);
    let start = position_of(&chars, heads[1].0);
    assert_eq!((start.line, start.character), (2, 11));
}

#[test]
fn columns_of_places_are_bytes() {
    let chars: Vec<char> = "x\né😀b".chars().collect();
    let at = position_of(&chars, 4);
    assert_eq!((at.line, at.character), (1, 6));
    let at = position_of(&chars, 2);
    assert_eq!((at.line, at.character), (1, 0));
}

#[test]
fn a_base_line_only_moves_definitions_down() {
    let css = "\n.a, #b { x: y }\n@media z {\n .a { } }";
    let alone = parsed(css);
    let mut map = parsed(".a { first: 1 }");
    parse_css_content(&patterns(), css, 10, "a.css", "/p/a.css", &mut map);
    let a: Vec<u32> = map.get("a").unwrap().iter().map(|i| i.definition_line).collect();
    assert_eq!(a, [0, 11, 13]);
    let own: Vec<u32> = alone.get("a").unwrap().iter().map(|i| i.definition_line).collect();
    assert_eq!(own, [1, 3]);
    assert_eq!(map.get("#b").unwrap()[0].definition_line, 11);
    assert_eq!(keys(&map), ["a", "#b"]);
}
