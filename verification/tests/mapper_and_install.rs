use css_lens::install::{
    label_for_completion, next_step, plan_installation, release_target, Architecture, Os, Outcome,
    Plan, Platform, Step,
};
use css_lens::mapper::{
    file_mapped_rule, forget_mapped, in_mapped_attribute, is_between_characters, map_css_content,
    mapped_completions, mapped_hover, mapped_word_at, MappedClasses,
};
use css_lens::model::DocumentMap;
use css_lens::order::{at_most, sort};
use css_lens::pattern::Patterns;
use css_lens::protocol::Position;
use css_lens::table::Table;

const PAGE: &str = "file:///p/i.html";

fn patterns() -> Patterns {
    Patterns::new().unwrap()
}

fn at(line: u32, character: u32) -> Position {
    Position { line, character }
}

fn mapped(css: &str) -> MappedClasses {
    let mut map: MappedClasses = Table::new();
    map_css_content(&patterns(), css, "a.css", "/p/a.css", &mut map);
    map
}

fn page(text: &str) -> DocumentMap {
    let mut d: DocumentMap = Table::new();
    d.insert(PAGE.to_string(), text.to_string());
    d
}

#[test]
fn the_last_definition_of_a_class_counts() {
    let map = mapped("/* .no { x: y } */ .a:hover, .b { x: 1 } @media x { .a { x: 2 } } .c { }");
    assert_eq!(map.len(), 2);
    assert_eq!(map.get("a").unwrap().properties, "x: 2");
    assert_eq!(map.get("b").unwrap().properties, "x: 1");
    assert_eq!(map.get("b").unwrap().source_file, "a.css");
}

#[test]
fn mapped_rules_from_given_classes() {
    let mut map: MappedClasses = Table::new();
    file_mapped_rule(&vec![".x".to_string()], " y ", "f", "/f", &mut map);
    assert_eq!(map.get("x").unwrap().properties, "y");
    file_mapped_rule(&vec![".z".to_string()], "  ", "f", "/f", &mut map);
    assert_eq!(map.len(), 1);
}

#[test]
fn mapped_classes_are_forgotten_by_path() {
    let mut map = mapped(".a { x: y }");
    map_css_content(&patterns(), ".b { x: y }", "a.css", "/q/a.css", &mut map);
    forget_mapped(&mut map, "/p/a.css");
    assert_eq!(map.len(), 1);
    assert!(map.get("b").is_some());
}

#[test]
fn the_mapper_counts_columns_in_bytes() {
    let p = patterns();
    assert!(is_between_characters("é class='a", at(0, 10)));
    assert!(!is_between_characters("é", at(0, 1)));
    assert!(is_between_characters("é", at(0, 9)));
    assert!(is_between_characters("é", at(9, 1)));
    assert!(in_mapped_attribute(&p, "é class='a'", at(0, 10)));
    assert!(!in_mapped_attribute(&p, "é class='a'", at(0, 12)));
    assert!(!in_mapped_attribute(&p, "é", at(5, 0)));
    assert_eq!(mapped_word_at("é ab", at(0, 4)), Some("ab".to_string()));
    assert_eq!(mapped_word_at("é ab", at(0, 0)), None);
    assert_eq!(mapped_word_at("é ab", at(1, 0)), None);
}

#[test]
fn the_mapper_offers_all_classes() {
    let p = patterns();
    let map = mapped(".a { x: y } .b { x: y }");
    let offered = mapped_completions(&p, PAGE, at(0, 10), &map, &page("<p class=\"a\">")).unwrap();
    let expected = vec![
        ("a".to_string(), "a.css".to_string()),
        ("b".to_string(), "a.css".to_string()),
    ];
    assert_eq!(offered, expected);
    assert!(mapped_completions(&p, PAGE, at(0, 1), &map, &page("<p>")).is_none());
    assert!(mapped_completions(&p, "file:///x", at(0, 1), &map, &page("<p>")).is_none());
}

#[test]
fn the_mapper_shows_one_definition() {
    let p = patterns();
    let map = mapped(".a { x: y }");
    let shown = mapped_hover(&p, PAGE, at(0, 10), &map, &page("<p class=\"a b\">"));
    assert_eq!(shown, Some("**a** — a.css\n\n```css\n.a {\nx: y\n}\n```".to_string()));
    assert_eq!(mapped_hover(&p, PAGE, at(0, 12), &map, &page("<p class=\"a b\">")), None);
    assert_eq!(mapped_hover(&p, PAGE, at(0, 11), &map, &page("<p class=\"a b\">")), None);
    assert_eq!(mapped_hover(&p, PAGE, at(0, 0), &map, &page("a")), None);
}

fn platform(os: Os, arch: Architecture) -> Platform {
    Platform { os, arch, os_name: "Os::X".to_string(), arch_name: "Arch::Y".to_string() }
}

#[test]
fn builds_exist_for_three_platforms() {
    let target = |os, arch| release_target(&platform(os, arch)).map(|t| t.to_string());
    assert_eq!(target(Os::Mac, Architecture::Aarch64), Ok("aarch64-apple-darwin".to_string()));
    assert_eq!(target(Os::Mac, Architecture::X8664), Ok("x86_64-apple-darwin".to_string()));
    assert_eq!(target(Os::Linux, Architecture::X8664), Ok("x86_64-unknown-linux-gnu".to_string()));
    assert_eq!(
        target(Os::Windows, Architecture::X8664),
        Err("Windows is not yet supported".to_string())
    );
    assert_eq!(
        target(Os::Linux, Architecture::X86),
        Err("Unsupported platform/architecture combination: Os::X/Arch::Y".to_string())
    );
}

#[test]
fn an_installation_is_planned() {
    let here = platform(Os::Linux, Architecture::X8664);
    let assets = vec!["other".to_string(), "css-lens-v1-x86_64-unknown-linux-gnu.tar.gz".to_string()];
    let plan = plan_installation(&here, "v1", &assets).unwrap();
    assert_eq!(plan.asset, 1);
    assert_eq!(plan.asset_name, assets[1]);
    assert_eq!(plan.binary_dir, "css-lens-v1");
    assert_eq!(plan.binary_path, "css-lens-v1/css-lens");
    assert_eq!(
        plan_installation(&here, "v2", &vec!["a".to_string(), "b\"c".to_string()]).unwrap_err(),
        "Asset 'css-lens-v2-x86_64-unknown-linux-gnu.tar.gz' not found in release v2. Available assets: [\"a\", \"b\\\"c\"]"
    );
    assert!(plan_installation(&platform(Os::Windows, Architecture::X86), "v1", &assets).is_err());
}

fn a_plan() -> Plan {
    Plan {
        asset: 0,
        asset_name: "x.tar.gz".to_string(),
        binary_dir: "d".to_string(),
        binary_path: "d/css-lens".to_string(),
    }
}

fn done() -> Outcome {
    Outcome::Done { plan: None }
}

fn failed() -> Outcome {
    Outcome::Failed { message: "why".to_string() }
}

fn failure(step: Step) -> String {
    match step {
        Step::Fail { message } => message,
        _ => panic!(),
    }
}

#[test]
fn installation_goes_step_by_step() {
    assert!(matches!(next_step(Step::FetchLatest, done()), Step::Choose));
    assert!(matches!(next_step(Step::FetchLatest, failed()), Step::FetchFallback));
    assert!(matches!(next_step(Step::FetchFallback, done()), Step::Choose));
    assert_eq!(
        failure(next_step(Step::FetchFallback, failed())),
        "Failed to fetch any GitHub release from css-lens (tried latest and v0.9.0): why"
    );
    let chosen = Outcome::Done { plan: Some(a_plan()) };
    assert!(matches!(next_step(Step::Choose, chosen), Step::CheckBinary { .. }));
    assert_eq!(failure(next_step(Step::Choose, failed())), "why");
    let check = || Step::CheckBinary { plan: a_plan() };
    assert!(matches!(next_step(check(), done()), Step::Start { .. }));
    assert!(matches!(next_step(check(), failed()), Step::Download { .. }));
    let download = || Step::Download { plan: a_plan() };
    assert!(matches!(next_step(download(), done()), Step::MakeExecutable { .. }));
    assert_eq!(failure(next_step(download(), failed())), "Failed to download 'x.tar.gz': why");
    let make = || Step::MakeExecutable { plan: a_plan() };
    match next_step(make(), done()) {
        Step::Start { path } => assert_eq!(path, "d/css-lens"),
        _ => panic!(),
    }
    assert_eq!(failure(next_step(make(), failed())), "Failed to make 'd/css-lens' executable: why");
}

#[test]
fn completions_are_labelled_with_their_file() {
    assert_eq!(
        label_for_completion("é", &Some("a.css".to_string())),
        ("é — a.css".to_string(), 2)
    );
    assert_eq!(label_for_completion("b", &Some(String::new())), ("b".to_string(), 1));
    assert_eq!(label_for_completion("b", &None), ("b".to_string(), 1));
}

#[test]
fn texts_are_ordered_by_bytes() {
    assert!(at_most("", "a"));
    assert!(at_most("B", "a"));
    assert!(at_most("a", "a"));
    assert!(!at_most("ab", "a"));
    assert!(at_most("z", "é"));
    let list: Vec<String> = ["b", "", "é", "ab", "a", "b"].iter().map(|s| s.to_string()).collect();
    assert_eq!(sort(list), ["", "a", "ab", "b", "b", "é"]);
}
