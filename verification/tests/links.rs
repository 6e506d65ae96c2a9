use css_lens::links::{extract_imports, extract_linked_css, import_target, link_target};
use css_lens::pattern::Patterns;

fn patterns() -> Patterns {
    Patterns::new().unwrap()
}

#[test]
fn extract_linked_css_basic() {
    let html = r#"<link rel="stylesheet" href="styles.css">"#;
    assert_eq!(extract_linked_css(&patterns(), html), vec!["styles.css"]);
}

#[test]
fn extract_linked_css_href_before_rel() {
    let html = r#"<link href="main.css" rel="stylesheet">"#;
    assert_eq!(extract_linked_css(&patterns(), html), vec!["main.css"]);
}

#[test]
fn extract_linked_css_skips_network() {
    let html = r#"<link rel="stylesheet" href="https://cdn.example.com/style.css">"#;
    assert!(extract_linked_css(&patterns(), html).is_empty());
}

#[test]
fn extract_linked_css_skips_absolute_path() {
    let html = r#"<link rel="stylesheet" href="/assets/style.css">"#;
    assert!(extract_linked_css(&patterns(), html).is_empty());
}

#[test]
fn extract_linked_css_strips_query_string() {
    let html = r#"<link rel="stylesheet" href="styles.css?v=123">"#;
    assert_eq!(extract_linked_css(&patterns(), html), vec!["styles.css"]);
}

#[test]
fn extract_linked_css_ignores_non_stylesheet() {
    let html = r#"<link rel="icon" href="favicon.ico">"#;
    assert!(extract_linked_css(&patterns(), html).is_empty());
}

#[test]
fn extract_linked_css_multiple() {
    let html = r#"
            <link rel="stylesheet" href="base.css">
            <link rel="stylesheet" href="theme.css">
            <link rel="icon" href="favicon.ico">
        "#;
    let links = extract_linked_css(&patterns(), html);
    assert_eq!(links.len(), 2);
    assert!(links.contains(&"base.css".to_string()));
    assert!(links.contains(&"theme.css".to_string()));
}

#[test]
fn a_link_without_an_address_is_skipped() {
    assert!(extract_linked_css(&patterns(), "<link rel='stylesheet'>").is_empty());
    assert_eq!(link_target("#top"), None);
    assert_eq!(link_target("//x/y.css"), None);
    assert_eq!(link_target("http://x/y.css"), None);
    assert_eq!(link_target("a.css#x?y"), Some("a.css".to_string()));
    assert_eq!(link_target("a.css?x#y"), Some("a.css".to_string()));
}

#[test]
fn imports_are_local_files() {
    let css = "@import \"base\";\n@import url('theme.scss');\n@import 'http://x/y.css';\n@import '/etc/x.css';\n@import '//x.css';";
    assert_eq!(extract_imports(&patterns(), css), vec!["base.css", "theme.scss"]);
}

#[test]
fn import_targets_from_given_paths() {
    assert_eq!(import_target("base".to_string(), false), Some("base.css".to_string()));
    assert_eq!(import_target("base".to_string(), true), None);
    assert_eq!(import_target("https://x".to_string(), false), None);
    assert_eq!(import_target("../a.b/c".to_string(), false), Some("../a.b/c".to_string()));
}
