use css_lens::context::{
    completion_context, fragment_context, id_completion_context, in_class_attribute,
    in_id_attribute, in_style_attribute, is_inside, last_unquoted_semicolon, selector_key,
    style_context, value_at_end, words_around, StyleContext,
};
use css_lens::cursor::{
    build_insert_text, cursor_context, extract_prefix, is_valid_css_ident, utf16_offset_to_byte,
    word_at, word_at_ctx,
};
use css_lens::pattern::Patterns;
use css_lens::protocol::Position;
use css_lens::text::{decimal_text, split_lines, split_words, trimmed_text};

fn patterns() -> Patterns {
    Patterns::new().unwrap()
}

fn at(line: u32, character: u32) -> Position {
    Position { line, character }
}

#[test]
fn lines_end_at_line_feeds() {
    assert_eq!(split_lines("a\r\nb\n\nc\r"), ["a", "b", "", "c\r"]);
    assert_eq!(split_lines("a\n"), ["a"]);
    assert!(split_lines("").is_empty());
    assert_eq!(split_lines("\n"), [""]);
}

#[test]
fn white_space_is_trimmed_and_splits_words() {
    assert_eq!(trimmed_text("\u{3000} a b\u{a0}\n"), "a b");
    assert_eq!(trimmed_text(" \t "), "");
    assert_eq!(split_words(" a\u{2003}bc\n"), ["a", "bc"]);
    assert!(split_words("  ").is_empty());
}

#[test]
fn numbers_have_no_leading_zeros() {
    assert_eq!(decimal_text(0), "0");
    assert_eq!(decimal_text(4294967296), "4294967296");
    assert_eq!(decimal_text(u64::MAX), "18446744073709551615");
}

#[test]
fn columns_are_utf16_code_units() {
    assert_eq!(utf16_offset_to_byte("aéb", 2), 3);
    assert_eq!(utf16_offset_to_byte("a😀b", 1), 1);
    assert_eq!(utf16_offset_to_byte("a😀b", 2), 5);
    assert_eq!(utf16_offset_to_byte("a😀b", 3), 5);
    assert_eq!(utf16_offset_to_byte("abc", 9), 3);
    assert_eq!(utf16_offset_to_byte("", 4), 0);
}

#[test]
fn a_position_has_the_text_before_it() {
    let c = cursor_context("é\r\nxyz\n", at(1, 2)).unwrap();
    assert_eq!(c.before, "é\nxy");
    assert_eq!(c.behind, "z");
    assert_eq!(c.line, "xyz");
    assert_eq!(c.col, 2);
    assert!(cursor_context("a\n", at(1, 0)).is_none());
}

#[test]
fn a_word_is_the_longest_run_of_name_characters() {
    assert_eq!(word_at_ctx("é btn--x_1 b", 5), Some("btn--x_1".to_string()));
    assert_eq!(word_at_ctx("é btn", 2), None);
    assert_eq!(word_at_ctx("btn", 3), None);
    assert_eq!(word_at("x\n a-b ", at(1, 1)), Some("a-b".to_string()));
    assert_eq!(word_at("x", at(4, 0)), None);
}

#[test]
fn identifiers_are_ascii_and_begin_with_no_digit() {
    assert!(is_valid_css_ident("btn-2_x"));
    assert!(is_valid_css_ident("--x"));
    assert!(!is_valid_css_ident("2col"));
    assert!(!is_valid_css_ident(""));
    assert!(!is_valid_css_ident("a b"));
    assert!(!is_valid_css_ident("é"));
    assert!(!is_valid_css_ident("a{}"));
}

#[test]
fn the_prefix_is_what_a_text_ends_with() {
    assert_eq!(extract_prefix("a bt-n"), "bt-n");
    assert_eq!(extract_prefix("a "), "");
    assert_eq!(extract_prefix("btn"), "btn");
    assert_eq!(extract_prefix("é1"), "1");
}

#[test]
fn spaces_keep_inserted_names_apart() {
    assert_eq!(build_insert_text("x", "ab", 1), " x ");
    assert_eq!(build_insert_text("x", "a b", 1), " x");
    assert_eq!(build_insert_text("x", "a b", 2), "x ");
    assert_eq!(build_insert_text("x", "", 0), "x");
    assert_eq!(build_insert_text("x", "a", 7), "x");
}

#[test]
fn positions_inside_attribute_values() {
    let p = patterns();
    let html = "<p CLASS = 'a b' id=\"c\" style='d'\n class=\"x\ny";
    assert!(in_class_attribute(&p, html, at(0, 12)));
    assert!(in_class_attribute(&p, html, at(0, 15)));
    assert!(!in_class_attribute(&p, html, at(0, 16)));
    assert!(in_id_attribute(&p, html, at(0, 22)));
    assert!(!in_id_attribute(&p, html, at(0, 23)));
    assert!(in_style_attribute(&p, html, at(0, 32)));
    assert!(in_class_attribute(&p, html, at(2, 1)));
    assert!(!in_class_attribute(&p, html, at(9, 0)));
}

#[test]
fn inside_a_value_from_given_matches() {
    let before = "class='a";
    let matches = vec![vec![Some((0, 7)), Some((6, 7))]];
    assert!(is_inside(before, &matches));
    assert_eq!(value_at_end(before, &matches), Some(("a".to_string(), '\'')));
    assert!(!is_inside("class='a'", &matches));
    assert!(!is_inside(before, &vec![]));
    assert_eq!(value_at_end(before, &vec![]), None);
}

#[test]
fn semicolons_in_strings_do_not_count() {
    let chars: Vec<char> = "a;b:\"x;'\";c".chars().collect();
    assert_eq!(last_unquoted_semicolon(&chars), Some(9));
    let open: Vec<char> = "a;b:\"x;".chars().collect();
    assert_eq!(last_unquoted_semicolon(&open), Some(1));
    let none: Vec<char> = "abc".chars().collect();
    assert_eq!(last_unquoted_semicolon(&none), None);
}

#[test]
fn style_fragments_have_a_context() {
    match fragment_context("color: red; Back") {
        StyleContext::PropertyName { prefix } => assert_eq!(prefix, "Back"),
        _ => panic!(),
    }
    match fragment_context("content: \"a;b\"; Animation-Name : spi") {
        StyleContext::PropertyValue { property, prefix } => {
            assert_eq!(property, "animation-name");
            assert_eq!(prefix, "spi");
        }
        _ => panic!(),
    }
}

#[test]
fn style_context_of_a_position() {
    let p = patterns();
    match style_context(&p, "<p style=\"color: re\">", at(0, 19)) {
        StyleContext::PropertyValue { property, prefix } => {
            assert_eq!(property, "color");
            assert_eq!(prefix, "re");
        }
        _ => panic!(),
    }
    assert!(matches!(style_context(&p, "<p>", at(0, 1)), StyleContext::Outside));
    assert!(matches!(style_context(&p, "<p>", at(3, 1)), StyleContext::Outside));
}

#[test]
fn the_value_around_a_position_has_other_words() {
    let (others, prefix) = words_around("Btn ca", "rd x\" y", '"');
    assert_eq!(others, ["btn", "card", "x"]);
    assert_eq!(prefix, "ca");
    let (others, prefix) = words_around("btn CA", "", '"');
    assert_eq!(others, ["btn"]);
    assert_eq!(prefix, "CA");
    let p = patterns();
    let (others, prefix) = completion_context(&p, "<p class=\"a b\" id=\"\">", at(0, 13));
    assert_eq!(others, ["a"]);
    assert_eq!(prefix, "b");
    let (others, prefix) = completion_context(&p, "<div class=\"a \n  btn\">", at(0, 14));
    assert_eq!(others, ["a", "btn"]);
    assert_eq!(prefix, "");
    let (others, prefix) = completion_context(&p, "<p class=\"btn btn", at(0, 17));
    assert_eq!(others, ["btn"]);
    assert_eq!(prefix, "btn");
    let (others, _) = completion_context(&p, "<p class=\"a \n<p class=\"b\">", at(0, 12));
    assert_eq!(others, ["a"]);
    let (others, prefix) = completion_context(&p, "<p>", at(0, 1));
    assert!(others.is_empty());
    assert_eq!(prefix, "");
}

#[test]
fn an_id_value_holds_one_word() {
    let p = patterns();
    assert_eq!(id_completion_context(&p, "<p id=\"he\">", at(0, 9)), (false, "he".to_string()));
    assert_eq!(id_completion_context(&p, "<p id=\"he \">", at(0, 10)), (true, "".to_string()));
    assert_eq!(id_completion_context(&p, "<p>", at(0, 1)), (false, "".to_string()));
}

#[test]
fn names_at_a_position_are_keys() {
    let p = patterns();
    let html = "<p class=\"btn\" id=\"hero\">";
    assert_eq!(selector_key(&p, html, at(0, 11)), Some("btn".to_string()));
    assert_eq!(selector_key(&p, html, at(0, 20)), Some("#hero".to_string()));
    assert_eq!(selector_key(&p, html, at(0, 1)), None);
    assert_eq!(selector_key(&p, html, at(0, 13)), None);
}
