//! Attribute values around a position of a document.

use crate::bytes::{lemma_boundary_ends, slice, slice_text};
use crate::cursor::{cursor, cursor_context, extract_prefix, name_tail, word_at, word_at_position};
use crate::html::{attr_matches_ok, match_quote, opened_value, Groups, Matches};
use crate::model::opt_text;
use crate::pattern::is_name_char;
use crate::pattern::{
    ends_with_quote, group_lists, is_groups, regex_captures, whole, Patterns, CLASS_ATTR_RE,
    ID_ATTR_RE, STYLE_ATTR_RE,
};
use crate::protocol::Position;
use crate::text::{
    chars_of, find_from, index_from, is_white, lowercase, split_words, string_of, texts, trim,
    trimmed, white, words,
};
use vstd::prelude::*;
use vstd::slice::slice_subrange;
use vstd::string::StringExecFns;
use vstd::utf8::encode_utf8;

verus! {

/// The attributes whose values are looked into.
#[derive(Clone, Copy, Debug, PartialEq, Eq, Structural)]
pub enum Attribute {
    Class,
    Id,
    Style,
}

/// The pattern that finds where a value of the attribute opens.
pub open spec fn attribute_pattern(attribute: Attribute) -> Seq<char> {
    match attribute {
        Attribute::Class => CLASS_ATTR_RE@,
        Attribute::Id => ID_ATTR_RE@,
        Attribute::Style => STYLE_ATTR_RE@,
    }
}

/// The places in a text where a value of the attribute opens.
pub open spec fn openings(text: Seq<char>, attribute: Attribute) -> Seq<Groups> {
    regex_captures(attribute_pattern(attribute), text)
}

/// The places in a text where a value of the attribute opens.
fn find_openings(patterns: &Patterns, text: &str, attribute: Attribute) -> (r: Matches)
    ensures
        group_lists(r@) == openings(text@, attribute),
        attr_matches_ok(text@, group_lists(r@)),
{
    let pattern = match attribute {
        Attribute::Class => patterns.class_attr_re(),
        Attribute::Id => patterns.id_attr_re(),
        Attribute::Style => patterns.style_attr_re(),
    };
    let r = pattern.captures_all(text);
    proof {
        let found = group_lists(r@);
        assert forall|i: int| 0 <= i < found.len() implies is_groups(text@, #[trigger] found[i])
            && ends_with_quote(text@, found[i]) by {
            assert(found[i] == r@[i]@);
        }
    }
    r
}

/// What follows the last place where a value opens.
pub open spec fn last_value(before: Seq<char>, matches: Seq<Groups>) -> Option<Seq<char>> {
    if matches.len() > 0 {
        Some(slice(before, whole(matches.last()).1 as int, encode_utf8(before).len() as int))
    } else {
        None
    }
}

/// The quote with which the last value opens.
pub open spec fn last_quote(before: Seq<char>, matches: Seq<Groups>) -> char {
    if match_quote(before, matches.last()) == 0x22 {
        '"'
    } else {
        '\''
    }
}

/// Whether the last value that opens is still open at the end of the text.
pub open spec fn ends_inside(before: Seq<char>, matches: Seq<Groups>) -> bool {
    &&& matches.len() > 0
    &&& forall|j: int|
        whole(matches.last()).1 <= j < encode_utf8(before).len() ==> #[trigger] encode_utf8(
            before,
        )[j] != match_quote(before, matches.last())
}

/// What follows the last place where a value opens, and the quote that opens it.
pub fn value_at_end(before: &str, matches: &Matches) -> (r: Option<(String, char)>)
    requires
        attr_matches_ok(before@, group_lists(matches@)),
    ensures
        r is Some == (matches@.len() > 0),
        r is Some ==> Some((r->0).0@) == last_value(before@, group_lists(matches@)) && (r->0).1
            == last_quote(before@, group_lists(matches@)),
{
    let n: usize = matches.len();
    if n == 0 {
        return None;
    }
    proof {
        let all = group_lists(matches@);
        assert(all[n - 1] == matches@[n - 1]@);
        assert(is_groups(before@, all[n - 1]));
        lemma_boundary_ends(before@);
    }
    let (start, quote) = opened_value(before, &matches[n - 1]);
    let end: usize = before.as_bytes().len();
    let value = slice_text(before, start, end);
    Some(
        (
            value,
            if quote == 0x22 {
                '"'
            } else {
                '\''
            },
        ),
    )
}

/// Whether the last value that opens is still open at the end of the text.
pub fn is_inside(before: &str, matches: &Matches) -> (r: bool)
    requires
        attr_matches_ok(before@, group_lists(matches@)),
    ensures
        r == ends_inside(before@, group_lists(matches@)),
{
    let n: usize = matches.len();
    if n == 0 {
        return false;
    }
    proof {
        let all = group_lists(matches@);
        assert(all[n - 1] == matches@[n - 1]@);
        assert(is_groups(before@, all[n - 1]));
        assert(all[n - 1][0] is Some);
    }
    let b = before.as_bytes();
    let total: usize = b.len();
    let (start, quote) = opened_value(before, &matches[n - 1]);
    let mut j: usize = start;
    while j < total
        invariant
            start <= j <= total,
            total == b@.len(),
            b@ == encode_utf8(before@),
            forall|i: int| start <= i < j ==> #[trigger] b@[i] != quote,
            matches@.len() > 0,
            start == whole(group_lists(matches@).last()).1,
            quote == match_quote(before@, group_lists(matches@).last()),
        decreases total - j,
    {
        if b[j] == quote {
            proof {
                assert(encode_utf8(before@)[j as int] == match_quote(
                    before@,
                    group_lists(matches@).last(),
                ));
            }
            return false;
        }
        j = j + 1;
    }
    true
}

/// Whether a text ends inside a value of the attribute.
pub fn in_attr_before(patterns: &Patterns, before: &str, attribute: Attribute) -> (r: bool)
    ensures
        r == ends_inside(before@, openings(before@, attribute)),
{
    let matches = find_openings(patterns, before, attribute);
    is_inside(before, &matches)
}

/// Whether a position lies inside a value of the attribute.
pub open spec fn inside_attr(text: Seq<char>, pos: Position, attribute: Attribute) -> bool {
    match cursor(text, pos) {
        Some(c) => ends_inside(c.before, openings(c.before, attribute)),
        None => false,
    }
}

/// Whether a position lies inside a value of the attribute.
pub fn in_attr(patterns: &Patterns, text: &str, pos: Position, attribute: Attribute) -> (r: bool)
    ensures
        r == inside_attr(text@, pos, attribute),
{
    match cursor_context(text, pos) {
        Some(c) => in_attr_before(patterns, c.before.as_str(), attribute),
        None => false,
    }
}

/// Whether a position lies inside a `class` value.
pub fn in_class_attribute(patterns: &Patterns, text: &str, pos: Position) -> (r: bool)
    ensures
        r == inside_attr(text@, pos, Attribute::Class),
{
    in_attr(patterns, text, pos, Attribute::Class)
}

/// Whether a position lies inside an `id` value.
pub fn in_id_attribute(patterns: &Patterns, text: &str, pos: Position) -> (r: bool)
    ensures
        r == inside_attr(text@, pos, Attribute::Id),
{
    in_attr(patterns, text, pos, Attribute::Id)
}

/// Whether a position lies inside a `style` value.
pub fn in_style_attribute(patterns: &Patterns, text: &str, pos: Position) -> (r: bool)
    ensures
        r == inside_attr(text@, pos, Attribute::Style),
{
    in_attr(patterns, text, pos, Attribute::Style)
}

/// After the first `k` characters: the quote of the string that is open, and the index of the last
/// semicolon outside strings.
pub open spec fn semicolon_scan(s: Seq<char>, k: int) -> (Option<char>, Option<int>)
    decreases k,
{
    if k <= 0 {
        (None, None)
    } else {
        let (quote, semicolon) = semicolon_scan(s, k - 1);
        let c = s[k - 1];
        match quote {
            Some(q) => if c == q {
                (None, semicolon)
            } else {
                (quote, semicolon)
            },
            None => if c == '\'' || c == '"' {
                (Some(c), semicolon)
            } else if c == ';' {
                (None, Some(k - 1))
            } else {
                (None, semicolon)
            },
        }
    }
}

/// The index of the last semicolon that is not inside a string.
pub fn last_unquoted_semicolon(s: &[char]) -> (r: Option<usize>)
    ensures
        r is Some == (semicolon_scan(s@, s@.len() as int).1 is Some),
        r is Some ==> r->0 == semicolon_scan(s@, s@.len() as int).1->0 && r->0 < s@.len(),
{
    let n: usize = s.len();
    let mut quote: Option<char> = None;
    let mut last: Option<usize> = None;
    let mut i: usize = 0;
    while i < n
        invariant
            i <= n,
            n == s@.len(),
            quote == semicolon_scan(s@, i as int).0,
            last is Some == (semicolon_scan(s@, i as int).1 is Some),
            last is Some ==> last->0 == semicolon_scan(s@, i as int).1->0 && last->0 < n,
        decreases n - i,
    {
        let c = s[i];
        match quote {
            Some(q) => {
                if c == q {
                    quote = None;
                }
            },
            None => {
                if c == '\'' || c == '"' {
                    quote = Some(c);
                } else if c == ';' {
                    last = Some(i);
                }
            },
        }
        i = i + 1;
    }
    last
}

/// Where in a `style` value a position lies: in the name of a property, in its value, or in no
/// declaration.
#[derive(Debug)]
pub enum StyleContext {
    PropertyName { prefix: String },
    PropertyValue { property: String, prefix: String },
    Outside,
}

/// What a `StyleContext` says.
pub ghost enum StyleContextView {
    PropertyName { prefix: Seq<char> },
    PropertyValue { property: Seq<char>, prefix: Seq<char> },
    Outside,
}

impl DeepView for StyleContext {
    type V = StyleContextView;

    open spec fn deep_view(&self) -> StyleContextView {
        match self {
            StyleContext::PropertyName { prefix } => StyleContextView::PropertyName {
                prefix: prefix@,
            },
            StyleContext::PropertyValue { property, prefix } => StyleContextView::PropertyValue {
                property: property@,
                prefix: prefix@,
            },
            StyleContext::Outside => StyleContextView::Outside,
        }
    }
}

/// The declaration that a fragment of a `style` value ends in: what follows the last semicolon
/// outside strings.
pub open spec fn active_declaration(fragment: Seq<char>) -> Seq<char> {
    match semicolon_scan(fragment, fragment.len() as int).1 {
        Some(i) => fragment.skip(i + 1),
        None => fragment,
    }
}

/// The context at the end of a declaration.
pub open spec fn declaration_context(active: Seq<char>) -> StyleContextView {
    let colon = index_from(active, ':', 0);
    if colon < active.len() {
        StyleContextView::PropertyValue {
            property: lowercase(trim(active.take(colon))),
            prefix: name_tail(active.skip(colon + 1)),
        }
    } else {
        StyleContextView::PropertyName { prefix: name_tail(active) }
    }
}

/// The context at the end of a fragment of a `style` value.
pub fn fragment_context(fragment: &str) -> (r: StyleContext)
    ensures
        r.deep_view() == declaration_context(active_declaration(fragment@)),
{
    let chars = chars_of(fragment);
    let all = chars.as_slice();
    let n: usize = all.len();
    let start: usize = match last_unquoted_semicolon(all) {
        Some(i) => i + 1,
        None => 0,
    };
    let active = slice_subrange(all, start, n);
    proof {
        assert(active@ =~= active_declaration(fragment@));
    }
    let colon: usize = find_from(active, ':', 0);
    if colon < active.len() {
        let property_text = string_of(trimmed(slice_subrange(active, 0, colon)));
        let value = string_of(slice_subrange(active, colon + 1, active.len()));
        proof {
            assert(active@.subrange(0, colon as int) =~= active@.take(colon as int));
            assert(value@ =~= active@.skip(colon + 1));
        }
        StyleContext::PropertyValue {
            property: property_text.as_str().to_lowercase(),
            prefix: extract_prefix(value.as_str()),
        }
    } else {
        let name = string_of(active);
        StyleContext::PropertyName { prefix: extract_prefix(name.as_str()) }
    }
}

/// The context of a position with respect to the last `style` value that opens before it.
pub open spec fn style_context_at(text: Seq<char>, pos: Position) -> StyleContextView {
    match cursor(text, pos) {
        None => StyleContextView::Outside,
        Some(c) => match last_value(c.before, openings(c.before, Attribute::Style)) {
            None => StyleContextView::Outside,
            Some(fragment) => declaration_context(active_declaration(fragment)),
        },
    }
}

/// The context of a position with respect to the last `style` value that opens before it.
pub fn style_context(patterns: &Patterns, text: &str, pos: Position) -> (r: StyleContext)
    ensures
        r.deep_view() == style_context_at(text@, pos),
{
    let c = match cursor_context(text, pos) {
        Some(c) => c,
        None => {
            return StyleContext::Outside;
        },
    };
    let matches = find_openings(patterns, c.before.as_str(), Attribute::Style);
    match value_at_end(c.before.as_str(), &matches) {
        None => StyleContext::Outside,
        Some((fragment, _)) => fragment_context(fragment.as_str()),
    }
}

/// The first index at or after `i` that holds the quote or a `<`, or the length.
pub open spec fn value_close(s: Seq<char>, quote: char, i: int) -> int
    decreases s.len() - i,
{
    if i >= s.len() {
        s.len() as int
    } else if s[i] == quote || s[i] == '<' {
        i
    } else {
        value_close(s, quote, i + 1)
    }
}

/// The part of a value behind a position: what follows up to the closing quote or the next `<`,
/// whichever comes first.
pub open spec fn value_rest(behind: Seq<char>, quote: char) -> Seq<char> {
    behind.take(value_close(behind, quote, 0))
}

/// Whether the name characters before a position are a word of their own.
pub open spec fn is_whole_word(value_before: Seq<char>, rest: Seq<char>) -> bool {
    let start = value_before.len() - name_tail(value_before).len();
    (start <= 0 || is_white(value_before[start - 1])) && (rest.len() == 0 || is_white(rest[0]))
}

/// The words that the value around a position lists, without the word being typed there.
pub open spec fn listed_words(value_before: Seq<char>, behind: Seq<char>, quote: char) -> Seq<
    Seq<char>,
> {
    let rest = value_rest(behind, quote);
    if is_whole_word(value_before, rest) {
        words(value_before.take(value_before.len() - name_tail(value_before).len())) + words(rest)
    } else {
        words(value_before + rest)
    }
}

/// Texts in lowercase.
pub open spec fn all_lowercase(all: Seq<Seq<char>>) -> Seq<Seq<char>> {
    all.map_values(|s: Seq<char>| lowercase(s))
}

/// The words that the value around a position lists, in lowercase, and the word being typed.
pub open spec fn value_words(
    value_before: Seq<char>,
    behind: Seq<char>,
    quote: char,
) -> (Seq<Seq<char>>, Seq<char>) {
    (all_lowercase(listed_words(value_before, behind, quote)), name_tail(value_before))
}

proof fn lemma_name_tail_len(s: Seq<char>)
    ensures
        name_tail(s).len() <= s.len(),
    decreases s.len(),
{
    if s.len() > 0 && is_name_char(s.last()) {
        lemma_name_tail_len(s.drop_last());
    }
}

/// The part of a value behind a position.
fn rest_of_value(behind: &str, quote: char) -> (r: String)
    ensures
        r@ == value_rest(behind@, quote),
{
    let chars = chars_of(behind);
    let n: usize = chars.len();
    let mut i: usize = 0;
    while i < n && chars[i] != quote && chars[i] != '<'
        invariant
            i <= n,
            n == chars@.len(),
            value_close(chars@, quote, 0) == value_close(chars@, quote, i as int),
        decreases n - i,
    {
        i = i + 1;
    }
    let r = string_of(slice_subrange(chars.as_slice(), 0, i));
    proof {
        assert(r@ =~= value_rest(behind@, quote));
    }
    r
}

/// The words that the value around a position lists, in lowercase, and the word being typed.
pub fn words_around(value_before: &str, behind: &str, quote: char) -> (r: (Vec<String>, String))
    ensures
        (texts(r.0@), r.1@) == value_words(value_before@, behind@, quote),
{
    let prefix = extract_prefix(value_before);
    let rest = rest_of_value(behind, quote);
    let chars = chars_of(value_before);
    let rest_chars = chars_of(rest.as_str());
    let typed = chars_of(prefix.as_str());
    proof {
        lemma_name_tail_len(value_before@);
    }
    let start: usize = chars.len() - typed.len();
    let whole = (start == 0 || white(chars[start - 1])) && (rest_chars.len() == 0 || white(
        rest_chars[0],
    ));
    let all: Vec<String> = if whole {
        let left = string_of(slice_subrange(chars.as_slice(), 0, start));
        let mut all = split_words(left.as_str());
        let mut more = split_words(rest.as_str());
        let ghost a = texts(all@);
        let ghost b = texts(more@);
        all.append(&mut more);
        proof {
            assert(left@ =~= value_before@.take(start as int));
            assert(texts(all@) =~= a + b);
        }
        all
    } else {
        let mut full = value_before.to_owned();
        full.append(rest.as_str());
        split_words(full.as_str())
    };
    proof {
        assert(texts(all@) == listed_words(value_before@, behind@, quote));
    }
    let n: usize = all.len();
    let ghost lower = all_lowercase(texts(all@));
    let mut listed: Vec<String> = Vec::new();
    let mut i: usize = 0;
    proof {
        assert(texts(listed@) =~= lower.take(0));
    }
    while i < n
        invariant
            i <= n,
            n == all@.len(),
            lower == all_lowercase(texts(all@)),
            texts(listed@) == lower.take(i as int),
        decreases n - i,
    {
        let word = all[i].as_str().to_lowercase();
        let ghost before = texts(listed@);
        listed.push(word);
        proof {
            assert(lower[i as int] == word@);
            assert(texts(listed@) =~= before.push(word@));
            assert(texts(listed@) =~= lower.take(i + 1));
        }
        i = i + 1;
    }
    proof {
        assert(lower.take(n as int) =~= lower);
    }
    (listed, prefix)
}

/// The words that the last value of an attribute that opens before a position lists, also behind
/// the position and on the lines below it, and the word being typed there; nothing if no value opens
/// before it.
pub open spec fn words_at(
    text: Seq<char>,
    pos: Position,
    attribute: Attribute,
) -> (Seq<Seq<char>>, Seq<char>) {
    match cursor(text, pos) {
        None => (seq![], seq![]),
        Some(c) => {
            let matches = openings(c.before, attribute);
            match last_value(c.before, matches) {
                None => (seq![], seq![]),
                Some(value) => value_words(
                    value,
                    c.behind,
                    last_quote(c.before, matches),
                ),
            }
        },
    }
}

/// The words that the attribute value at a position lists, and the word being typed.
fn attribute_words(
    patterns: &Patterns,
    text: &str,
    pos: Position,
    attribute: Attribute,
) -> (r: (Vec<String>, String))
    ensures
        (texts(r.0@), r.1@) == words_at(text@, pos, attribute),
{
    let none: Vec<String> = Vec::new();
    proof {
        assert(texts(none@) =~= seq![]);
    }
    let c = match cursor_context(text, pos) {
        Some(c) => c,
        None => {
            return (none, String::new());
        },
    };
    let matches = find_openings(patterns, c.before.as_str(), attribute);
    match value_at_end(c.before.as_str(), &matches) {
        None => (none, String::new()),
        Some((value, quote)) => {
            words_around(value.as_str(), c.behind.as_str(), quote)
        },
    }
}

/// The classes that the `class` value at a position lists already, in lowercase, and the prefix
/// being typed.
pub fn completion_context(patterns: &Patterns, text: &str, pos: Position) -> (r: (
    Vec<String>,
    String,
))
    ensures
        (texts(r.0@), r.1@) == words_at(text@, pos, Attribute::Class),
{
    attribute_words(patterns, text, pos, Attribute::Class)
}

/// Whether the `id` value at a position holds a word beside the one being typed, and the prefix
/// being typed.
pub fn id_completion_context(patterns: &Patterns, text: &str, pos: Position) -> (r: (bool, String))
    ensures
        r.0 == (words_at(text@, pos, Attribute::Id).0.len() > 0),
        r.1@ == words_at(text@, pos, Attribute::Id).1,
{
    let (others, prefix) = attribute_words(patterns, text, pos, Attribute::Id);
    proof {
        assert(texts(others@).len() == others@.len());
    }
    (others.len() > 0, prefix)
}

/// The name under which a class map files the class or identifier at a position of a document: the
/// word inside a `class` value, or `#` and the word inside an `id` value.
pub open spec fn key_at(text: Seq<char>, pos: Position) -> Option<Seq<char>> {
    let word = word_at_position(text, pos);
    if inside_attr(text, pos, Attribute::Class) {
        word
    } else if inside_attr(text, pos, Attribute::Id) && word is Some {
        Some("#"@ + word->0)
    } else {
        None
    }
}

/// The name under which a class map files the class or identifier at a position of a document.
pub fn selector_key(patterns: &Patterns, text: &str, pos: Position) -> (r: Option<String>)
    ensures
        opt_text(r) == key_at(text@, pos),
{
    if in_class_attribute(patterns, text, pos) {
        return word_at(text, pos);
    }
    if in_id_attribute(patterns, text, pos) {
        if let Some(word) = word_at(text, pos) {
            let mut key = "#".to_owned();
            key.append(word.as_str());
            return Some(key);
        }
    }
    None
}

} // verus!
