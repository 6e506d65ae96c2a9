//! The regular expressions of the analysis, compiled once and shared.

use crate::bytes::boundary;
use crate::text::texts;
use vstd::prelude::*;
use vstd::utf8::encode_utf8;

verus! {

#[verifier::external_type_specification]
#[verifier::external_body]
pub struct ExRegex(regex::Regex);

/// Whether a text is a regular expression that the `regex` crate accepts.
pub uninterp spec fn regex_accepts(pattern: Seq<char>) -> bool;

/// The matches of a pattern in a text, leftmost first.
pub uninterp spec fn regex_find(pattern: Seq<char>, text: Seq<char>) -> Seq<Seq<char>>;

/// The byte spans of the groups of each match of a pattern in a text, leftmost match first.
/// Group 0 is the match itself; a group that took no part in the match has no span.
pub uninterp spec fn regex_captures(pattern: Seq<char>, text: Seq<char>) -> Seq<
    Seq<Option<(usize, usize)>>,
>;

/// The text in which each match of a pattern is replaced.
pub uninterp spec fn regex_replace(
    pattern: Seq<char>,
    text: Seq<char>,
    replacement: Seq<char>,
) -> Seq<char>;

/// A compiled regular expression together with its source.
///
/// `compile` is the only function that makes one, so the two always belong together.
pub struct Pattern {
    source: String,
    regex: regex::Regex,
}

impl View for Pattern {
    type V = Seq<char>;

    /// The source of the regular expression.
    closed spec fn view(&self) -> Seq<char> {
        self.source@
    }
}

pub const PSEUDO_RE: &'static str = r"::?[a-zA-Z][a-zA-Z0-9_-]*(?:\([^)]*\))?";

pub const CLASS_RE: &'static str = r"\.[a-zA-Z_-][a-zA-Z0-9_-]*";

pub const ID_RE: &'static str = r"#[a-zA-Z_-][a-zA-Z0-9_-]*";

pub const CLASS_ATTR_RE: &'static str = r#"(?i)class\s*=\s*(["'])"#;

pub const ID_ATTR_RE: &'static str = r#"(?i)\bid\s*=\s*(["'])"#;

pub const STYLE_ATTR_RE: &'static str = r#"(?i)\bstyle\s*=\s*(["'])"#;

pub const IMPORT_RE: &'static str = r#"@import\s+(?:url\()?["']([^"']+)["']"#;

/// Matches common color values for display in hover tooltips.
pub const COLOR_RE: &'static str = r"(?i)#[0-9a-f]{3,8}\b|rgba?\s*\([^)]+\)|hsla?\s*\([^)]+\)";

/// Matches a full `<link .../>` or `<link ...>` tag, also over several lines.
pub const LINK_TAG_RE: &'static str = r"(?i)<link\b[^>]*/?>";

pub const REL_STYLESHEET_RE: &'static str = r#"(?i)\brel\s*=\s*["']stylesheet["']"#;

pub const HREF_VAL_RE: &'static str = r#"(?i)\bhref\s*=\s*["']([^"']+)["']"#;

/// Matches a `<style>...</style>` block; its group is the content.
pub const STYLE_BLOCK_RE: &'static str = r"(?is)<style\b[^>]*>(.*?)</style>";

pub const KEYFRAMES_RE: &'static str = r"(?i)@keyframes\s+([a-zA-Z_-][a-zA-Z0-9_-]*)";

pub const ATTR_SELECTOR_RE: &'static str = r"\[[^\]]*\]";

pub const ELEMENT_TYPE_RE: &'static str = r"\b[a-zA-Z][a-zA-Z0-9]*\b";

pub const JS_CLASSLIST_RE: &'static str =
    r#"classList\s*\.\s*(?:add|remove|toggle|contains|replace)\s*\(\s*["']([^"']+)["']"#;

pub const JS_GEBC_RE: &'static str = r#"getElementsByClassName\s*\(\s*["']([^"']+)["']"#;

pub const JS_QUERY_RE: &'static str = r#"querySelector(?:All)?\s*\(\s*["']([^"']+)["']"#;

/// Matches a comment; used by the class mapper.
pub const COMMENT_RE: &'static str = r"/\*[^*]*\*+(?:[^/*][^*]*\*+)*/";

/// Matches a rule without nested blocks; its groups are the selector and the declarations.
pub const RULE_RE: &'static str = r"([^{}@]+)\{([^{}]*)\}";

/// A letter of the Latin alphabet without diacritics.
pub open spec fn is_letter(c: char) -> bool {
    ('a' <= c <= 'z') || ('A' <= c <= 'Z')
}

/// A character of a CSS name: a letter, a digit, `-` or `_`.
pub open spec fn is_name_char(c: char) -> bool {
    is_letter(c) || ('0' <= c <= '9') || c == '-' || c == '_'
}

/// A character that a CSS name can begin with: a letter, `-` or `_`.
pub open spec fn is_name_start(c: char) -> bool {
    is_letter(c) || c == '-' || c == '_'
}

/// A mark character, then a name.
pub open spec fn is_marked_name(s: Seq<char>, mark: char) -> bool {
    &&& s.len() >= 2
    &&& s[0] == mark
    &&& is_name_start(s[1])
    &&& forall|i: int| 1 <= i < s.len() ==> is_name_char(#[trigger] s[i])
}

/// Where the longest run of name characters ends that begins at `i`.
pub open spec fn name_run(s: Seq<char>, i: int) -> int
    decreases s.len() - i,
{
    if 0 <= i < s.len() && is_name_char(s[i]) {
        name_run(s, i + 1)
    } else {
        i
    }
}

/// Whether a mark and a name stand at `i`.
pub open spec fn marked_at(s: Seq<char>, mark: char, i: int) -> bool {
    0 <= i && i + 1 < s.len() && s[i] == mark && is_name_start(s[i + 1])
}

/// The names behind a mark in a text from `i` on, each with its mark and as long as it can be.
pub open spec fn marked_from(s: Seq<char>, mark: char, i: int) -> Seq<Seq<char>>
    decreases s.len() - i,
{
    if i >= s.len() {
        seq![]
    } else if marked_at(s, mark, i) {
        seq![s.subrange(i, name_run(s, i + 1))] + marked_from(s, mark, i + 1)
    } else {
        marked_from(s, mark, i + 1)
    }
}

/// The names behind a mark in a text, each with its mark and as long as it can be.
pub open spec fn marked_names(s: Seq<char>, mark: char) -> Seq<Seq<char>> {
    marked_from(s, mark, 0)
}

/// The span of a whole match.
pub open spec fn whole(groups: Seq<Option<(usize, usize)>>) -> (usize, usize) {
    groups[0]->0
}

/// A span of bytes of `text` that begins and ends between characters.
pub open spec fn is_span(text: Seq<char>, span: (usize, usize)) -> bool {
    &&& span.0 <= span.1
    &&& boundary(text, span.0 as int)
    &&& boundary(text, span.1 as int)
}

/// The groups of one match: there is a match, and every group that took part has a span.
pub open spec fn is_groups(text: Seq<char>, groups: Seq<Option<(usize, usize)>>) -> bool {
    &&& groups.len() >= 1
    &&& groups[0] is Some
    &&& forall|g: int|
        0 <= g < groups.len() && (#[trigger] groups[g]) is Some ==> is_span(text, groups[g]->0)
}

/// A list of matches in a text.
pub open spec fn is_match_list(text: Seq<char>, all: Seq<Seq<Option<(usize, usize)>>>) -> bool {
    forall|i: int| 0 <= i < all.len() ==> is_groups(text, #[trigger] all[i])
}

/// The pattern opens an attribute value: its one group is the quote that ends the match.
pub open spec fn opens_attribute(pattern: Seq<char>) -> bool {
    pattern == CLASS_ATTR_RE@ || pattern == ID_ATTR_RE@ || pattern == STYLE_ATTR_RE@
}

/// The last byte of the match is its quote, and group 1 is that quote.
pub open spec fn ends_with_quote(text: Seq<char>, groups: Seq<Option<(usize, usize)>>) -> bool {
    &&& groups.len() == 2
    &&& groups[1] is Some
    &&& (groups[1]->0).0 + 1 == (groups[1]->0).1
    &&& (groups[1]->0).1 == whole(groups).1
    &&& encode_utf8(text)[(groups[1]->0).0 as int] == 0x22 || encode_utf8(
        text,
    )[(groups[1]->0).0 as int] == 0x27
}

/// The pattern has exactly `count` groups beside the match, all of which take part in it.
pub open spec fn has_groups(pattern: Seq<char>, count: int) -> bool {
    ||| count == 1 && (pattern == IMPORT_RE@ || pattern == HREF_VAL_RE@ || pattern
        == STYLE_BLOCK_RE@ || pattern == KEYFRAMES_RE@ || pattern == JS_CLASSLIST_RE@ || pattern
        == JS_GEBC_RE@ || pattern == JS_QUERY_RE@)
    ||| count == 2 && pattern == RULE_RE@
}

/// Every one of `count` groups took part in the match.
pub open spec fn all_groups(groups: Seq<Option<(usize, usize)>>, count: int) -> bool {
    &&& groups.len() == count + 1
    &&& forall|g: int| 0 <= g <= count ==> (#[trigger] groups[g]) is Some
}

/// The groups of a list of matches.
pub open spec fn group_lists(v: Seq<Vec<Option<(usize, usize)>>>) -> Seq<
    Seq<Option<(usize, usize)>>,
> {
    v.map_values(|g: Vec<Option<(usize, usize)>>| g@)
}

impl Pattern {
    /// `regex::Regex::new`. Whether it accepts a pattern depends on the pattern alone.
    #[verifier::external_body]
    fn compile(source: &str) -> (r: Option<Pattern>)
        ensures
            r is Some == regex_accepts(source@),
            r is Some ==> r->0@ == source@,
    {
        match regex::Regex::new(source) {
            Ok(regex) => Some(Pattern { source: source.to_string(), regex }),
            Err(_) => None,
        }
    }

    /// `regex::Regex::find_iter`, each match as its text. The matches depend on the pattern and
    /// the text alone. The matches of the class pattern are the places where `.` and a name stand,
    /// the name beginning with no digit and taken as long as it can be; those of the identifier
    /// pattern are the places where `#` and such a name stand. No name holds a mark, so no match
    /// hides another.
    #[verifier::external_body]
    pub(crate) fn find_all(&self, text: &str) -> (r: Vec<String>)
        ensures
            texts(r@) == regex_find(self@, text@),
            self@ == CLASS_RE@ ==> texts(r@) == marked_names(text@, '.'),
            self@ == ID_RE@ ==> texts(r@) == marked_names(text@, '#'),
            self@ == CLASS_RE@ ==> forall|i: int|
                0 <= i < r@.len() ==> is_marked_name((#[trigger] r@[i])@, '.'),
            self@ == ID_RE@ ==> forall|i: int|
                0 <= i < r@.len() ==> is_marked_name((#[trigger] r@[i])@, '#'),
    {
        self.regex.find_iter(text).map(|m| m.as_str().to_string()).collect()
    }

    /// `regex::Regex::captures_iter`, each match as the byte spans of its groups, the match itself
    /// first. The spans depend on the pattern and the text alone; they lie in the text, between
    /// characters. Where a pattern's groups cannot be skipped, all of them have a span; where a
    /// pattern ends with a quote in its only group, so does the match.
    #[verifier::external_body]
    pub(crate) fn captures_all(&self, text: &str) -> (r: Vec<Vec<Option<(usize, usize)>>>)
        ensures
            group_lists(r@) == regex_captures(self@, text@),
            is_match_list(text@, group_lists(r@)),
            opens_attribute(self@) ==> forall|i: int|
                0 <= i < r@.len() ==> ends_with_quote(text@, (#[trigger] r@[i])@),
            forall|count: int, i: int|
                has_groups(self@, count) && 0 <= i < r@.len() ==> #[trigger] all_groups(
                    r@[i]@,
                    count,
                ),
    {
        self.regex
            .captures_iter(text)
            .map(|c| c.iter().map(|g| g.map(|m| (m.start(), m.end()))).collect())
            .collect()
    }

    /// `regex::Regex::replace_all`. The result depends on the arguments and the pattern alone.
    #[verifier::external_body]
    pub(crate) fn replace_all(&self, text: &str, replacement: &str) -> (r: String)
        ensures
            r@ == regex_replace(self@, text@, replacement@),
    {
        self.regex.replace_all(text, replacement).into_owned()
    }
}

/// Every regular expression of the analysis is one that the `regex` crate accepts.
pub open spec fn all_patterns_compile() -> bool {
    &&& regex_accepts(PSEUDO_RE@)
    &&& regex_accepts(CLASS_RE@)
    &&& regex_accepts(ID_RE@)
    &&& regex_accepts(CLASS_ATTR_RE@)
    &&& regex_accepts(ID_ATTR_RE@)
    &&& regex_accepts(STYLE_ATTR_RE@)
    &&& regex_accepts(IMPORT_RE@)
    &&& regex_accepts(COLOR_RE@)
    &&& regex_accepts(LINK_TAG_RE@)
    &&& regex_accepts(REL_STYLESHEET_RE@)
    &&& regex_accepts(HREF_VAL_RE@)
    &&& regex_accepts(STYLE_BLOCK_RE@)
    &&& regex_accepts(KEYFRAMES_RE@)
    &&& regex_accepts(ATTR_SELECTOR_RE@)
    &&& regex_accepts(ELEMENT_TYPE_RE@)
    &&& regex_accepts(JS_CLASSLIST_RE@)
    &&& regex_accepts(JS_GEBC_RE@)
    &&& regex_accepts(JS_QUERY_RE@)
    &&& regex_accepts(COMMENT_RE@)
    &&& regex_accepts(RULE_RE@)
}

/// The compiled regular expressions of the analysis.
pub struct Patterns {
    pseudo: Pattern,
    class: Pattern,
    id: Pattern,
    class_attr: Pattern,
    id_attr: Pattern,
    style_attr: Pattern,
    import: Pattern,
    color: Pattern,
    link_tag: Pattern,
    rel_stylesheet: Pattern,
    href_val: Pattern,
    style_block: Pattern,
    keyframes: Pattern,
    attr_selector: Pattern,
    element_type: Pattern,
    js_classlist: Pattern,
    js_gebc: Pattern,
    js_query: Pattern,
    comment: Pattern,
    rule: Pattern,
}

impl Patterns {
    /// Each field holds the regular expression it is named after.
    #[verifier::type_invariant]
    closed spec fn inv(&self) -> bool {
        &&& self.pseudo@ == PSEUDO_RE@
        &&& self.class@ == CLASS_RE@
        &&& self.id@ == ID_RE@
        &&& self.class_attr@ == CLASS_ATTR_RE@
        &&& self.id_attr@ == ID_ATTR_RE@
        &&& self.style_attr@ == STYLE_ATTR_RE@
        &&& self.import@ == IMPORT_RE@
        &&& self.color@ == COLOR_RE@
        &&& self.link_tag@ == LINK_TAG_RE@
        &&& self.rel_stylesheet@ == REL_STYLESHEET_RE@
        &&& self.href_val@ == HREF_VAL_RE@
        &&& self.style_block@ == STYLE_BLOCK_RE@
        &&& self.keyframes@ == KEYFRAMES_RE@
        &&& self.attr_selector@ == ATTR_SELECTOR_RE@
        &&& self.element_type@ == ELEMENT_TYPE_RE@
        &&& self.js_classlist@ == JS_CLASSLIST_RE@
        &&& self.js_gebc@ == JS_GEBC_RE@
        &&& self.js_query@ == JS_QUERY_RE@
        &&& self.comment@ == COMMENT_RE@
        &&& self.rule@ == RULE_RE@
    }

    /// Compiles every regular expression.
    pub fn new() -> (r: Option<Patterns>)
        ensures
            r is Some == all_patterns_compile(),
    {
        let pseudo = match Pattern::compile(PSEUDO_RE) {
            Some(p) => p,
            None => return None,
        };
        let class = match Pattern::compile(CLASS_RE) {
            Some(p) => p,
            None => return None,
        };
        let id = match Pattern::compile(ID_RE) {
            Some(p) => p,
            None => return None,
        };
        let class_attr = match Pattern::compile(CLASS_ATTR_RE) {
            Some(p) => p,
            None => return None,
        };
        let id_attr = match Pattern::compile(ID_ATTR_RE) {
            Some(p) => p,
            None => return None,
        };
        let style_attr = match Pattern::compile(STYLE_ATTR_RE) {
            Some(p) => p,
            None => return None,
        };
        let import = match Pattern::compile(IMPORT_RE) {
            Some(p) => p,
            None => return None,
        };
        let color = match Pattern::compile(COLOR_RE) {
            Some(p) => p,
            None => return None,
        };
        let link_tag = match Pattern::compile(LINK_TAG_RE) {
            Some(p) => p,
            None => return None,
        };
        let rel_stylesheet = match Pattern::compile(REL_STYLESHEET_RE) {
            Some(p) => p,
            None => return None,
        };
        let href_val = match Pattern::compile(HREF_VAL_RE) {
            Some(p) => p,
            None => return None,
        };
        let style_block = match Pattern::compile(STYLE_BLOCK_RE) {
            Some(p) => p,
            None => return None,
        };
        let keyframes = match Pattern::compile(KEYFRAMES_RE) {
            Some(p) => p,
            None => return None,
        };
        let attr_selector = match Pattern::compile(ATTR_SELECTOR_RE) {
            Some(p) => p,
            None => return None,
        };
        let element_type = match Pattern::compile(ELEMENT_TYPE_RE) {
            Some(p) => p,
            None => return None,
        };
        let js_classlist = match Pattern::compile(JS_CLASSLIST_RE) {
            Some(p) => p,
            None => return None,
        };
        let js_gebc = match Pattern::compile(JS_GEBC_RE) {
            Some(p) => p,
            None => return None,
        };
        let js_query = match Pattern::compile(JS_QUERY_RE) {
            Some(p) => p,
            None => return None,
        };
        let comment = match Pattern::compile(COMMENT_RE) {
            Some(p) => p,
            None => return None,
        };
        let rule = match Pattern::compile(RULE_RE) {
            Some(p) => p,
            None => return None,
        };
        Some(
            Patterns {
                pseudo,
                class,
                id,
                class_attr,
                id_attr,
                style_attr,
                import,
                color,
                link_tag,
                rel_stylesheet,
                href_val,
                style_block,
                keyframes,
                attr_selector,
                element_type,
                js_classlist,
                js_gebc,
                js_query,
                comment,
                rule,
            },
        )
    }

    pub(crate) fn pseudo_re(&self) -> (r: &Pattern)
        ensures
            r@ == PSEUDO_RE@,
    {
        proof {
            use_type_invariant(self);
        }
        &self.pseudo
    }

    pub(crate) fn class_re(&self) -> (r: &Pattern)
        ensures
            r@ == CLASS_RE@,
    {
        proof {
            use_type_invariant(self);
        }
        &self.class
    }

    pub(crate) fn id_re(&self) -> (r: &Pattern)
        ensures
            r@ == ID_RE@,
    {
        proof {
            use_type_invariant(self);
        }
        &self.id
    }

    pub(crate) fn class_attr_re(&self) -> (r: &Pattern)
        ensures
            r@ == CLASS_ATTR_RE@,
    {
        proof {
            use_type_invariant(self);
        }
        &self.class_attr
    }

    pub(crate) fn id_attr_re(&self) -> (r: &Pattern)
        ensures
            r@ == ID_ATTR_RE@,
    {
        proof {
            use_type_invariant(self);
        }
        &self.id_attr
    }

    pub(crate) fn style_attr_re(&self) -> (r: &Pattern)
        ensures
            r@ == STYLE_ATTR_RE@,
    {
        proof {
            use_type_invariant(self);
        }
        &self.style_attr
    }

    pub(crate) fn import_re(&self) -> (r: &Pattern)
        ensures
            r@ == IMPORT_RE@,
    {
        proof {
            use_type_invariant(self);
        }
        &self.import
    }

    pub(crate) fn color_re(&self) -> (r: &Pattern)
        ensures
            r@ == COLOR_RE@,
    {
        proof {
            use_type_invariant(self);
        }
        &self.color
    }

    pub(crate) fn link_tag_re(&self) -> (r: &Pattern)
        ensures
            r@ == LINK_TAG_RE@,
    {
        proof {
            use_type_invariant(self);
        }
        &self.link_tag
    }

    pub(crate) fn rel_stylesheet_re(&self) -> (r: &Pattern)
        ensures
            r@ == REL_STYLESHEET_RE@,
    {
        proof {
            use_type_invariant(self);
        }
        &self.rel_stylesheet
    }

    pub(crate) fn href_val_re(&self) -> (r: &Pattern)
        ensures
            r@ == HREF_VAL_RE@,
    {
        proof {
            use_type_invariant(self);
        }
        &self.href_val
    }

    pub(crate) fn style_block_re(&self) -> (r: &Pattern)
        ensures
            r@ == STYLE_BLOCK_RE@,
    {
        proof {
            use_type_invariant(self);
        }
        &self.style_block
    }

    pub(crate) fn keyframes_re(&self) -> (r: &Pattern)
        ensures
            r@ == KEYFRAMES_RE@,
    {
        proof {
            use_type_invariant(self);
        }
        &self.keyframes
    }

    pub(crate) fn attr_selector_re(&self) -> (r: &Pattern)
        ensures
            r@ == ATTR_SELECTOR_RE@,
    {
        proof {
            use_type_invariant(self);
        }
        &self.attr_selector
    }

    pub(crate) fn element_type_re(&self) -> (r: &Pattern)
        ensures
            r@ == ELEMENT_TYPE_RE@,
    {
        proof {
            use_type_invariant(self);
        }
        &self.element_type
    }

    pub(crate) fn js_classlist_re(&self) -> (r: &Pattern)
        ensures
            r@ == JS_CLASSLIST_RE@,
    {
        proof {
            use_type_invariant(self);
        }
        &self.js_classlist
    }

    pub(crate) fn js_gebc_re(&self) -> (r: &Pattern)
        ensures
            r@ == JS_GEBC_RE@,
    {
        proof {
            use_type_invariant(self);
        }
        &self.js_gebc
    }

    pub(crate) fn js_query_re(&self) -> (r: &Pattern)
        ensures
            r@ == JS_QUERY_RE@,
    {
        proof {
            use_type_invariant(self);
        }
        &self.js_query
    }

    pub(crate) fn comment_re(&self) -> (r: &Pattern)
        ensures
            r@ == COMMENT_RE@,
    {
        proof {
            use_type_invariant(self);
        }
        &self.comment
    }

    pub(crate) fn rule_re(&self) -> (r: &Pattern)
        ensures
            r@ == RULE_RE@,
    {
        proof {
            use_type_invariant(self);
        }
        &self.rule
    }
}

} // verus!
