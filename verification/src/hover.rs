//! What is shown for the name under the pointer.

use crate::collect::first_occurrences;
use crate::context::{
    in_style_attribute, inside_attr, key_at, selector_key, style_context, style_context_at,
    Attribute, StyleContext, StyleContextView,
};
use crate::cursor::{cursor, cursor_context, word_at, word_at_position};
use crate::model::{
    definitions, opt_text, ClassInfo, ClassInfoView, ClassMap, ClassRows, DocumentMap, KeyframeInfo,
    KeyframeInfoView, KeyframesMap, VarMap,
};
use crate::paths::{path_of_uri, uri_path};
use crate::pattern::{
    marked_names, regex_find, regex_replace, Patterns, ATTR_SELECTOR_RE, CLASS_RE, COLOR_RE,
    ELEMENT_TYPE_RE, ID_RE, PSEUDO_RE,
};
use crate::protocol::Position;
use crate::table::lookup;
use crate::text::{
    chars_of, contains_text, decimal, decimal_text, ends_with, find_from, index_from, same_text,
    starts_with, string_of, texts,
};
use crate::vars::VarRows;
use vstd::prelude::*;
use vstd::slice::slice_subrange;
use vstd::string::StringExecFns;

verus! {

/// The first selector of a list of selectors.
pub open spec fn first_selector(selector: Seq<char>) -> Seq<char> {
    selector.take(index_from(selector, ',', 0))
}

/// How many texts of a list differ from `*`.
pub open spec fn count_not_star(all: Seq<Seq<char>>) -> nat
    decreases all.len(),
{
    if all.len() == 0 {
        0
    } else if all.last() != "*"@ {
        count_not_star(all.drop_last()) + 1
    } else {
        count_not_star(all.drop_last())
    }
}

/// A selector with everything but element names blanked: pseudo-classes and pseudo-elements,
/// attribute selectors, classes and identifiers.
pub open spec fn elements_only(part: Seq<char>) -> Seq<char> {
    let a = regex_replace(PSEUDO_RE@, part, " "@);
    let b = regex_replace(ATTR_SELECTOR_RE@, a, " "@);
    let c = regex_replace(CLASS_RE@, b, " "@);
    regex_replace(ID_RE@, c, " "@)
}

/// The specificity of a selector, given the identifiers, classes and elements found in it.
pub open spec fn specificity_of(
    ids: Seq<Seq<char>>,
    classes: Seq<Seq<char>>,
    elements: Seq<Seq<char>>,
) -> (u32, u32, u32) {
    (ids.len() as u32, classes.len() as u32, count_not_star(elements) as u32)
}

/// The specificity of the first selector of a list.
pub open spec fn selector_specificity(selector: Seq<char>) -> (u32, u32, u32) {
    let part = first_selector(selector);
    specificity_of(
        marked_names(part, '#'),
        marked_names(part, '.'),
        regex_find(ELEMENT_TYPE_RE@, elements_only(part)),
    )
}

/// The specificity of a selector, given the identifiers, classes and elements found in it.
pub fn count_specificity(
    ids: &Vec<String>,
    classes: &Vec<String>,
    elements: &Vec<String>,
) -> (r: (u32, u32, u32))
    ensures
        r == specificity_of(texts(ids@), texts(classes@), texts(elements@)),
{
    let n: usize = elements.len();
    let mut count: usize = 0;
    let mut i: usize = 0;
    let ghost all = texts(elements@);
    while i < n
        invariant
            i <= n,
            n == elements@.len(),
            all == texts(elements@),
            count <= i,
            count == count_not_star(all.take(i as int)),
        decreases n - i,
    {
        proof {
            assert(all.take(i + 1).drop_last() =~= all.take(i as int));
            assert(all.take(i + 1).last() == elements@[i as int]@);
        }
        if !same_text(elements[i].as_str(), "*") {
            count = count + 1;
        }
        i = i + 1;
    }
    proof {
        assert(all.take(n as int) =~= all);
    }
    (ids.len() as u32, classes.len() as u32, count as u32)
}

/// The specificity of the first selector of a list.
pub fn specificity(patterns: &Patterns, selector: &str) -> (r: (u32, u32, u32))
    ensures
        r == selector_specificity(selector@),
{
    let chars = chars_of(selector);
    let comma: usize = find_from(chars.as_slice(), ',', 0);
    let part = string_of(slice_subrange(chars.as_slice(), 0, comma));
    proof {
        assert(part@ =~= first_selector(selector@));
    }
    let ids = patterns.id_re().find_all(part.as_str());
    let classes = patterns.class_re().find_all(part.as_str());
    let s = patterns.pseudo_re().replace_all(part.as_str(), " ");
    let s = patterns.attr_selector_re().replace_all(s.as_str(), " ");
    let s = patterns.class_re().replace_all(s.as_str(), " ");
    let s = patterns.id_re().replace_all(s.as_str(), " ");
    let elements = patterns.element_type_re().find_all(s.as_str());
    count_specificity(&ids, &classes, &elements)
}

/// Texts in backquotes, with a space between them.
pub open spec fn backquoted(all: Seq<Seq<char>>) -> Seq<char>
    decreases all.len(),
{
    if all.len() == 0 {
        seq![]
    } else if all.len() == 1 {
        "`"@ + all[0] + "`"@
    } else {
        backquoted(all.drop_last()) + " `"@ + all.last() + "`"@
    }
}

/// The different colors among those found, in order of appearance.
pub fn summarize_colors(found: &Vec<String>) -> (r: String)
    ensures
        r@ == backquoted(first_occurrences(texts(found@))),
{
    let n: usize = found.len();
    let ghost all = texts(found@);
    let mut seen: Vec<String> = Vec::new();
    let mut r = String::new();
    let mut i: usize = 0;
    proof {
        assert(all.take(0) =~= seq![]);
        assert(texts(seen@) =~= seq![]);
    }
    while i < n
        invariant
            i <= n,
            n == found@.len(),
            all == texts(found@),
            texts(seen@) == first_occurrences(all.take(i as int)),
            r@ == backquoted(texts(seen@)),
        decreases n - i,
    {
        let ghost before = texts(seen@);
        proof {
            assert(all.take(i + 1).drop_last() =~= all.take(i as int));
            assert(all.take(i + 1).last() == found@[i as int]@);
        }
        if !contains_text(&seen, found[i].as_str()) {
            if seen.len() == 0 {
                r.append("`");
                proof {
                    assert(r@ =~= "`"@);
                }
            } else {
                r.append(" `");
            }
            r.append(found[i].as_str());
            r.append("`");
            seen.push(found[i].clone());
            proof {
                assert(texts(seen@) =~= before.push(found@[i as int]@));
                assert(texts(seen@).drop_last() =~= before);
            }
        }
        i = i + 1;
    }
    proof {
        assert(all.take(n as int) =~= all);
    }
    r
}

/// The different colors in a block of declarations.
pub open spec fn colors_in(properties: Seq<char>) -> Seq<char> {
    backquoted(first_occurrences(regex_find(COLOR_RE@, properties)))
}

/// The different colors in a block of declarations.
pub fn color_summary(patterns: &Patterns, properties: &str) -> (r: String)
    ensures
        r@ == colors_in(properties@),
{
    let found = patterns.color_re().find_all(properties);
    summarize_colors(&found)
}

/// A text between two others, if there is one.
pub open spec fn framed(s: Option<Seq<char>>, before: Seq<char>, after: Seq<char>) -> Seq<char> {
    match s {
        Some(s) => before + s + after,
        None => seq![],
    }
}

/// Appends a text between two others, if there is one.
fn append_framed(out: &mut String, s: &Option<String>, before: &str, after: &str)
    ensures
        final(out)@ == old(out)@ + framed(opt_text(*s), before@, after@),
{
    let ghost start = out@;
    if let Some(s) = s {
        out.append(before);
        out.append(s.as_str());
        out.append(after);
        proof {
            assert(out@ =~= start + (before@ + s@ + after@));
        }
    } else {
        proof {
            assert(start + Seq::<char>::empty() =~= start);
        }
    }
}

/// A specificity as it is shown.
pub open spec fn specificity_text(s: (u32, u32, u32)) -> Seq<char> {
    "("@ + decimal(s.0 as nat) + ","@ + decimal(s.1 as nat) + ","@ + decimal(s.2 as nat) + ")"@
}

/// A specificity as it is shown.
fn show_specificity(s: (u32, u32, u32)) -> (r: String)
    ensures
        r@ == specificity_text(s),
{
    let mut r = "(".to_owned();
    r.append(decimal_text(s.0 as u64).as_str());
    r.append(",");
    r.append(decimal_text(s.1 as u64).as_str());
    r.append(",");
    r.append(decimal_text(s.2 as u64).as_str());
    r.append(")");
    r
}

/// The rule of a definition, as code.
pub open spec fn rule_text(info: ClassInfoView) -> Seq<char> {
    "```css\n"@ + info.selector + " {\n"@ + info.properties + "\n}\n```"@
}

/// The rule of a definition, as code.
fn show_rule(info: &ClassInfo) -> (r: String)
    ensures
        r@ == rule_text(info.deep_view()),
{
    let mut r = "```css\n".to_owned();
    r.append(info.selector.as_str());
    r.append(" {\n");
    r.append(info.properties.as_str());
    r.append("\n}\n```");
    r
}

/// The line of a definition, counted from one.
pub open spec fn shown_line(line: u32) -> Seq<char> {
    decimal(line as nat + 1)
}

/// The line about colors; empty if there are none.
pub open spec fn color_line(colors: Seq<char>) -> Seq<char> {
    if colors.len() == 0 {
        seq![]
    } else {
        "\n\nColors: "@ + colors
    }
}

/// What is shown for a name with one definition.
pub open spec fn single_text(
    key: Seq<char>,
    info: ClassInfoView,
    specificity: (u32, u32, u32),
    colors: Seq<char>,
) -> Seq<char> {
    "**"@ + key + "** — "@ + info.source_file + ":"@ + shown_line(info.definition_line) + framed(
        info.media_query,
        "\n_inside_ `"@,
        "`"@,
    ) + framed(info.layer, "\n_in `@layer "@, "`_"@) + "\n\nSpecificity: `"@ + specificity_text(
        specificity,
    ) + "`"@ + color_line(colors) + "\n\n"@ + rule_text(info)
}

/// What is shown for a name with one definition.
pub fn show_single(
    key: &str,
    info: &ClassInfo,
    specificity: (u32, u32, u32),
    colors: &str,
) -> (r: String)
    ensures
        r@ == single_text(key@, info.deep_view(), specificity, colors@),
{
    let mut r = "**".to_owned();
    r.append(key);
    r.append("** — ");
    r.append(info.source_file.as_str());
    r.append(":");
    r.append(decimal_text(info.definition_line as u64 + 1).as_str());
    append_framed(&mut r, &info.media_query, "\n_inside_ `", "`");
    append_framed(&mut r, &info.layer, "\n_in `@layer ", "`_");
    r.append("\n\nSpecificity: `");
    r.append(show_specificity(specificity).as_str());
    r.append("`");
    let ghost mid = r@;
    if !colors.is_empty() {
        r.append("\n\nColors: ");
        r.append(colors);
        proof {
            assert(r@ =~= mid + color_line(colors@));
        }
    } else {
        proof {
            assert(mid + color_line(colors@) =~= mid);
        }
    }
    r.append("\n\n");
    r.append(show_rule(info).as_str());
    r
}

/// What is shown for the definition with number `n` of several.
pub open spec fn numbered_text(n: nat, info: ClassInfoView, specificity: (u32, u32, u32)) -> Seq<
    char,
> {
    "**"@ + decimal(n) + ".** "@ + info.source_file + ":"@ + shown_line(info.definition_line)
        + framed(info.media_query, " _(inside `"@, "`)_"@) + framed(
        info.layer,
        " _(@layer "@,
        ")_"@,
    ) + " — Specificity: `"@ + specificity_text(specificity) + "`\n"@ + rule_text(info)
}

/// What is shown for the definition with number `n` of several.
fn show_numbered(n: u64, info: &ClassInfo, specificity: (u32, u32, u32)) -> (r: String)
    ensures
        r@ == numbered_text(n as nat, info.deep_view(), specificity),
{
    let mut r = "**".to_owned();
    r.append(decimal_text(n).as_str());
    r.append(".** ");
    r.append(info.source_file.as_str());
    r.append(":");
    r.append(decimal_text(info.definition_line as u64 + 1).as_str());
    append_framed(&mut r, &info.media_query, " _(inside `", "`)_");
    append_framed(&mut r, &info.layer, " _(@layer ", ")_");
    r.append(" — Specificity: `");
    r.append(show_specificity(specificity).as_str());
    r.append("`\n");
    r.append(show_rule(info).as_str());
    r
}

/// What is shown for a name with several definitions, up to the first `k` of them.
pub open spec fn several_text(
    key: Seq<char>,
    infos: Seq<ClassInfoView>,
    specificities: Seq<(u32, u32, u32)>,
    k: int,
) -> Seq<char>
    decreases k,
{
    if k <= 0 {
        "**"@ + key + "** — "@ + decimal(infos.len()) + " definitions\n"@
    } else {
        several_text(key, infos, specificities, k - 1) + "\n\n"@ + numbered_text(
            k as nat,
            infos[k - 1],
            specificities[k - 1],
        )
    }
}

/// What is shown for a name with several definitions.
pub fn show_several(
    key: &str,
    infos: &Vec<ClassInfo>,
    specificities: &Vec<(u32, u32, u32)>,
) -> (r: String)
    requires
        specificities@.len() == infos@.len(),
    ensures
        r@ == several_text(key@, infos.deep_view(), specificities@, infos@.len() as int),
{
    let n: usize = infos.len();
    let mut r = "**".to_owned();
    r.append(key);
    r.append("** — ");
    r.append(decimal_text(n as u64).as_str());
    r.append(" definitions\n");
    let mut k: usize = 0;
    while k < n
        invariant
            k <= n,
            n == infos@.len(),
            specificities@.len() == infos@.len(),
            r@ == several_text(key@, infos.deep_view(), specificities@, k as int),
        decreases n - k,
    {
        r.append("\n\n");
        r.append(show_numbered((k + 1) as u64, &infos[k], specificities[k]).as_str());
        k = k + 1;
    }
    r
}

/// The specificity of each definition.
pub open spec fn specificities_of(infos: Seq<ClassInfoView>) -> Seq<(u32, u32, u32)> {
    infos.map_values(|i: ClassInfoView| selector_specificity(i.selector))
}

/// What is shown for a name with its definitions.
pub open spec fn definitions_text(key: Seq<char>, infos: Seq<ClassInfoView>) -> Seq<char> {
    if infos.len() == 1 {
        single_text(
            key,
            infos[0],
            selector_specificity(infos[0].selector),
            colors_in(infos[0].properties),
        )
    } else {
        several_text(key, infos, specificities_of(infos), infos.len() as int)
    }
}

/// What is shown for a name with its definitions.
pub fn show_definitions(patterns: &Patterns, key: &str, infos: &Vec<ClassInfo>) -> (r: String)
    ensures
        r@ == definitions_text(key@, infos.deep_view()),
{
    let n: usize = infos.len();
    if n == 1 {
        let s = specificity(patterns, infos[0].selector.as_str());
        let colors = color_summary(patterns, infos[0].properties.as_str());
        return show_single(key, &infos[0], s, colors.as_str());
    }
    let mut all: Vec<(u32, u32, u32)> = Vec::new();
    let mut i: usize = 0;
    while i < n
        invariant
            i <= n,
            n == infos@.len(),
            all@ == specificities_of(infos.deep_view()).take(i as int),
        decreases n - i,
    {
        all.push(specificity(patterns, infos[i].selector.as_str()));
        proof {
            let s = specificities_of(infos.deep_view());
            assert(s[i as int] == selector_specificity(infos@[i as int].deep_view().selector));
            assert(s.take(i + 1) =~= s.take(i as int).push(s[i as int]));
        }
        i = i + 1;
    }
    proof {
        assert(all@ =~= specificities_of(infos.deep_view()));
    }
    show_several(key, infos, &all)
}

/// What is shown for a custom property.
pub open spec fn variable_text(name: Seq<char>, value: Seq<char>) -> Seq<char> {
    "**"@ + name + "**\n\n```css\n"@ + name + ": "@ + value + ";\n```"@
}

/// What is shown for a custom property.
pub fn show_variable(name: &str, value: &str) -> (r: String)
    ensures
        r@ == variable_text(name@, value@),
{
    let mut r = "**".to_owned();
    r.append(name);
    r.append("**\n\n```css\n");
    r.append(name);
    r.append(": ");
    r.append(value);
    r.append(";\n```");
    r
}

/// What is shown for an animation name.
pub open spec fn keyframes_text(name: Seq<char>, info: KeyframeInfoView) -> Seq<char> {
    "**@keyframes "@ + name + "** — "@ + info.source_file + ":"@ + shown_line(info.definition_line)
}

/// What is shown for an animation name.
pub fn show_keyframes(name: &str, info: &KeyframeInfo) -> (r: String)
    ensures
        r@ == keyframes_text(name@, info.deep_view()),
{
    let mut r = "**@keyframes ".to_owned();
    r.append(name);
    r.append("** — ");
    r.append(info.source_file.as_str());
    r.append(":");
    r.append(decimal_text(info.definition_line as u64 + 1).as_str());
    r
}

/// What is shown for the word under the pointer in a style sheet: a custom property with its value.
pub open spec fn css_hover(word: Option<Seq<char>>, vars: VarRows) -> Option<Seq<char>> {
    if word is Some && "--"@.is_prefix_of(word->0) && lookup(vars, word->0) is Some {
        Some(variable_text(word->0, lookup(vars, word->0)->0))
    } else {
        None
    }
}

/// What is shown for the word under the pointer in a `style` value: a custom property, looked up
/// among those of the document first, or the name of an animation.
pub open spec fn style_hover(
    word: Option<Seq<char>>,
    context: StyleContextView,
    document_vars: VarRows,
    vars: VarRows,
    keyframes: Seq<(Seq<char>, KeyframeInfoView)>,
) -> Option<Seq<char>> {
    match word {
        None => None,
        Some(w) => if "--"@.is_prefix_of(w) {
            if lookup(document_vars, w) is Some {
                Some(variable_text(w, lookup(document_vars, w)->0))
            } else if lookup(vars, w) is Some {
                Some(variable_text(w, lookup(vars, w)->0))
            } else {
                None
            }
        } else {
            match context {
                StyleContextView::PropertyValue { property, prefix } => if property
                    == "animation-name"@ && lookup(keyframes, w) is Some {
                    Some(keyframes_text(w, lookup(keyframes, w)->0))
                } else {
                    None
                },
                _ => None,
            }
        },
    }
}

/// What is shown for the word under the pointer in a style sheet.
pub fn hover_in_css(word: &Option<String>, vars: &VarMap) -> (r: Option<String>)
    ensures
        opt_text(r) == css_hover(opt_text(*word), vars@),
{
    if let Some(w) = word {
        if starts_with(w.as_str(), "--") {
            if let Some(value) = vars.get(w.as_str()) {
                return Some(show_variable(w.as_str(), value.as_str()));
            }
        }
    }
    None
}

/// What is shown for the word under the pointer in a `style` value.
pub fn hover_in_style(
    word: &Option<String>,
    context: &StyleContext,
    document_vars: &VarMap,
    vars: &VarMap,
    keyframes: &KeyframesMap,
) -> (r: Option<String>)
    ensures
        opt_text(r) == style_hover(
            opt_text(*word),
            context.deep_view(),
            document_vars@,
            vars@,
            keyframes@,
        ),
{
    let w = match word {
        Some(w) => w,
        None => {
            return None;
        },
    };
    if starts_with(w.as_str(), "--") {
        if let Some(value) = document_vars.get(w.as_str()) {
            return Some(show_variable(w.as_str(), value.as_str()));
        }
        if let Some(value) = vars.get(w.as_str()) {
            return Some(show_variable(w.as_str(), value.as_str()));
        }
        return None;
    }
    if let StyleContext::PropertyValue { property, prefix: _ } = context {
        if same_text(property.as_str(), "animation-name") {
            if let Some(info) = keyframes.get(w.as_str()) {
                return Some(show_keyframes(w.as_str(), info));
            }
        }
    }
    None
}

/// What is shown for a name, if the class map has definitions of it.
pub open spec fn key_hover(key: Option<Seq<char>>, rows: ClassRows) -> Option<Seq<char>> {
    if key is Some && definitions(rows, key->0).len() > 0 {
        Some(definitions_text(key->0, definitions(rows, key->0)))
    } else {
        None
    }
}

/// What is shown at a position of a text.
pub open spec fn hover_at(
    text: Seq<char>,
    in_css: bool,
    pos: Position,
    rows: ClassRows,
    document_vars: VarRows,
    vars: VarRows,
    keyframes: Seq<(Seq<char>, KeyframeInfoView)>,
) -> Option<Seq<char>> {
    let word = word_at_position(text, pos);
    if cursor(text, pos) is None {
        None
    } else if in_css {
        css_hover(word, vars)
    } else if inside_attr(text, pos, Attribute::Style) {
        style_hover(word, style_context_at(text, pos), document_vars, vars, keyframes)
    } else {
        key_hover(key_at(text, pos), rows)
    }
}

/// Whether the path part of an address is that of a style sheet.
pub open spec fn is_css_name(path: Option<Seq<char>>) -> bool {
    path is Some && ".css"@.is_suffix_of(path->0)
}

/// What is shown at a position of a text; `in_css` tells whether it is a style sheet.
pub fn hover_text(
    patterns: &Patterns,
    text: &str,
    in_css: bool,
    pos: Position,
    class_map: &ClassMap,
    document_vars: &VarMap,
    vars: &VarMap,
    keyframes: &KeyframesMap,
) -> (r: Option<String>)
    ensures
        opt_text(r) == hover_at(
            text@,
            in_css,
            pos,
            class_map@,
            document_vars@,
            vars@,
            keyframes@,
        ),
{
    if cursor_context(text, pos).is_none() {
        return None;
    }
    let word = word_at(text, pos);
    if in_css {
        return hover_in_css(&word, vars);
    }
    if in_style_attribute(patterns, text, pos) {
        let context = style_context(patterns, text, pos);
        return hover_in_style(&word, &context, document_vars, vars, keyframes);
    }
    match selector_key(patterns, text, pos) {
        Some(key) => match class_map.get(key.as_str()) {
            Some(infos) => {
                proof {
                    assert(infos.deep_view().len() == infos@.len());
                }
                if infos.len() > 0 {
                    Some(show_definitions(patterns, key.as_str(), infos))
                } else {
                    None
                }
            },
            None => None,
        },
        None => None,
    }
}

/// What is shown at a position of an open document, as Markdown.
pub fn hover_handler(
    patterns: &Patterns,
    uri: &str,
    pos: Position,
    class_map: &ClassMap,
    document_vars: &VarMap,
    vars: &VarMap,
    keyframes: &KeyframesMap,
    documents: &DocumentMap,
) -> (r: Option<String>)
    ensures
        opt_text(r) == (match lookup(documents@, uri@) {
            Some(text) => hover_at(
                text,
                is_css_name(uri_path(uri@)),
                pos,
                class_map@,
                document_vars@,
                vars@,
                keyframes@,
            ),
            None => None,
        }),
{
    let text = match documents.get(uri) {
        Some(t) => t.as_str(),
        None => {
            return None;
        },
    };
    let in_css = match path_of_uri(uri) {
        Some(path) => ends_with(path.as_str(), ".css"),
        None => false,
    };
    hover_text(patterns, text, in_css, pos, class_map, document_vars, vars, keyframes)
}

/// A custom property that the document does not see is shown with its value in the workspace; one
/// that the document sees, with the document's.
pub proof fn law_variables_fall_back_to_the_workspace(
    name: Seq<char>,
    context: StyleContextView,
    document_vars: VarRows,
    vars: VarRows,
    keyframes: Seq<(Seq<char>, KeyframeInfoView)>,
)
    requires
        "--"@.is_prefix_of(name),
    ensures
        style_hover(Some(name), context, document_vars, vars, keyframes) == (match lookup(
            document_vars,
            name,
        ) {
            Some(value) => Some(variable_text(name, value)),
            None => match lookup(vars, name) {
                Some(value) => Some(variable_text(name, value)),
                None => None,
            },
        }),
{
}

} // verus!
