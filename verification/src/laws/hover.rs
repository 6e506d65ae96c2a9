//! What is shown at a position.

use crate::collect::{first_occurrences, lemma_first_occurrences_within};
use crate::context::{inside_attr, key_at, style_context_at, Attribute, StyleContextView};
use crate::cursor::{cursor, word_at_position};
use crate::hover::{
    backquoted, count_not_star, hover_at, selector_specificity, several_text, specificities_of,
};
use crate::model::{definitions, ClassInfoView, ClassRows, KeyframeInfoView};
use crate::pattern::{
    is_name_start, marked_from, regex_find, regex_replace, ATTR_SELECTOR_RE, CLASS_RE, COLOR_RE,
    ELEMENT_TYPE_RE, ID_RE, PSEUDO_RE,
};
use crate::protocol::Position;
use crate::table::lookup;
use crate::text::{decimal, lemma_index_from_is};
use crate::vars::VarRows;
use vstd::prelude::*;

verus! {

/// A conditional group and a layer as they are shown: `before` and `after` frame what there is.
pub open spec fn shown_if(s: Option<Seq<char>>, before: Seq<char>, after: Seq<char>) -> Seq<char> {
    if s is Some {
        before + s->0 + after
    } else {
        seq![]
    }
}

/// A specificity between parentheses.
pub open spec fn in_parentheses(s: (u32, u32, u32)) -> Seq<char> {
    "("@ + decimal(s.0 as nat) + ","@ + decimal(s.1 as nat) + ","@ + decimal(s.2 as nat) + ")"@
}

/// A class or an identifier with one definition is shown with the definition's file and line, the
/// conditional group and the layer it stands in, the specificity of its selector, the colors in its
/// declarations, and its rule. There is a line on colors exactly if the declarations hold one, and
/// it lists those that they hold.
pub proof fn law_one_definition_is_shown(
    text: Seq<char>,
    pos: Position,
    rows: ClassRows,
    document_vars: VarRows,
    vars: VarRows,
    keyframes: Seq<(Seq<char>, KeyframeInfoView)>,
    key: Seq<char>,
    d: ClassInfoView,
)
    requires
        cursor(text, pos) is Some,
        !inside_attr(text, pos, Attribute::Style),
        key_at(text, pos) == Some(key),
        definitions(rows, key) == seq![d],
    ensures
        ({
            let colors = regex_find(COLOR_RE@, d.properties);
            hover_at(text, false, pos, rows, document_vars, vars, keyframes) == Some(
                "**"@ + key + "** — "@ + d.source_file + ":"@ + decimal(
                    d.definition_line as nat + 1,
                ) + shown_if(d.media_query, "\n_inside_ `"@, "`"@) + shown_if(
                    d.layer,
                    "\n_in `@layer "@,
                    "`_"@,
                ) + "\n\nSpecificity: `"@ + in_parentheses(selector_specificity(d.selector)) + "`"@
                    + (if colors.len() == 0 {
                    seq![]
                } else {
                    "\n\nColors: "@ + backquoted(first_occurrences(colors))
                }) + "\n\n"@ + ("```css\n"@ + d.selector + " {\n"@ + d.properties + "\n}\n```"@),
            )
        }),
{
    let colors = regex_find(COLOR_RE@, d.properties);
    lemma_backquoted_len(first_occurrences(colors));
    if colors.len() > 0 {
        assert(colors.contains(colors[0]));
        lemma_first_occurrences_within(colors, colors[0]);
    }
}

proof fn lemma_backquoted_len(all: Seq<Seq<char>>)
    ensures
        (backquoted(all).len() == 0) == (all.len() == 0),
    decreases all.len(),
{
    reveal_strlit("`");
}

/// Texts in backquotes stand in their order, a space between them.
pub proof fn law_backquotes(all: Seq<Seq<char>>, one: Seq<char>)
    requires
        all.len() > 0,
    ensures
        backquoted(Seq::empty()) == Seq::<char>::empty(),
        backquoted(seq![one]) == seq!['`'] + one + seq!['`'],
        backquoted(all.push(one)) == backquoted(all) + seq![' ', '`'] + one + seq!['`'],
{
    reveal_strlit("`");
    reveal_strlit(" `");
    assert("`"@ =~= seq!['`']);
    assert(" `"@ =~= seq![' ', '`']);
    assert(all.push(one).drop_last() =~= all);
}

/// Each of several items is kept once, where it first appears.
pub proof fn law_first_appearances<A>(before: Seq<A>, item: A)
    ensures
        before.contains(item) ==> first_occurrences(before.push(item)) == first_occurrences(before),
        !before.contains(item) ==> first_occurrences(before.push(item)) == first_occurrences(
            before,
        ).push(item),
        first_occurrences(Seq::<A>::empty()) == Seq::<A>::empty(),
{
    lemma_first_occurrences_within(before, item);
    assert(before.push(item).drop_last() =~= before);
}

/// Numbers are written digit by digit, the last digit last.
pub proof fn law_decimal_numbers(n: nat, d: nat)
    requires
        d < 10,
    ensures
        decimal(d) == seq![(('0' as u32) + d) as u32 as char],
        n > 0 ==> decimal(10 * n + d) == decimal(n) + decimal(d),
{
    assert('0' as u32 == 48);
    assert(decimal(d).len() == 1);
    if d == 0 {
        assert(decimal(d)[0] == '0');
    } else if d == 1 {
        assert(decimal(d)[0] == '1');
    } else if d == 2 {
        assert(decimal(d)[0] == '2');
    } else if d == 3 {
        assert(decimal(d)[0] == '3');
    } else if d == 4 {
        assert(decimal(d)[0] == '4');
    } else if d == 5 {
        assert(decimal(d)[0] == '5');
    } else if d == 6 {
        assert(decimal(d)[0] == '6');
    } else if d == 7 {
        assert(decimal(d)[0] == '7');
    } else if d == 8 {
        assert(decimal(d)[0] == '8');
    } else {
        assert(decimal(d)[0] == '9');
    }
    if n > 0 {
        assert((10 * n + d) / 10 == n && (10 * n + d) % 10 == d);
        assert(decimal(n).push(decimal(d)[0]) =~= decimal(n) + decimal(d));
    }
}

/// A class or an identifier with several definitions is shown with their number and then each of
/// them, numbered from one in their order, with its file and line, its conditional group and layer,
/// the specificity of its selector, and its rule.
pub proof fn law_all_definitions_are_shown(
    text: Seq<char>,
    pos: Position,
    rows: ClassRows,
    document_vars: VarRows,
    vars: VarRows,
    keyframes: Seq<(Seq<char>, KeyframeInfoView)>,
    key: Seq<char>,
    k: int,
)
    requires
        cursor(text, pos) is Some,
        !inside_attr(text, pos, Attribute::Style),
        key_at(text, pos) == Some(key),
        definitions(rows, key).len() > 1,
        0 <= k < definitions(rows, key).len(),
    ensures
        ({
            let infos = definitions(rows, key);
            let specs = specificities_of(infos);
            let d = infos[k];
            &&& hover_at(text, false, pos, rows, document_vars, vars, keyframes) == Some(
                several_text(key, infos, specs, infos.len() as int),
            )
            &&& several_text(key, infos, specs, 0) == "**"@ + key + "** — "@ + decimal(infos.len())
                + " definitions\n"@
            &&& several_text(key, infos, specs, k + 1) == several_text(key, infos, specs, k)
                + "\n\n"@ + ("**"@ + decimal((k + 1) as nat) + ".** "@ + d.source_file + ":"@
                + decimal(d.definition_line as nat + 1) + shown_if(
                d.media_query,
                " _(inside `"@,
                "`)_"@,
            ) + shown_if(d.layer, " _(@layer "@, ")_"@) + " — Specificity: `"@ + in_parentheses(
                selector_specificity(d.selector),
            ) + "`\n"@ + ("```css\n"@ + d.selector + " {\n"@ + d.properties + "\n}\n```"@))
        }),
{
    let infos = definitions(rows, key);
    assert(specificities_of(infos)[k] == selector_specificity(infos[k].selector));
}

/// How many places from `i` on hold a mark with a name behind it.
pub open spec fn places_of(s: Seq<char>, mark: char, i: int) -> nat
    decreases s.len() - i,
{
    if i >= s.len() {
        0
    } else if s[i] == mark && i + 1 < s.len() && is_name_start(s[i + 1]) {
        1 + places_of(s, mark, i + 1)
    } else {
        places_of(s, mark, i + 1)
    }
}

proof fn lemma_places(s: Seq<char>, mark: char, i: int)
    requires
        0 <= i,
    ensures
        marked_from(s, mark, i).len() == places_of(s, mark, i),
    decreases s.len() - i,
{
    if i < s.len() {
        lemma_places(s, mark, i + 1);
    }
}

/// The specificity is that of the first selector of a list: how many identifiers, how many classes
/// and how many element names stand in it. Element names are looked for in the selector without its
/// pseudo-classes and pseudo-elements, attribute selectors, classes and identifiers; `*` does not
/// count.
pub proof fn law_specificity(first: Seq<char>, more: Seq<char>)
    requires
        !first.contains(','),
    ensures
        selector_specificity(first.push(',') + more) == selector_specificity(first),
        ({
            let bare = regex_replace(
                ID_RE@,
                regex_replace(
                    CLASS_RE@,
                    regex_replace(
                        ATTR_SELECTOR_RE@,
                        regex_replace(PSEUDO_RE@, first, " "@),
                        " "@,
                    ),
                    " "@,
                ),
                " "@,
            );
            selector_specificity(first) == (
                places_of(first, '#', 0) as u32,
                places_of(first, '.', 0) as u32,
                count_not_star(regex_find(ELEMENT_TYPE_RE@, bare)) as u32,
            )
        }),
{
    let n = first.len() as int;
    assert forall|j: int| 0 <= j < n implies first[j] != ',' by {
        assert(first.contains(first[j]));
    }
    lemma_index_from_is(first, ',', 0, n);
    assert(first.take(n) =~= first);
    let s = first.push(',') + more;
    assert forall|j: int| 0 <= j < n implies s[j] != ',' by {
        assert(s[j] == first[j]);
    }
    assert(s[n] == ',');
    lemma_index_from_is(s, ',', 0, n);
    assert(s.take(n) =~= first);
    lemma_places(first, '#', 0);
    lemma_places(first, '.', 0);
}

/// Every text but `*` is counted.
pub proof fn law_stars_do_not_count(all: Seq<Seq<char>>, one: Seq<char>)
    ensures
        count_not_star(Seq::empty()) == 0,
        count_not_star(all.push(one)) == count_not_star(all) + (if one == seq!['*'] {
            0nat
        } else {
            1nat
        }),
{
    reveal_strlit("*");
    assert("*"@ =~= seq!['*']);
    assert(all.push(one).drop_last() =~= all);
}

/// A custom property is shown with its value: in a style sheet as the workspace has it, in a
/// `style` value as the document has it or, if the document has none, as the workspace has it. An
/// animation is shown with its file and line where a value of `animation-name` names it.
pub proof fn law_variables_and_animations_are_shown(
    text: Seq<char>,
    pos: Position,
    rows: ClassRows,
    document_vars: VarRows,
    vars: VarRows,
    keyframes: Seq<(Seq<char>, KeyframeInfoView)>,
    word: Seq<char>,
    value: Seq<char>,
    info: KeyframeInfoView,
    prefix: Seq<char>,
)
    requires
        cursor(text, pos) is Some,
        word_at_position(text, pos) == Some(word),
    ensures
        ({
            let shown = Some(
                "**"@ + word + "**\n\n```css\n"@ + word + ": "@ + value + ";\n```"@,
            );
            let var = "--"@.is_prefix_of(word);
            let in_style = inside_attr(text, pos, Attribute::Style);
            let at = hover_at(text, false, pos, rows, document_vars, vars, keyframes);
            let in_css = hover_at(text, true, pos, rows, document_vars, vars, keyframes);
            &&& var && lookup(vars, word) == Some(value) ==> in_css == shown
            &&& !var || lookup(vars, word) is None ==> in_css is None
            &&& in_style && var && lookup(document_vars, word) == Some(value) ==> at == shown
            &&& in_style && var && lookup(document_vars, word) is None && lookup(vars, word)
                == Some(value) ==> at == shown
            &&& in_style && var && lookup(document_vars, word) is None && lookup(vars, word)
                is None ==> at is None
            &&& in_style && !var && style_context_at(text, pos) == (
            StyleContextView::PropertyValue { property: "animation-name"@, prefix }) && lookup(
                keyframes,
                word,
            ) == Some(info) ==> at == Some(
                "**@keyframes "@ + word + "** — "@ + info.source_file + ":"@ + decimal(
                    info.definition_line as nat + 1,
                ),
            )
            &&& in_style && !var && lookup(keyframes, word) is None ==> at is None
        }),
{
}

/// Nothing is shown where there is nothing: outside the document, on a name without a definition,
/// and where the position is on no name.
pub proof fn law_nothing_is_shown_elsewhere(
    text: Seq<char>,
    in_css: bool,
    pos: Position,
    rows: ClassRows,
    document_vars: VarRows,
    vars: VarRows,
    keyframes: Seq<(Seq<char>, KeyframeInfoView)>,
)
    ensures
        cursor(text, pos) is None ==> hover_at(
            text,
            in_css,
            pos,
            rows,
            document_vars,
            vars,
            keyframes,
        ) is None,
        !in_css && !inside_attr(text, pos, Attribute::Style) && (key_at(text, pos) is None
            || definitions(rows, key_at(text, pos)->0).len() == 0) ==> hover_at(
            text,
            in_css,
            pos,
            rows,
            document_vars,
            vars,
            keyframes,
        ) is None,
{
}

} // verus!
