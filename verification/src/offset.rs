//! Style sheets that begin on a later line of a document.

use crate::css::{
    block_end, css_definitions, css_rule_infos, css_rules, inner_layer, inner_media, is_quote,
    lemma_css_rules_base, rule_definitions, rules_from, string_end, style_rule, without_comments,
    RuleView,
};
use crate::model::{
    add_definitions, definitions, law_all_definitions_kept, ClassInfoView, ClassRows,
};
use crate::table::{append_all, has_name, items_for, lemma_put, lemma_row_of, list_at, lookup, put};
use crate::text::{lemma_line_further_down, lemma_trim, newlines, trim, trim_start};
use vstd::prelude::*;

verus! {

/// A rule that stands a number of lines further down.
pub open spec fn lower_rule(rule: RuleView, down: int) -> RuleView {
    RuleView { line: (rule.line + down) as u32, ..rule }
}

/// Rules that stand a number of lines further down.
pub open spec fn lower_rules(rules: Seq<RuleView>, down: int) -> Seq<RuleView> {
    rules.map_values(|rule: RuleView| lower_rule(rule, down))
}

/// A definition that stands a number of lines further down.
pub open spec fn lower_info(info: ClassInfoView, down: int) -> ClassInfoView {
    ClassInfoView { definition_line: (info.definition_line + down) as u32, ..info }
}

/// Definitions that stand a number of lines further down.
pub open spec fn lower_infos(infos: Seq<ClassInfoView>, down: int) -> Seq<ClassInfoView> {
    infos.map_values(|info: ClassInfoView| lower_info(info, down))
}

/// Definitions under their names that stand a number of lines further down.
pub open spec fn lower_definitions(
    all: Seq<(Seq<char>, ClassInfoView)>,
    down: int,
) -> Seq<(Seq<char>, ClassInfoView)> {
    all.map_values(|d: (Seq<char>, ClassInfoView)| (d.0, lower_info(d.1, down)))
}

/// Whether rules can stand a number of lines further down: no line number grows too large.
pub open spec fn fit_below(rules: Seq<RuleView>, down: int) -> bool {
    forall|k: int| 0 <= k < rules.len() ==> (#[trigger] rules[k]).line + down <= u32::MAX
}

proof fn lemma_style_rule_lower(
    s: Seq<char>,
    chunk: int,
    open: int,
    close: int,
    base: int,
    down: int,
    media: Option<Seq<char>>,
    layer: Option<Seq<char>>,
)
    requires
        0 <= chunk <= open < close <= s.len(),
        0 <= down,
        fit_below(style_rule(s, chunk, open, close, base, media, layer), down),
    ensures
        style_rule(s, chunk, open, close, base + down, media, layer) == lower_rules(
            style_rule(s, chunk, open, close, base, media, layer),
            down,
        ),
{
    let raw = s.subrange(chunk, open);
    lemma_trim(raw);
    let lead = raw.len() - trim_start(raw).len();
    lemma_line_further_down(base + newlines(s.take(chunk + lead)), down);
    let here = style_rule(s, chunk, open, close, base, media, layer);
    assert(here[0].line + down <= u32::MAX);
    assert(style_rule(s, chunk, open, close, base + down, media, layer) =~= lower_rules(
        here,
        down,
    ));
}

/// Two lists of rules in a row fit where they fit each.
proof fn lemma_fit_apart(a: Seq<RuleView>, b: Seq<RuleView>, down: int)
    requires
        fit_below(a + b, down),
    ensures
        fit_below(a, down),
        fit_below(b, down),
        lower_rules(a + b, down) == lower_rules(a, down) + lower_rules(b, down),
{
    assert forall|k: int| 0 <= k < a.len() implies (#[trigger] a[k]).line + down <= u32::MAX by {
        assert((a + b)[k] == a[k]);
    }
    assert forall|k: int| 0 <= k < b.len() implies (#[trigger] b[k]).line + down <= u32::MAX by {
        assert((a + b)[a.len() + k] == b[k]);
    }
    assert(lower_rules(a + b, down) =~= lower_rules(a, down) + lower_rules(b, down));
}

proof fn lemma_rules_lower(
    s: Seq<char>,
    i: int,
    chunk: int,
    base: int,
    down: int,
    media: Option<Seq<char>>,
    layer: Option<Seq<char>>,
)
    requires
        0 <= down,
        rules_from(s, i, chunk, base, media, layer) is Some,
        fit_below(rules_from(s, i, chunk, base, media, layer)->0, down),
    ensures
        rules_from(s, i, chunk, base + down, media, layer) == Some(
            lower_rules(rules_from(s, i, chunk, base, media, layer)->0, down),
        ),
    decreases s.len(), s.len() - i,
{
    let none = Seq::<RuleView>::empty();
    assert(lower_rules(none, down) =~= none);
    if 0 <= chunk <= i < s.len() {
        if is_quote(s[i]) {
            let e = string_end(s, i + 1, s[i]);
            if i < e < s.len() {
                lemma_rules_lower(s, e + 1, chunk, base, down, media, layer);
            }
        } else if s[i] == ';' || s[i] == '}' {
            lemma_rules_lower(s, i + 1, i + 1, base, down, media, layer);
        } else if s[i] == '{' {
            let head = trim(s.subrange(chunk, i));
            if head.len() == 0 {
                lemma_rules_lower(s, i + 1, i + 1, base, down, media, layer);
            } else {
                let e = block_end(s, i + 1, 1)->0;
                let inner = base + newlines(s.take(i + 1));
                let block = s.subrange(i + 1, e);
                let m = inner_media(head, media);
                let l = inner_layer(head, layer);
                let here = if head[0] == '@' {
                    rules_from(block, 0, 0, inner, m, l)
                } else {
                    Some(style_rule(s, chunk, i, e, base, media, layer))
                };
                if e < s.len() {
                    let rest = rules_from(s, e + 1, e + 1, base, media, layer);
                    lemma_fit_apart(here->0, rest->0, down);
                    lemma_rules_lower(s, e + 1, e + 1, base, down, media, layer);
                }
                if head[0] == '@' {
                    lemma_rules_lower(block, 0, 0, inner, down, m, l);
                    assert(inner + down == base + down + newlines(s.take(i + 1)));
                } else {
                    lemma_style_rule_lower(s, chunk, i, e, base, down, media, layer);
                }
            }
        } else {
            lemma_rules_lower(s, i + 1, chunk, base, down, media, layer);
        }
    }
}

proof fn lemma_rule_definitions_lower(
    rules: Seq<RuleView>,
    down: int,
    source_file: Seq<char>,
    source_path: Seq<char>,
)
    ensures
        rule_definitions(lower_rules(rules, down), source_file, source_path) == lower_definitions(
            rule_definitions(rules, source_file, source_path),
            down,
        ),
    decreases rules.len(),
{
    let low = lower_rules(rules, down);
    if rules.len() == 0 {
        assert(rule_definitions(low, source_file, source_path) =~= lower_definitions(
            rule_definitions(rules, source_file, source_path),
            down,
        ));
    } else {
        lemma_rule_definitions_lower(rules.drop_last(), down, source_file, source_path);
        assert(low.drop_last() =~= lower_rules(rules.drop_last(), down));
        assert(low.last() == lower_rule(rules.last(), down));
        assert(rule_definitions(low, source_file, source_path) =~= lower_definitions(
            rule_definitions(rules, source_file, source_path),
            down,
        ));
    }
}

/// The line that a style sheet begins on only moves its rules down: whether they can be read, their
/// names, their order and all else that is known of them stay the same.
pub proof fn law_base_line_only_moves_rules(
    content: Seq<char>,
    base: u32,
    source_file: Seq<char>,
    source_path: Seq<char>,
)
    requires
        css_rules(content, 0) is Some ==> fit_below(css_rules(content, 0)->0, base as int),
    ensures
        css_rules(content, base as int) is Some == (css_rules(content, 0) is Some),
        css_rules(content, 0) is Some ==> css_definitions(
            content,
            base as int,
            source_file,
            source_path,
        ) == lower_definitions(
            css_definitions(content, 0, source_file, source_path),
            base as int,
        ),
        css_rules(content, 0) is Some ==> css_rule_infos(
            content,
            base as int,
            source_file,
            source_path,
        ) == lower_infos(css_rule_infos(content, 0, source_file, source_path), base as int),
{
    let s = without_comments(content);
    lemma_css_rules_base(content, 0, base as int);
    if css_rules(content, 0) is Some {
        lemma_rules_lower(s, 0, 0, 0, base as int, None, None);
        let rules = css_rules(content, 0)->0;
        lemma_rule_definitions_lower(rules, base as int, source_file, source_path);
        assert(css_rule_infos(content, base as int, source_file, source_path) =~= lower_infos(
            css_rule_infos(content, 0, source_file, source_path),
            base as int,
        ));
    }
}

proof fn lemma_items_lower(added: Seq<(Seq<char>, ClassInfoView)>, down: int, name: Seq<char>)
    ensures
        items_for(lower_definitions(added, down), name) == lower_infos(
            items_for(added, name),
            down,
        ),
    decreases added.len(),
{
    let low = lower_definitions(added, down);
    if added.len() == 0 {
        assert(items_for(low, name) =~= lower_infos(items_for(added, name), down));
    } else {
        lemma_items_lower(added.drop_last(), down, name);
        assert(low.drop_last() =~= lower_definitions(added.drop_last(), down));
        assert(items_for(low, name) =~= lower_infos(items_for(added, name), down));
    }
}

/// The names of a class map after definitions were added: those it had, and those of the
/// definitions.
proof fn lemma_added_names(
    rows: ClassRows,
    added: Seq<(Seq<char>, ClassInfoView)>,
    name: Seq<char>,
)
    ensures
        has_name(add_definitions(rows, added), name) == (has_name(rows, name) || items_for(
            added,
            name,
        ).len() > 0),
    decreases added.len(),
{
    if added.len() > 0 {
        let mid = append_all(rows, added.drop_last());
        lemma_added_names(rows, added.drop_last(), name);
        let list = list_at(mid, added.last().0).push(added.last().1);
        lemma_put(mid, added.last().0, list);
        let after = put(mid, added.last().0, list);
        assert(after == add_definitions(rows, added));
        lemma_row_of(mid, name);
        lemma_row_of(after, name);
        if added.last().0 != name {
            assert(lookup(after, name) == lookup(mid, name));
        } else {
            assert(lookup(after, name) is Some);
        }
    }
}

/// A style sheet that begins on a later line adds to a class map the definitions that it makes on
/// its own, moved down by that line: under each name they follow those that were there, and the
/// names are those that were there and those of the style sheet.
pub proof fn law_blocks_add_their_definitions(
    rows: ClassRows,
    content: Seq<char>,
    base: u32,
    source_file: Seq<char>,
    source_path: Seq<char>,
    name: Seq<char>,
)
    requires
        css_rules(content, 0) is Some,
        fit_below(css_rules(content, 0)->0, base as int),
    ensures
        ({
            let after = add_definitions(
                rows,
                css_definitions(content, base as int, source_file, source_path),
            );
            let own = add_definitions(
                seq![],
                css_definitions(content, 0, source_file, source_path),
            );
            &&& definitions(after, name) == definitions(rows, name) + lower_infos(
                definitions(own, name),
                base as int,
            )
            &&& has_name(after, name) == (has_name(rows, name) || has_name(own, name))
        }),
{
    let none = Seq::<(Seq<char>, Seq<ClassInfoView>)>::empty();
    let first = css_definitions(content, 0, source_file, source_path);
    let lower = css_definitions(content, base as int, source_file, source_path);
    law_base_line_only_moves_rules(content, base, source_file, source_path);
    lemma_items_lower(first, base as int, name);
    law_all_definitions_kept(rows, lower, name);
    law_all_definitions_kept(none, first, name);
    lemma_row_of(none, name);
    assert(definitions(none, name) + items_for(first, name) =~= items_for(first, name));
    lemma_added_names(rows, lower, name);
    lemma_added_names(none, first, name);
    assert(!has_name(none, name));
}

} // verus!
