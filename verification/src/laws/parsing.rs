//! What is read from style sheets.

use crate::css::{css_definitions, css_rules, rule_definitions, rule_info, selector_names, RuleView};
use crate::model::{
    add_definitions, definitions, law_all_definitions_kept, ClassInfoView, ClassRows,
};
use crate::pattern::{is_name_char, is_name_start, marked_at, marked_from, marked_names, name_run};
use crate::rename::lemma_item_is_for_its_name;
use crate::table::items_for;
use crate::text::{is_white, trim};
use vstd::prelude::*;

verus! {

/// The characters of a name are the letters of the Latin alphabet, the digits, `-` and `_`; a name
/// does not begin with a digit.
pub proof fn law_name_characters(c: char)
    ensures
        is_name_char(c) == (is_name_start(c) || c == '0' || c == '1' || c == '2' || c == '3' || c
            == '4' || c == '5' || c == '6' || c == '7' || c == '8' || c == '9'),
        is_name_start(c) == (('a' <= c && c <= 'z') || ('A' <= c && c <= 'Z') || c == '-' || c
            == '_'),
{
}

/// A run of name characters that cannot be made longer: from `a` to `e`.
pub open spec fn is_longest_name(s: Seq<char>, a: int, e: int) -> bool {
    &&& 0 <= a < e <= s.len()
    &&& is_name_start(s[a])
    &&& forall|j: int| a <= j < e ==> is_name_char(#[trigger] s[j])
    &&& e == s.len() || !is_name_char(s[e])
}

/// A class or an identifier that stands in a selector: a dot or `#` at `p` and a longest name from
/// there to `e`. The name is filed without the dot, but with the `#`.
pub open spec fn names_at(selector: Seq<char>, p: int, e: int, name: Seq<char>) -> bool {
    &&& 0 <= p < selector.len()
    &&& is_longest_name(selector, p + 1, e)
    &&& (selector[p] == '.' && name == selector.subrange(p + 1, e)) || (selector[p] == '#' && name
        == selector.subrange(p, e))
}

pub proof fn lemma_name_run(s: Seq<char>, a: int, i: int, e: int)
    requires
        a <= i <= e,
        is_longest_name(s, a, e),
    ensures
        name_run(s, i) == e,
    decreases e - i,
{
    if i < e {
        assert(is_name_char(s[i]));
        lemma_name_run(s, a, i + 1, e);
    }
}

pub proof fn lemma_name_run_is_longest(s: Seq<char>, a: int, i: int)
    requires
        0 <= a < s.len(),
        a <= i <= s.len(),
        is_name_start(s[a]),
        forall|j: int| a <= j < i ==> is_name_char(#[trigger] s[j]),
    ensures
        i <= name_run(s, i) <= s.len(),
        is_longest_name(s, a, name_run(s, i)) || name_run(s, i) == a,
        a < i || name_run(s, i) > a,
    decreases s.len() - i,
{
    if i < s.len() && is_name_char(s[i]) {
        lemma_name_run_is_longest(s, a, i + 1);
    }
}

pub proof fn lemma_marked_contains(s: Seq<char>, mark: char, i: int, p: int)
    requires
        0 <= i <= p,
        marked_at(s, mark, p),
    ensures
        marked_from(s, mark, i).contains(s.subrange(p, name_run(s, p + 1))),
    decreases p - i,
{
    let all = marked_from(s, mark, i);
    let token = s.subrange(p, name_run(s, p + 1));
    if i == p {
        assert(all[0] == token);
    } else {
        lemma_marked_contains(s, mark, i + 1, p);
        let rest = marked_from(s, mark, i + 1);
        let k = choose|k: int| 0 <= k < rest.len() && rest[k] == token;
        if marked_at(s, mark, i) {
            assert(all[k + 1] == token);
        } else {
            assert(all[k] == token);
        }
    }
}

pub proof fn lemma_marked_comes_from(s: Seq<char>, mark: char, i: int, k: int)
    requires
        0 <= i,
        0 <= k < marked_from(s, mark, i).len(),
    ensures
        exists|p: int|
            i <= p && #[trigger] marked_at(s, mark, p) && marked_from(s, mark, i)[k] == s.subrange(
                p,
                name_run(s, p + 1),
            ),
    decreases s.len() - i,
{
    if i < s.len() {
        let rest = marked_from(s, mark, i + 1);
        if marked_at(s, mark, i) {
            if k == 0 {
                assert(marked_from(s, mark, i)[0] == s.subrange(i, name_run(s, i + 1)));
            } else {
                assert(marked_from(s, mark, i)[k] == rest[k - 1]);
                lemma_marked_comes_from(s, mark, i + 1, k - 1);
            }
        } else {
            lemma_marked_comes_from(s, mark, i + 1, k);
        }
    }
}

/// The names of a selector are the classes and identifiers that stand in it, wherever they stand.
pub proof fn law_names_of_a_selector(selector: Seq<char>, name: Seq<char>)
    ensures
        selector_names(selector).contains(name) == exists|p: int, e: int| #[trigger]
            names_at(selector, p, e, name),
{
    let classes = marked_names(selector, '.');
    let ids = marked_names(selector, '#');
    let all = selector_names(selector);
    if exists|p: int, e: int| #[trigger] names_at(selector, p, e, name) {
        let (p, e) = choose|p: int, e: int| #[trigger] names_at(selector, p, e, name);
        lemma_name_run(selector, p + 1, p + 1, e);
        let token = selector.subrange(p, e);
        if selector[p] == '.' {
            lemma_marked_contains(selector, '.', 0, p);
            let k = choose|k: int| 0 <= k < classes.len() && classes[k] == token;
            assert(token.skip(1) =~= name);
            assert(all[k] == name);
        } else {
            lemma_marked_contains(selector, '#', 0, p);
            let k = choose|k: int| 0 <= k < ids.len() && ids[k] == token;
            assert(all[classes.len() + k] == name);
        }
    }
    if all.contains(name) {
        let k = choose|k: int| 0 <= k < all.len() && all[k] == name;
        let mark = if k < classes.len() {
            '.'
        } else {
            '#'
        };
        let list = marked_names(selector, mark);
        let j = if k < classes.len() {
            k
        } else {
            k - classes.len()
        };
        lemma_marked_comes_from(selector, mark, 0, j);
        let p = choose|p: int|
            0 <= p && #[trigger] marked_at(selector, mark, p) && list[j] == selector.subrange(
                p,
                name_run(selector, p + 1),
            );
        let e = name_run(selector, p + 1);
        lemma_name_run_is_longest(selector, p + 1, p + 1);
        if mark == '.' {
            assert(selector.subrange(p, e).skip(1) =~= selector.subrange(p + 1, e));
        }
        assert(names_at(selector, p, e, name));
    }
}

proof fn lemma_rule_is_defined(
    rules: Seq<RuleView>,
    file: Seq<char>,
    path: Seq<char>,
    i: int,
    name: Seq<char>,
)
    requires
        0 <= i < rules.len(),
        selector_names(rules[i].selector).contains(name),
    ensures
        rule_definitions(rules, file, path).contains((name, rule_info(rules[i], file, path))),
    decreases rules.len(),
{
    let head = rule_definitions(rules.drop_last(), file, path);
    let all = rule_definitions(rules, file, path);
    let entry = (name, rule_info(rules[i], file, path));
    if i == rules.len() - 1 {
        let names = selector_names(rules[i].selector);
        let k = choose|k: int| 0 <= k < names.len() && names[k] == name;
        assert(all[head.len() + k] == entry);
    } else {
        assert(rules.drop_last()[i] == rules[i]);
        lemma_rule_is_defined(rules.drop_last(), file, path, i, name);
        let k = choose|k: int| 0 <= k < head.len() && head[k] == entry;
        assert(all[k] == entry);
    }
}

proof fn lemma_definition_has_rule(
    rules: Seq<RuleView>,
    file: Seq<char>,
    path: Seq<char>,
    k: int,
)
    requires
        0 <= k < rule_definitions(rules, file, path).len(),
    ensures
        exists|i: int|
            0 <= i < rules.len() && selector_names((#[trigger] rules[i]).selector).contains(
                rule_definitions(rules, file, path)[k].0,
            ) && rule_definitions(rules, file, path)[k].1 == rule_info(rules[i], file, path),
    decreases rules.len(),
{
    if rules.len() > 0 {
        let head = rule_definitions(rules.drop_last(), file, path);
        let all = rule_definitions(rules, file, path);
        let last = rules.len() - 1;
        if k < head.len() {
            lemma_definition_has_rule(rules.drop_last(), file, path, k);
            assert(all[k] == head[k]);
            let i = choose|i: int|
                0 <= i < rules.drop_last().len() && selector_names(
                    (#[trigger] rules.drop_last()[i]).selector,
                ).contains(head[k].0) && head[k].1 == rule_info(rules.drop_last()[i], file, path);
            assert(rules[i] == rules.drop_last()[i]);
        } else {
            let names = selector_names(rules[last].selector);
            assert(all[k].0 == names[k - head.len()]);
            assert(names.contains(all[k].0));
            assert(all[k].1 == rule_info(rules[last], file, path));
        }
    }
}

proof fn lemma_trimmed_twice(s: Seq<char>)
    requires
        s.len() == 0 || (!is_white(s[0]) && !is_white(s.last())),
    ensures
        trim(s) == s,
{
}

/// Every class and identifier of a selector is filed, wherever in the selector it stands: reading a
/// style sheet gives the name a definition with the rule's selector, declarations, conditional
/// group, layer and line, and with the style sheet as its source.
pub proof fn law_every_name_is_filed(
    rows: ClassRows,
    content: Seq<char>,
    base: int,
    file: Seq<char>,
    path: Seq<char>,
    i: int,
    p: int,
    e: int,
    name: Seq<char>,
)
    requires
        css_rules(content, base) is Some,
        0 <= i < css_rules(content, base)->0.len(),
        names_at(css_rules(content, base)->0[i].selector, p, e, name),
    ensures
        ({
            let rule = css_rules(content, base)->0[i];
            definitions(
                add_definitions(rows, css_definitions(content, base, file, path)),
                name,
            ).contains(
                ClassInfoView {
                    properties: rule.properties,
                    selector: trim(rule.selector),
                    media_query: rule.media_query,
                    layer: rule.layer,
                    source_file: file,
                    source_path: path,
                    definition_line: rule.line,
                },
            )
        }),
{
    let rules = css_rules(content, base)->0;
    let added = css_definitions(content, base, file, path);
    law_names_of_a_selector(rules[i].selector, name);
    lemma_rule_is_defined(rules, file, path, i, name);
    let entry = (name, rule_info(rules[i], file, path));
    let k = choose|k: int| 0 <= k < added.len() && added[k] == entry;
    lemma_item_is_for_its_name(added, k);
    law_all_definitions_kept(rows, added, name);
    let own = items_for(added, name);
    let j = choose|j: int| 0 <= j < own.len() && own[j] == entry.1;
    assert((definitions(rows, name) + own)[definitions(rows, name).len() + j] == entry.1);
}

/// Nothing else is filed: every definition that reading a style sheet adds is that of a class or an
/// identifier that stands in the selector of one of its rules, and says of the rule what the rule
/// says.
pub proof fn law_only_names_are_filed(
    content: Seq<char>,
    base: int,
    file: Seq<char>,
    path: Seq<char>,
    k: int,
)
    requires
        css_rules(content, base) is Some,
        0 <= k < css_definitions(content, base, file, path).len(),
    ensures
        exists|i: int, p: int, e: int|
            0 <= i < css_rules(content, base)->0.len() && #[trigger] names_at(
                (#[trigger] css_rules(content, base)->0[i]).selector,
                p,
                e,
                css_definitions(content, base, file, path)[k].0,
            ) && css_definitions(content, base, file, path)[k].1.properties == css_rules(
                content,
                base,
            )->0[i].properties && css_definitions(content, base, file, path)[k].1.definition_line
                == css_rules(content, base)->0[i].line,
{
    let rules = css_rules(content, base)->0;
    let all = css_definitions(content, base, file, path);
    lemma_definition_has_rule(rules, file, path, k);
    let i = choose|i: int|
        0 <= i < rules.len() && selector_names((#[trigger] rules[i]).selector).contains(all[k].0)
            && all[k].1 == rule_info(rules[i], file, path);
    law_names_of_a_selector(rules[i].selector, all[k].0);
    let (p, e) = choose|p: int, e: int| #[trigger] names_at(rules[i].selector, p, e, all[k].0);
    assert(names_at(rules[i].selector, p, e, all[k].0));
}

} // verus!
