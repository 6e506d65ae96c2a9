//! Custom properties, animations, imports, links, scripts and what a document sees.

use crate::bytes::slice;
use crate::collect::{collect, first_occurrences};
use crate::css::{css_rule_infos, css_rules, selector_names};
use crate::js::{all_selector_names, all_words, group_texts, js_names};
use crate::laws::blocks::law_trimming;
use crate::laws::completion::lemma_collected;
use crate::laws::navigation::lemma_concat_contains;
use crate::laws::parsing::{law_names_of_a_selector, names_at};
use crate::links::{import_of, imports, link_file, linked_css, linked_file};
use crate::model::{class_map_inv, definitions, ClassInfoView, ClassRows, KeyframeInfoView};
use crate::paths::path_is_absolute;
use crate::pattern::{
    regex_captures, regex_find, HREF_VAL_RE, IMPORT_RE, JS_CLASSLIST_RE, JS_GEBC_RE, JS_QUERY_RE,
    KEYFRAMES_RE, LINK_TAG_RE, REL_STYLESHEET_RE, STYLE_BLOCK_RE,
};
use crate::scope::{
    document_rows, document_rules, in_scope, keyframes_entry, law_scope_keeps_reached_files,
    path_in_scope, reaches, rule_files, scoped_rows, source_name, with_animations, with_keyframes,
};
use crate::style::{blocks_readable, style_blocks, with_block_rules, with_blocks};
use crate::table::{has_name, lemma_put, lemma_row_of, lemma_row_of_is, lookup, row_of};
use crate::text::{
    index_from, is_white, lemma_index_from, lemma_index_from_is, lemma_trim, line_number, lines,
    newlines, trim, trim_start, white_from, words,
};
use crate::vars::{
    class_map_vars, defined_var, vars_of_lines, vars_of_rules, without_semicolons, VarRows,
};
use vstd::prelude::*;

verus! {

/// A text that neither begins nor ends with white space.
pub open spec fn is_trimmed(s: Seq<char>) -> bool {
    s.len() > 0 ==> !is_white(s[0]) && !is_white(s.last())
}

/// White space only.
pub open spec fn is_white_text(s: Seq<char>) -> bool {
    forall|i: int| 0 <= i < s.len() ==> is_white(#[trigger] s[i])
}

/// Semicolons only.
pub open spec fn is_semicolons(s: Seq<char>) -> bool {
    forall|i: int| 0 <= i < s.len() ==> #[trigger] s[i] == ';'
}

proof fn lemma_without_semicolons(t: Seq<char>, semicolons: Seq<char>)
    requires
        is_semicolons(semicolons),
        t.len() > 0 ==> t.last() != ';',
    ensures
        without_semicolons(t + semicolons) == t,
    decreases semicolons.len(),
{
    let s = t + semicolons;
    if semicolons.len() == 0 {
        assert(s =~= t);
    } else {
        assert(s.last() == ';');
        assert(s.drop_last() =~= t + semicolons.drop_last());
        assert forall|i: int| 0 <= i < semicolons.drop_last().len() implies (
        #[trigger] semicolons.drop_last()[i]) == ';' by {
            assert(semicolons[i] == ';');
        }
        lemma_without_semicolons(t, semicolons.drop_last());
    }
}

/// A line of declarations of the form `--name: value;` defines a custom property: the name is what
/// stands before the first colon, the value what stands behind it up to the semicolons at the end;
/// white space around them does not count.
pub proof fn law_custom_properties(
    before: Seq<char>,
    name: Seq<char>,
    gap: Seq<char>,
    space: Seq<char>,
    value: Seq<char>,
    semicolons: Seq<char>,
    after: Seq<char>,
)
    requires
        is_white_text(before),
        is_white_text(gap),
        is_white_text(space),
        is_white_text(after),
        is_semicolons(semicolons),
        is_trimmed(name),
        !name.contains(':'),
        is_trimmed(value),
        value.len() > 0,
        value.last() != ';',
    ensures
        defined_var(
            before + (seq!['-', '-'] + name + gap + seq![':'] + space + value + semicolons)
                + after,
        ) == Some((seq!['-', '-'] + name, value)),
{
    let core = seq!['-', '-'] + name + gap + seq![':'] + space + value;
    let t = core + semicolons;
    let line = before + (seq!['-', '-'] + name + gap + seq![':'] + space + value + semicolons)
        + after;
    reveal_strlit("--");
    assert("--"@ =~= seq!['-', '-']);
    assert(line =~= before + t + after);
    assert(core.last() == value.last());
    assert(t[0] == '-');
    if semicolons.len() > 0 {
        assert(t.last() == semicolons.last());
        assert(semicolons[semicolons.len() - 1] == ';');
    } else {
        assert(t =~= core);
    }
    law_trimming(before, t, after);
    lemma_without_semicolons(core, semicolons);
    let none = Seq::<char>::empty();
    law_trimming(none, core, none);
    assert(none + core + none =~= core);
    let rest = core.skip(2);
    let head = name + gap;
    assert(rest =~= head + seq![':'] + (space + value));
    assert forall|j: int| 0 <= j < head.len() implies rest[j] != ':' by {
        if j < name.len() {
            assert(rest[j] == name[j]);
            assert(name.contains(name[j]));
        } else {
            assert(rest[j] == gap[j - name.len()]);
            assert(is_white(gap[j - name.len()]));
        }
    }
    assert(rest[head.len() as int] == ':');
    lemma_index_from_is(rest, ':', 0, head.len() as int);
    assert(rest.take(head.len() as int) =~= none + name + gap);
    law_trimming(none, name, gap);
    assert(rest.skip(head.len() as int + 1) =~= space + value + none);
    law_trimming(space, value, none);
}

/// A line that does not begin with `--` defines no custom property.
pub proof fn law_other_lines_define_none(line: Seq<char>)
    requires
        trim(line).len() < 2 || trim(line)[0] != '-' || trim(line)[1] != '-',
    ensures
        defined_var(line) is None,
{
    let a = trim(line);
    let b = without_semicolons(a);
    lemma_semicolons_prefix(a);
    lemma_trim(line);
    lemma_trim(b);
    let t = trim(b);
    if t.len() >= 2 {
        lemma_first_stays(a, b);
    }
}

proof fn lemma_semicolons_prefix(s: Seq<char>)
    ensures
        without_semicolons(s).len() <= s.len(),
        without_semicolons(s) == s.take(without_semicolons(s).len() as int),
    decreases s.len(),
{
    if s.len() > 0 && s.last() == ';' {
        lemma_semicolons_prefix(s.drop_last());
        let n = without_semicolons(s).len() as int;
        assert(s.drop_last().take(n) =~= s.take(n));
    } else {
        assert(s.take(s.len() as int) =~= s);
    }
}

proof fn lemma_first_stays(a: Seq<char>, b: Seq<char>)
    requires
        b.len() <= a.len(),
        b == a.take(b.len() as int),
        a.len() > 0 ==> !is_white(a[0]),
        trim(b).len() >= 2,
    ensures
        trim(b)[0] == a[0],
        trim(b)[1] == a[1],
{
    lemma_trim(b);
    assert(b[0] == a[0]);
    assert(trim_start(b) == b);
    assert(trim(b) == b.subrange(0, trim(b).len() as int));
    assert(trim(b)[1] == b[1]);
}

/// Of several definitions of a custom property the first counts, in the order of the rules and of
/// the lines of each; a line that defines another leaves it alone, and so does one that defines
/// none.
pub proof fn law_first_definition_of_a_variable_counts(
    rules: Seq<ClassInfoView>,
    k: int,
    vars: VarRows,
    all: Seq<Seq<char>>,
    j: int,
    name: Seq<char>,
)
    requires
        0 <= k < rules.len(),
        0 <= j < all.len(),
    ensures
        class_map_vars(rules) == vars_of_rules(rules, rules.len() as int),
        vars_of_rules(rules, 0).len() == 0,
        vars_of_rules(rules, k + 1) == vars_of_lines(
            vars_of_rules(rules, k),
            lines(rules[k].properties),
            lines(rules[k].properties).len() as int,
        ),
        vars_of_lines(vars, all, 0) == vars,
        ({
            let before = lookup(vars_of_lines(vars, all, j), name);
            lookup(vars_of_lines(vars, all, j + 1), name) == (if before is Some {
                before
            } else if defined_var(all[j]) is Some && (defined_var(all[j])->0).0 == name {
                Some((defined_var(all[j])->0).1)
            } else {
                None
            })
        }),
{
    let rows = vars_of_lines(vars, all, j);
    let var = defined_var(all[j]);
    lemma_row_of(rows, name);
    if var is Some && !has_name(rows, (var->0).0) {
        let after = rows.push(var->0);
        let r = row_of(rows, name);
        lemma_row_of(rows, (var->0).0);
        if r < rows.len() {
            assert forall|i: int| 0 <= i < r implies (#[trigger] after[i]).0 != name by {
                assert(after[i] == rows[i]);
            }
            lemma_row_of_is(after, name, r);
        } else {
            assert forall|i: int| 0 <= i < rows.len() implies (#[trigger] after[i]).0 != name by {
                assert(after[i] == rows[i]);
            }
            if (var->0).0 == name {
                lemma_row_of_is(after, name, rows.len() as int);
            } else {
                lemma_row_of_is(after, name, after.len() as int);
            }
        }
    } else if var is Some {
        lemma_row_of(rows, (var->0).0);
    }
}

/// An animation is known by the name in its match, with the style sheet it stands in and the line
/// on which the match begins; of several definitions the last counts, and others are left alone.
pub proof fn law_animations_are_read(
    rows: Seq<(Seq<char>, KeyframeInfoView)>,
    path: Seq<char>,
    content: Seq<char>,
    k: int,
    other: Seq<char>,
)
    requires
        0 <= k < regex_captures(KEYFRAMES_RE@, content).len(),
    ensures
        ({
            let matches = regex_captures(KEYFRAMES_RE@, content);
            let name = slice(
                content,
                (matches[k][1]->0).0 as int,
                (matches[k][1]->0).1 as int,
            );
            let before = with_keyframes(rows, content, matches, source_name(path), path, k);
            let after = with_keyframes(rows, content, matches, source_name(path), path, k + 1);
            &&& with_keyframes(rows, content, matches, source_name(path), path, 0) == rows
            &&& with_animations(rows, path, content) == with_keyframes(
                rows,
                content,
                matches,
                source_name(path),
                path,
                matches.len() as int,
            )
            &&& lookup(after, name) == Some(
                KeyframeInfoView {
                    source_file: source_name(path),
                    source_path: path,
                    definition_line: line_number(
                        newlines(slice(content, 0, (matches[k][0]->0).0 as int)) as int,
                    ),
                },
            )
            &&& other != name ==> lookup(after, other) == lookup(before, other)
        }),
{
    let matches = regex_captures(KEYFRAMES_RE@, content);
    let before = with_keyframes(rows, content, matches, source_name(path), path, k);
    let entry = keyframes_entry(content, matches[k], source_name(path), path);
    lemma_put(before, entry.0, entry.1);
}

/// Whether an address leads to another machine.
pub open spec fn leads_away(s: Seq<char>) -> bool {
    "http://"@.is_prefix_of(s) || "https://"@.is_prefix_of(s) || "//"@.is_prefix_of(s)
}

/// A style sheet imports exactly the files that its import statements name, unless they lead to
/// another machine or begin at the root; a name without a dot gets the extension of a style sheet.
pub proof fn law_imports(content: Seq<char>, file: Seq<char>)
    ensures
        imports(content).contains(file) == exists|i: int|
            0 <= i < regex_captures(IMPORT_RE@, content).len() && ({
                let g = #[trigger] regex_captures(IMPORT_RE@, content)[i];
                let path = slice(content, (g[1]->0).0 as int, (g[1]->0).1 as int);
                &&& !leads_away(path)
                &&& !path_is_absolute(path)
                &&& file == (if path.contains('.') {
                    path
                } else {
                    path + ".css"@
                })
            }),
{
    let matches = regex_captures(IMPORT_RE@, content);
    let paths = group_texts(content, matches);
    lemma_collected(paths, import_of(), file);
    if imports(content).contains(file) {
        let i = choose|i: int| 0 <= i < paths.len() && import_of()(#[trigger] paths[i]) == Some(file);
        assert(paths[i] == slice(
            content,
            (matches[i][1]->0).0 as int,
            (matches[i][1]->0).1 as int,
        ));
    }
    if exists|i: int|
        0 <= i < matches.len() && ({
            let g = #[trigger] matches[i];
            let path = slice(content, (g[1]->0).0 as int, (g[1]->0).1 as int);
            &&& !leads_away(path)
            &&& !path_is_absolute(path)
            &&& file == (if path.contains('.') {
                path
            } else {
                path + ".css"@
            })
        }) {
        let i = choose|i: int|
            0 <= i < matches.len() && ({
                let g = #[trigger] matches[i];
                let path = slice(content, (g[1]->0).0 as int, (g[1]->0).1 as int);
                &&& !leads_away(path)
                &&& !path_is_absolute(path)
                &&& file == (if path.contains('.') {
                    path
                } else {
                    path + ".css"@
                })
            });
        assert(import_of()(paths[i]) == Some(file));
    }
}

/// A link stands for the file that its address names, without a query and a fragment, unless it
/// leads to another machine or begins at the server's root.
pub proof fn law_links(file: Seq<char>, rest: Seq<char>)
    requires
        file.len() > 0,
        !file.contains('?'),
        !file.contains('#'),
        !leads_away(file + rest),
        !"/"@.is_prefix_of(file + rest),
        rest.len() > 0 ==> rest[0] == '?' || rest[0] == '#',
    ensures
        link_file(file + rest) == Some(file),
{
    let href = file + rest;
    let n = file.len() as int;
    assert forall|j: int| 0 <= j < n implies href[j] != '?' && href[j] != '#' by {
        assert(href[j] == file[j]);
        assert(file.contains(file[j]));
    }
    lemma_index_from(href, '?', 0);
    let q = index_from(href, '?', 0);
    assert(q >= n);
    let plain = href.take(q);
    if rest.len() > 0 {
        assert(href[n] == rest[0]);
    }
    if q == n {
        lemma_index_from_is(plain, '#', 0, n);
    } else if rest.len() > 0 {
        assert(plain[n] == '#');
        lemma_index_from_is(plain, '#', 0, n);
    }
    let file_part = plain.take(index_from(plain, '#', 0));
    assert(file_part =~= file);
}

/// What leads away, begins at the root or names no file is no link to a file.
pub proof fn law_no_links(href: Seq<char>)
    ensures
        leads_away(href) || "/"@.is_prefix_of(href) || href.len() == 0 || href[0] == '?' || href[0]
            == '#' ==> link_file(href) is None,
{
    if href.len() > 0 && (href[0] == '?' || href[0] == '#') {
        lemma_index_from(href, '?', 0);
        let plain = href.take(index_from(href, '?', 0));
        lemma_index_from(plain, '#', 0);
        if plain.len() > 0 {
            assert(plain[0] == href[0]);
            assert(index_from(plain, '#', 0) == 0);
        }
    }
}

/// A document links to the files of its link tags, in their order: of each tag that links to a
/// style sheet, the first address in it.
pub proof fn law_linked_files(html: Seq<char>, file: Seq<char>)
    ensures
        linked_css(html).contains(file) == exists|i: int|
            0 <= i < regex_find(LINK_TAG_RE@, html).len() && ({
                let tag = #[trigger] regex_find(LINK_TAG_RE@, html)[i];
                let hrefs = regex_captures(HREF_VAL_RE@, tag);
                &&& regex_find(REL_STYLESHEET_RE@, tag).len() > 0
                &&& hrefs.len() > 0
                &&& link_file(
                    slice(tag, (hrefs[0][1]->0).0 as int, (hrefs[0][1]->0).1 as int),
                ) == Some(file)
            }),
{
    let tags = regex_find(LINK_TAG_RE@, html);
    lemma_collected(tags, linked_file(), file);
    assert forall|i: int| 0 <= i < tags.len() implies (linked_file()(#[trigger] tags[i]) == Some(
        file,
    )) == ({
        let hrefs = regex_captures(HREF_VAL_RE@, tags[i]);
        &&& regex_find(REL_STYLESHEET_RE@, tags[i]).len() > 0
        &&& hrefs.len() > 0
        &&& link_file(
            slice(tags[i], (hrefs[0][1]->0).0 as int, (hrefs[0][1]->0).1 as int),
        ) == Some(file)
    }) by {
        let hrefs = regex_captures(HREF_VAL_RE@, tags[i]);
        let all = group_texts(tags[i], hrefs);
        assert(all.len() == hrefs.len());
        if hrefs.len() > 0 {
            assert(all[0] == slice(
                tags[i],
                (hrefs[0][1]->0).0 as int,
                (hrefs[0][1]->0).1 as int,
            ));
        }
    }
}

/// A longest run without white space: from `a` to `e`.
pub open spec fn is_word_in(s: Seq<char>, a: int, e: int) -> bool {
    &&& 0 <= a < e <= s.len()
    &&& forall|j: int| a <= j < e ==> !is_white(#[trigger] s[j])
    &&& a == 0 || is_white(s[a - 1])
    &&& e == s.len() || is_white(s[e])
}

proof fn lemma_white_from(s: Seq<char>, from: int)
    requires
        0 <= from <= s.len(),
    ensures
        from <= white_from(s, from) <= s.len(),
        white_from(s, from) < s.len() ==> is_white(s[white_from(s, from)]),
        forall|j: int| from <= j < white_from(s, from) ==> !is_white(#[trigger] s[j]),
    decreases s.len() - from,
{
    if from < s.len() && !is_white(s[from]) {
        lemma_white_from(s, from + 1);
    }
}

/// The words of a text are its longest runs without white space, all of them.
pub proof fn law_words(s: Seq<char>, word: Seq<char>)
    ensures
        words(s).contains(word) == exists|a: int, e: int| #[trigger]
            is_word_in(s, a, e) && word == s.subrange(a, e),
    decreases s.len(),
{
    if s.len() > 0 {
        if is_white(s[0]) {
            let t = s.skip(1);
            law_words(t, word);
            if exists|a: int, e: int| #[trigger] is_word_in(s, a, e) && word == s.subrange(a, e) {
                let (a, e) = choose|a: int, e: int| #[trigger]
                    is_word_in(s, a, e) && word == s.subrange(a, e);
                assert(!is_white(s[a]));
                assert forall|j: int| a - 1 <= j < e - 1 implies !is_white(#[trigger] t[j]) by {
                    assert(t[j] == s[j + 1]);
                }
                assert(is_word_in(t, a - 1, e - 1));
                assert(t.subrange(a - 1, e - 1) =~= word);
            }
            if words(t).contains(word) {
                let (a, e) = choose|a: int, e: int| #[trigger]
                    is_word_in(t, a, e) && word == t.subrange(a, e);
                assert forall|j: int| a + 1 <= j < e + 1 implies !is_white(#[trigger] s[j]) by {
                    assert(t[j - 1] == s[j]);
                }
                assert(is_word_in(s, a + 1, e + 1));
                assert(s.subrange(a + 1, e + 1) =~= word);
            }
        } else {
            lemma_white_from(s, 0);
            let k = white_from(s, 0);
            let t = s.skip(k);
            let first = s.take(k);
            law_words(t, word);
            let all = words(s);
            assert(all == seq![first] + words(t));
            lemma_concat_contains(seq![first], words(t), word);
            assert(is_word_in(s, 0, k));
            assert(s.subrange(0, k) =~= first);
            if seq![first].contains(word) {
                assert(word == first);
            }
            if words(t).contains(word) {
                let (a, e) = choose|a: int, e: int| #[trigger]
                    is_word_in(t, a, e) && word == t.subrange(a, e);
                if a == 0 {
                    assert(t[0] == s[k]);
                    assert(!is_white(t[0]));
                }
                assert forall|j: int| a + k <= j < e + k implies !is_white(#[trigger] s[j]) by {
                    assert(t[j - k] == s[j]);
                }
                assert(is_word_in(s, a + k, e + k));
                assert(s.subrange(a + k, e + k) =~= word);
            }
            if exists|a: int, e: int| #[trigger] is_word_in(s, a, e) && word == s.subrange(a, e) {
                let (a, e) = choose|a: int, e: int| #[trigger]
                    is_word_in(s, a, e) && word == s.subrange(a, e);
                if a == 0 {
                    if e < k {
                        assert(is_white(s[e]));
                    } else if k < e {
                        assert(!is_white(s[k]));
                    }
                    assert(word =~= first);
                    assert(seq![first][0] == word);
                } else {
                    if a - 1 < k {
                        assert(is_white(s[a - 1]));
                    }
                    assert forall|j: int| a - k <= j < e - k implies !is_white(#[trigger] t[j]) by {
                        assert(t[j] == s[j + k]);
                    }
                    assert(is_word_in(t, a - k, e - k));
                    assert(t.subrange(a - k, e - k) =~= word);
                }
            }
        }
    }
}

proof fn lemma_all_words(s: Seq<Seq<char>>, i: int, word: Seq<char>)
    requires
        0 <= i < s.len(),
        words(s[i]).contains(word),
    ensures
        all_words(s).contains(word),
    decreases s.len(),
{
    lemma_concat_contains(all_words(s.drop_last()), words(s.last()), word);
    if i < s.len() - 1 {
        assert(s.drop_last()[i] == s[i]);
        lemma_all_words(s.drop_last(), i, word);
    }
}

proof fn lemma_all_selector_names(s: Seq<Seq<char>>, i: int, name: Seq<char>)
    requires
        0 <= i < s.len(),
        selector_names(s[i]).contains(name),
    ensures
        all_selector_names(s).contains(name),
    decreases s.len(),
{
    lemma_concat_contains(
        all_selector_names(s.drop_last()),
        selector_names(s.last()),
        name,
    );
    if i < s.len() - 1 {
        assert(s.drop_last()[i] == s[i]);
        lemma_all_selector_names(s.drop_last(), i, name);
    }
}

/// A script uses every word that it hands to `classList` or `getElementsByClassName`, and every
/// class and identifier of a selector that it queries, in each of its calls.
pub proof fn law_scripts_use_names(
    content: Seq<char>,
    m: int,
    a: int,
    e: int,
    name: Seq<char>,
)
    ensures
        ({
            let calls = regex_captures(JS_CLASSLIST_RE@, content);
            let text = slice(content, (calls[m][1]->0).0 as int, (calls[m][1]->0).1 as int);
            0 <= m < calls.len() && is_word_in(text, a, e) ==> js_names(content).contains(
                text.subrange(a, e),
            )
        }),
        ({
            let calls = regex_captures(JS_GEBC_RE@, content);
            let text = slice(content, (calls[m][1]->0).0 as int, (calls[m][1]->0).1 as int);
            0 <= m < calls.len() && is_word_in(text, a, e) ==> js_names(content).contains(
                text.subrange(a, e),
            )
        }),
        ({
            let calls = regex_captures(JS_QUERY_RE@, content);
            let text = slice(content, (calls[m][1]->0).0 as int, (calls[m][1]->0).1 as int);
            0 <= m < calls.len() && names_at(text, a, e, name) ==> js_names(content).contains(name)
        }),
{
    let lists = regex_captures(JS_CLASSLIST_RE@, content);
    let gets = regex_captures(JS_GEBC_RE@, content);
    let queries = regex_captures(JS_QUERY_RE@, content);
    let x = all_words(group_texts(content, lists));
    let y = all_words(group_texts(content, gets));
    let z = all_selector_names(group_texts(content, queries));
    let one = slice(content, (lists[m][1]->0).0 as int, (lists[m][1]->0).1 as int);
    if 0 <= m < lists.len() && is_word_in(one, a, e) {
        assert(group_texts(content, lists)[m] == one);
        law_words(one, one.subrange(a, e));
        lemma_all_words(group_texts(content, lists), m, one.subrange(a, e));
        lemma_concat_contains(x, y, one.subrange(a, e));
        lemma_concat_contains(x + y, z, one.subrange(a, e));
    }
    let two = slice(content, (gets[m][1]->0).0 as int, (gets[m][1]->0).1 as int);
    if 0 <= m < gets.len() && is_word_in(two, a, e) {
        assert(group_texts(content, gets)[m] == two);
        law_words(two, two.subrange(a, e));
        lemma_all_words(group_texts(content, gets), m, two.subrange(a, e));
        lemma_concat_contains(x, y, two.subrange(a, e));
        lemma_concat_contains(x + y, z, two.subrange(a, e));
    }
    let three = slice(content, (queries[m][1]->0).0 as int, (queries[m][1]->0).1 as int);
    if 0 <= m < queries.len() && names_at(three, a, e, name) {
        assert(group_texts(content, queries)[m] == three);
        law_names_of_a_selector(three, name);
        lemma_all_selector_names(group_texts(content, queries), m, name);
        lemma_concat_contains(x + y, z, name);
    }
}

/// A document sees of a name the definitions in the style sheets that it reaches, or in all of them
/// if it reaches none, and then those in its own `<style>` blocks. A file is reached if what its
/// path resolves to is among the files reached.
pub proof fn law_what_a_document_sees(
    rows: ClassRows,
    resolved: Seq<(Seq<char>, Seq<char>)>,
    reachable: Seq<Seq<char>>,
    blocks: Seq<(u32, Seq<char>)>,
    path: Seq<char>,
    name: Seq<char>,
    info: ClassInfoView,
)
    requires
        class_map_inv(rows),
    ensures
        document_rows(rows, resolved, reachable, blocks, path) is None == (reachable.len() == 0
            && blocks.len() == 0),
        document_rows(rows, resolved, reachable, blocks, path) is Some ==> document_rows(
            rows,
            resolved,
            reachable,
            blocks,
            path,
        )->0 == with_blocks(
            if reachable.len() == 0 {
                rows
            } else {
                scoped_rows(rows, resolved, reachable)
            },
            blocks,
            source_name(path),
            path,
            blocks.len() as int,
        ),
        definitions(scoped_rows(rows, resolved, reachable), name).contains(info) == (definitions(
            rows,
            name,
        ).contains(info) && lookup(resolved, info.source_path) is Some && reachable.contains(
            lookup(resolved, info.source_path)->0,
        )),
{
    law_scope_keeps_reached_files(rows, resolved, reachable, name);
    let infos = definitions(rows, name);
    let f = in_scope(resolved, reachable);
    lemma_collected(infos, f, info);
    if infos.contains(info) && reaches(info.source_path, resolved, reachable) {
        let i = choose|i: int| 0 <= i < infos.len() && infos[i] == info;
        assert(f(infos[i]) == Some(info));
    }
    if collect(infos, f).contains(info) {
        let i = choose|i: int| 0 <= i < infos.len() && f(#[trigger] infos[i]) == Some(info);
        assert(infos[i] == info);
    }
}

/// The rules that a document sees are chosen in the same way.
pub proof fn law_what_rules_a_document_sees(
    rules: Seq<ClassInfoView>,
    resolved: Seq<(Seq<char>, Seq<char>)>,
    reachable: Seq<Seq<char>>,
    blocks: Seq<(u32, Seq<char>)>,
    path: Seq<char>,
    info: ClassInfoView,
)
    ensures
        reachable.len() == 0 ==> document_rules(rules, resolved, reachable, blocks, path)
            == with_block_rules(rules, blocks, source_name(path), path, blocks.len() as int),
        reachable.len() > 0 ==> document_rules(rules, resolved, reachable, blocks, path)
            == with_block_rules(
            collect(rules, in_scope(resolved, reachable)),
            blocks,
            source_name(path),
            path,
            blocks.len() as int,
        ),
        collect(rules, in_scope(resolved, reachable)).contains(info) == (rules.contains(info)
            && lookup(resolved, info.source_path) is Some && reachable.contains(
            lookup(resolved, info.source_path)->0,
        )),
{
    let f = in_scope(resolved, reachable);
    lemma_collected(rules, f, info);
    if rules.contains(info) && reaches(info.source_path, resolved, reachable) {
        let i = choose|i: int| 0 <= i < rules.len() && rules[i] == info;
        assert(f(rules[i]) == Some(info));
    }
    if collect(rules, f).contains(info) {
        let i = choose|i: int| 0 <= i < rules.len() && f(#[trigger] rules[i]) == Some(info);
        assert(rules[i] == info);
    }
}

/// A `<style>` block begins on the line on which its content begins and holds what stands in the
/// element.
pub proof fn law_style_blocks(text: Seq<char>, i: int)
    requires
        0 <= i < regex_captures(STYLE_BLOCK_RE@, text).len(),
    ensures
        style_blocks(text).len() == regex_captures(STYLE_BLOCK_RE@, text).len(),
        ({
            let g = regex_captures(STYLE_BLOCK_RE@, text)[i];
            style_blocks(text)[i] == (
                line_number(newlines(slice(text, 0, (g[1]->0).0 as int)) as int),
                slice(text, (g[1]->0).0 as int, (g[1]->0).1 as int),
            )
        }),
{
}

/// The rules of blocks add up, block by block.
pub proof fn law_block_rules_add_up(
    rules: Seq<ClassInfoView>,
    blocks: Seq<(u32, Seq<char>)>,
    file: Seq<char>,
    path: Seq<char>,
    k: int,
)
    requires
        0 <= k < blocks.len(),
    ensures
        with_block_rules(rules, blocks, file, path, 0) == rules,
        with_block_rules(rules, blocks, file, path, k + 1) == with_block_rules(
            rules,
            blocks,
            file,
            path,
            k,
        ) + css_rule_infos(blocks[k].1, blocks[k].0 as int, file, path),
        blocks_readable(blocks) ==> css_rules(blocks[k].1, blocks[k].0 as int) is Some,
{
}

/// Every rule of a style sheet is kept, whatever its selector, with what it says and where it
/// stands.
pub proof fn law_every_rule_is_kept(
    content: Seq<char>,
    base: int,
    file: Seq<char>,
    path: Seq<char>,
    i: int,
)
    requires
        css_rules(content, base) is Some,
        0 <= i < css_rules(content, base)->0.len(),
    ensures
        css_rule_infos(content, base, file, path).len() == css_rules(content, base)->0.len(),
        ({
            let rule = css_rules(content, base)->0[i];
            css_rule_infos(content, base, file, path)[i] == (ClassInfoView {
                properties: rule.properties,
                selector: trim(rule.selector),
                media_query: rule.media_query,
                layer: rule.layer,
                source_file: file,
                source_path: path,
                definition_line: rule.line,
            })
        }),
{
}

/// The files that a document links to are those of a list that it reaches.
pub proof fn law_reached_files(
    resolved: Seq<(Seq<char>, Seq<char>)>,
    reachable: Seq<Seq<char>>,
    path: Seq<char>,
    rules: Seq<ClassInfoView>,
)
    ensures
        path_in_scope(resolved, reachable)(path) == (if lookup(resolved, path)
            is Some && reachable.contains(lookup(resolved, path)->0) {
            Some(path)
        } else {
            None
        }),
        rule_files(rules) == first_occurrences(
            rules.map_values(|i: ClassInfoView| i.source_path),
        ),
{
}

/// A script uses nothing else: each name comes from one of its calls.
pub proof fn law_scripts_use_nothing_else(content: Seq<char>, name: Seq<char>)
    requires
        js_names(content).contains(name),
    ensures
        (exists|m: int|
            0 <= m < regex_captures(JS_CLASSLIST_RE@, content).len() && words(
                slice(
                    content,
                    ((#[trigger] regex_captures(JS_CLASSLIST_RE@, content)[m])[1]->0).0 as int,
                    (regex_captures(JS_CLASSLIST_RE@, content)[m][1]->0).1 as int,
                ),
            ).contains(name)) || (exists|m: int|
            0 <= m < regex_captures(JS_GEBC_RE@, content).len() && words(
                slice(
                    content,
                    ((#[trigger] regex_captures(JS_GEBC_RE@, content)[m])[1]->0).0 as int,
                    (regex_captures(JS_GEBC_RE@, content)[m][1]->0).1 as int,
                ),
            ).contains(name)) || (exists|m: int|
            0 <= m < regex_captures(JS_QUERY_RE@, content).len() && selector_names(
                slice(
                    content,
                    ((#[trigger] regex_captures(JS_QUERY_RE@, content)[m])[1]->0).0 as int,
                    (regex_captures(JS_QUERY_RE@, content)[m][1]->0).1 as int,
                ),
            ).contains(name)),
{
    let lists = regex_captures(JS_CLASSLIST_RE@, content);
    let gets = regex_captures(JS_GEBC_RE@, content);
    let queries = regex_captures(JS_QUERY_RE@, content);
    let x = all_words(group_texts(content, lists));
    let y = all_words(group_texts(content, gets));
    let z = all_selector_names(group_texts(content, queries));
    lemma_concat_contains(x + y, z, name);
    lemma_concat_contains(x, y, name);
    if x.contains(name) {
        lemma_word_from(group_texts(content, lists), name);
        let m = choose|m: int|
            0 <= m < group_texts(content, lists).len() && words(
                #[trigger] group_texts(content, lists)[m],
            ).contains(name);
        assert(group_texts(content, lists)[m] == slice(
            content,
            (lists[m][1]->0).0 as int,
            (lists[m][1]->0).1 as int,
        ));
    } else if y.contains(name) {
        lemma_word_from(group_texts(content, gets), name);
        let m = choose|m: int|
            0 <= m < group_texts(content, gets).len() && words(
                #[trigger] group_texts(content, gets)[m],
            ).contains(name);
        assert(group_texts(content, gets)[m] == slice(
            content,
            (gets[m][1]->0).0 as int,
            (gets[m][1]->0).1 as int,
        ));
    } else {
        lemma_selector_from(group_texts(content, queries), name);
        let m = choose|m: int|
            0 <= m < group_texts(content, queries).len() && selector_names(
                #[trigger] group_texts(content, queries)[m],
            ).contains(name);
        assert(group_texts(content, queries)[m] == slice(
            content,
            (queries[m][1]->0).0 as int,
            (queries[m][1]->0).1 as int,
        ));
    }
}

proof fn lemma_word_from(s: Seq<Seq<char>>, word: Seq<char>)
    requires
        all_words(s).contains(word),
    ensures
        exists|m: int| 0 <= m < s.len() && words(#[trigger] s[m]).contains(word),
    decreases s.len(),
{
    if s.len() > 0 {
        lemma_concat_contains(all_words(s.drop_last()), words(s.last()), word);
        if all_words(s.drop_last()).contains(word) {
            lemma_word_from(s.drop_last(), word);
            let m = choose|m: int|
                0 <= m < s.drop_last().len() && words(#[trigger] s.drop_last()[m]).contains(word);
            assert(s[m] == s.drop_last()[m]);
        } else {
            assert(words(s[s.len() - 1]).contains(word));
        }
    }
}

proof fn lemma_selector_from(s: Seq<Seq<char>>, name: Seq<char>)
    requires
        all_selector_names(s).contains(name),
    ensures
        exists|m: int|
            0 <= m < s.len() && selector_names(#[trigger] s[m]).contains(name),
    decreases s.len(),
{
    if s.len() > 0 {
        lemma_concat_contains(
            all_selector_names(s.drop_last()),
            selector_names(s.last()),
            name,
        );
        if all_selector_names(s.drop_last()).contains(name) {
            lemma_selector_from(s.drop_last(), name);
            let m = choose|m: int|
                0 <= m < s.drop_last().len() && selector_names(
                    #[trigger] s.drop_last()[m],
                ).contains(name);
            assert(s[m] == s.drop_last()[m]);
        } else {
            assert(selector_names(s[s.len() - 1]).contains(name));
        }
    }
}

} // verus!
