//! Renaming a class or an identifier everywhere.

use crate::collect::{lemma_collect, lemma_first_occurrences_within};
use crate::context::{inside_attr, key_at, Attribute};
use crate::css::{
    css_rules, is_quote, law_comments_keep_positions, string_end, without_comments, RuleView,
};
use crate::cursor::{valid_css_ident, word_at_position};
use crate::heads::{head_span, heads_from, is_selector, line_begin, position_in};
use crate::html::html_refs;
use crate::laws::blocks::law_lines_are_counted;
use crate::laws::completion::{begins_with_mark, lemma_mark};
use crate::laws::navigation::{
    as_selector, at_columns, law_references_are_the_uses, lemma_as_selector, lemma_concat_contains,
    refers_to,
};
use crate::model::{definitions, ClassInfoView, ClassRows};
use crate::paths::{file_to_uri, path_extension, uri_to_file};
use crate::pattern::is_name_char;
use crate::protocol::{LocationView, Position, Range, TextEditView};
use crate::references::uses_in;
use crate::rename::{
    bad_name_message, defined_at, definition_edits, definition_lines,
    law_rename_reaches_every_selector, law_renaming_leaves_no_definition_out,
    law_renaming_leaves_no_use_out, line_edits, places, rename_changes, rename_key, replace_at,
    selector_edit, selector_edits, selector_like, stands_in_head, use_edits,
};
use crate::symbols::display_name;
use crate::table::{append_all, items_for, lemma_append_all, lemma_row_of, list_at, lookup};
use crate::text::{lemma_newlines_concat, lemma_trim, line_number, newlines, occurs_at, trim};
use vstd::prelude::*;
use vstd::utf8::encode_utf8;

verus! {

/// Where in a style sheet a rename can start: the document is an open style sheet, and the position
/// lies in no `class` or `id` value.
pub open spec fn in_style_sheet(
    uri: Seq<char>,
    pos: Position,
    documents: Seq<(Seq<char>, Seq<char>)>,
    text: Seq<char>,
    path: Seq<char>,
) -> bool {
    &&& lookup(documents, uri) == Some(text)
    &&& uri_to_file(uri) == Some(path)
    &&& path_extension(path) == Some("css"@)
    &&& !inside_attr(text, pos, Attribute::Class)
    &&& !inside_attr(text, pos, Attribute::Id)
}

/// A rename can start from each definition of a class: on the line of any of them, on the name.
pub proof fn law_a_rename_starts_from_every_class_definition(
    uri: Seq<char>,
    pos: Position,
    rows: ClassRows,
    documents: Seq<(Seq<char>, Seq<char>)>,
    text: Seq<char>,
    path: Seq<char>,
    name: Seq<char>,
    i: int,
)
    requires
        in_style_sheet(uri, pos, documents, text, path),
        word_at_position(text, pos) == Some(name),
        0 <= i < definitions(rows, name).len(),
        definitions(rows, name)[i].source_path == path,
        definitions(rows, name)[i].definition_line == pos.line,
    ensures
        rename_key(uri, pos, rows, documents) == Some(name),
{
}

/// A rename can start from each definition of an identifier, on the name, where no class of that
/// name is defined on the line.
pub proof fn law_a_rename_starts_from_every_id_definition(
    uri: Seq<char>,
    pos: Position,
    rows: ClassRows,
    documents: Seq<(Seq<char>, Seq<char>)>,
    text: Seq<char>,
    path: Seq<char>,
    name: Seq<char>,
    i: int,
)
    requires
        in_style_sheet(uri, pos, documents, text, path),
        word_at_position(text, pos) == Some(name),
        0 <= i < definitions(rows, seq!['#'] + name).len(),
        definitions(rows, seq!['#'] + name)[i].source_path == path,
        definitions(rows, seq!['#'] + name)[i].definition_line == pos.line,
        forall|j: int|
            0 <= j < definitions(rows, name).len() ==> !((#[trigger] definitions(
                rows,
                name,
            )[j]).source_path == path && definitions(rows, name)[j].definition_line == pos.line),
    ensures
        rename_key(uri, pos, rows, documents) == Some(seq!['#'] + name),
{
    reveal_strlit("#");
    assert("#"@ =~= seq!['#']);
    let defs = definitions(rows, "#"@ + name);
    assert(defs[i].source_path == path && defs[i].definition_line == pos.line);
    assert(defined_at(rows, "#"@ + name, path, pos.line));
}

/// What can be renamed otherwise: inside a `class` or `id` value the name there; in a style sheet
/// nothing but a name that is defined on the line; and in no document that is not open.
pub proof fn law_what_is_renamed(
    uri: Seq<char>,
    pos: Position,
    rows: ClassRows,
    documents: Seq<(Seq<char>, Seq<char>)>,
    text: Seq<char>,
)
    ensures
        lookup(documents, uri) is None ==> rename_key(uri, pos, rows, documents) is None,
        lookup(documents, uri) == Some(text) && (inside_attr(text, pos, Attribute::Class)
            || inside_attr(text, pos, Attribute::Id)) ==> rename_key(uri, pos, rows, documents)
            == key_at(text, pos),
        lookup(documents, uri) == Some(text) && !inside_attr(text, pos, Attribute::Class)
            && !inside_attr(text, pos, Attribute::Id) && rename_key(uri, pos, rows, documents)
            is Some ==> {
            let key = rename_key(uri, pos, rows, documents)->0;
            let word = word_at_position(text, pos);
            &&& word == Some(key) || (word is Some && key == seq!['#'] + word->0)
            &&& exists|i: int|
                0 <= i < definitions(rows, key).len() && Some(
                    (#[trigger] definitions(rows, key)[i]).source_path,
                ) == uri_to_file(uri) && definitions(rows, key)[i].definition_line == pos.line
        },
{
    reveal_strlit("#");
    assert("#"@ =~= seq!['#']);
}

/// A new name is accepted exactly if it is not empty, begins with no digit and holds name
/// characters only.
pub proof fn law_new_names(name: Seq<char>)
    ensures
        valid_css_ident(name) <==> name.len() > 0 && !('0' <= name[0] && name[0] <= '9') && forall|
            i: int,
        |
            0 <= i < name.len() ==> is_name_char(#[trigger] name[i]),
{
}

/// The position of a place counts the line feeds before it and the bytes since the last of them.
pub proof fn law_positions(before: Seq<char>, line: Seq<char>, rest: Seq<char>)
    requires
        before.len() > 0 ==> before.last() == '\n',
        !line.contains('\n'),
    ensures
        position_in(before + line + rest, (before.len() + line.len()) as int) == (Position {
            line: line_number(newlines(before) as int),
            character: encode_utf8(line).len() as u32,
        }),
{
    let s = before + line + rest;
    let a = before.len() as int;
    let i = a + line.len();
    lemma_line_begins(s, a, i, line);
    assert(s.subrange(a, i) =~= line);
    assert(s.take(i) =~= before + line);
    lemma_newlines_concat(before, line);
    law_lines_are_counted(line, Seq::empty(), 0);
}

proof fn lemma_line_begins(s: Seq<char>, a: int, i: int, line: Seq<char>)
    requires
        0 <= a <= i <= s.len(),
        i <= a + line.len(),
        a > 0 ==> s[a - 1] == '\n',
        forall|j: int| a <= j < i ==> s[j] == line[j - a],
        !line.contains('\n'),
    ensures
        line_begin(s, i) == a,
    decreases i - a,
{
    if i > a {
        assert(line.contains(line[i - 1 - a]));
        lemma_line_begins(s, a, i - 1, line);
    }
}

/// Every use is renamed: in each document each reference to the name is replaced, at its columns,
/// by the new name.
pub proof fn law_every_use_is_renamed(
    key: Seq<char>,
    new_name: Seq<char>,
    rows: ClassRows,
    sources: Seq<(Seq<char>, Seq<char>)>,
    files: Seq<(Seq<char>, Seq<char>)>,
    k: int,
    i: int,
)
    requires
        0 <= k < files.len(),
        0 <= i < html_refs(files[k].1).len(),
        refers_to(html_refs(files[k].1)[i], key),
    ensures
        list_at(rename_changes(key, new_name, rows, sources, files), files[k].0).contains(
            TextEditView { range: at_columns(html_refs(files[k].1)[i]), new_text: new_name },
        ),
{
    let place = LocationView { uri: files[k].0, range: at_columns(html_refs(files[k].1)[i]) };
    law_references_are_the_uses(key, files, files.len() as int, place);
    let uses = uses_in(key, files);
    let j = choose|j: int| 0 <= j < uses.len() && uses[j] == place;
    law_renaming_leaves_no_use_out(key, new_name, rows, sources, files, j);
}

/// Every definition is renamed: wherever the name stands as a whole in the selector of a rule on
/// the line of one of its definitions, it is replaced there, with its mark, by the new name.
pub proof fn law_every_definition_is_renamed(
    key: Seq<char>,
    new_name: Seq<char>,
    rows: ClassRows,
    sources: Seq<(Seq<char>, Seq<char>)>,
    files: Seq<(Seq<char>, Seq<char>)>,
    d: int,
    content: Seq<char>,
    uri: Seq<char>,
    rule: RuleView,
    p: int,
)
    requires
        0 <= d < definitions(rows, key).len(),
        file_to_uri(definitions(rows, key)[d].source_path) == Some(uri),
        lookup(sources, definitions(rows, key)[d].source_path) == Some(content),
        css_rules(content, 0) is Some,
        css_rules(content, 0)->0.contains(rule),
        rule.line == definitions(rows, key)[d].definition_line,
        key.len() > 0,
        occurs_at(rule.selector, as_selector(key), p),
        p + as_selector(key).len() == rule.selector.len() || !is_name_char(
            rule.selector[p + as_selector(key).len()],
        ),
    ensures
        exists|k: int|
            occurs_at(without_comments(content), rule.selector, k - p) && line_number(
                newlines(content.take(k - p)) as int,
            ) == rule.line && list_at(
                rename_changes(key, new_name, rows, sources, files),
                uri,
            ).contains(
                TextEditView {
                    range: Range {
                        start: #[trigger] position_in(content, k),
                        end: position_in(content, k + as_selector(key).len()),
                    },
                    new_text: (if begins_with_mark(key) {
                        seq!['#']
                    } else {
                        seq!['.']
                    }) + new_name,
                },
            ),
{
    let info = definitions(rows, key)[d];
    let former = as_selector(key);
    let new = selector_like(key, new_name);
    lemma_as_selector(key);
    lemma_mark(key);
    reveal_strlit("#");
    reveal_strlit(".");
    assert("#"@ =~= seq!['#']);
    assert("."@ =~= seq!['.']);
    law_rename_reaches_every_selector(content, former, new, rule, p);
    let n = former.len() as int;
    let k = choose|k: int|
        occurs_at(without_comments(content), rule.selector, k - p) && line_number(
            newlines(content.take(k - p)) as int,
        ) == rule.line && selector_edits(content, rule.line, former, new).contains(
            #[trigger] replace_at(content, k, former.len() as int, new),
        );
    let edit = replace_at(content, k, n, new);
    assert(definitions(rows, key).contains(info));
    law_renaming_leaves_no_definition_out(key, new_name, rows, sources, files, info, edit);
    assert(position_in(content, k) == edit.range.start);
}

proof fn lemma_items_are_added<T>(added: Seq<(Seq<char>, T)>, name: Seq<char>, item: T)
    requires
        items_for(added, name).contains(item),
    ensures
        added.contains((name, item)),
    decreases added.len(),
{
    if added.len() > 0 {
        let head = added.drop_last();
        let all = items_for(added, name);
        let before = items_for(head, name);
        let j = choose|j: int| 0 <= j < all.len() && all[j] == item;
        if j < before.len() {
            assert(before[j] == item);
            lemma_items_are_added(head, name, item);
            let i = choose|i: int| 0 <= i < head.len() && head[i] == (name, item);
            assert(added[i] == (name, item));
        } else {
            assert(added[added.len() - 1] == (name, item));
        }
    }
}

proof fn lemma_definition_edit_from(
    sources: Seq<(Seq<char>, Seq<char>)>,
    former: Seq<char>,
    new: Seq<char>,
    at: Seq<(Seq<char>, u32)>,
    edit: (Seq<char>, TextEditView),
)
    requires
        definition_edits(sources, former, new, at).contains(edit),
    ensures
        exists|i: int|
            0 <= i < at.len() && #[trigger] line_edits(sources, former, new, at[i]).contains(edit),
    decreases at.len(),
{
    if at.len() > 0 {
        let head = definition_edits(sources, former, new, at.drop_last());
        let here = line_edits(sources, former, new, at.last());
        lemma_concat_contains(head, here, edit);
        if head.contains(edit) {
            lemma_definition_edit_from(sources, former, new, at.drop_last(), edit);
            let i = choose|i: int|
                0 <= i < at.drop_last().len() && #[trigger] line_edits(
                    sources,
                    former,
                    new,
                    at.drop_last()[i],
                ).contains(edit);
            assert(at.drop_last()[i] == at[i]);
            assert(line_edits(sources, former, new, at[i]).contains(edit));
        } else {
            assert(line_edits(sources, former, new, at[at.len() - 1]).contains(edit));
        }
    }
}

/// Whether an edit renames a selector on the line of a definition.
pub open spec fn renames_definition(
    sources: Seq<(Seq<char>, Seq<char>)>,
    key: Seq<char>,
    new_name: Seq<char>,
    info: ClassInfoView,
    uri: Seq<char>,
    edit: TextEditView,
) -> bool {
    &&& file_to_uri(info.source_path) == Some(uri)
    &&& lookup(sources, info.source_path) is Some
    &&& selector_edits(
        lookup(sources, info.source_path)->0,
        info.definition_line,
        display_name(key),
        selector_like(key, new_name),
    ).contains(edit)
}

/// Nothing else is edited: each edit of a renaming replaces a use of the name by the new name, or
/// the name in a selector on the line of one of its definitions.
pub proof fn law_nothing_else_is_edited(
    key: Seq<char>,
    new_name: Seq<char>,
    rows: ClassRows,
    sources: Seq<(Seq<char>, Seq<char>)>,
    files: Seq<(Seq<char>, Seq<char>)>,
    uri: Seq<char>,
    edit: TextEditView,
)
    requires
        list_at(rename_changes(key, new_name, rows, sources, files), uri).contains(edit),
    ensures
        (edit.new_text == new_name && exists|k: int, i: int|
            0 <= k < files.len() && 0 <= i < html_refs(files[k].1).len() && refers_to(
                #[trigger] html_refs(files[k].1)[i],
                key,
            ) && files[k].0 == uri && edit.range == at_columns(html_refs(files[k].1)[i])) || exists|
            d: int,
        |
            0 <= d < definitions(rows, key).len() && #[trigger] renames_definition(
                sources,
                key,
                new_name,
                definitions(rows, key)[d],
                uri,
                edit,
            ),
{
    let none = Seq::<(Seq<char>, Seq<TextEditView>)>::empty();
    let former = display_name(key);
    let new = selector_like(key, new_name);
    let at = definition_lines(definitions(rows, key));
    let first = definition_edits(sources, former, new, at);
    let uses = use_edits(uses_in(key, files), new_name);
    let mid = append_all(none, first);
    lemma_append_all(none, first, uri);
    lemma_append_all(mid, uses, uri);
    let a = list_at(none, uri);
    let b = items_for(first, uri);
    let c = items_for(uses, uri);
    lemma_concat_contains(a + b, c, edit);
    lemma_concat_contains(a, b, edit);
    assert(a.len() == 0) by {
        lemma_row_of(none, uri);
    }
    if c.contains(edit) {
        lemma_items_are_added(uses, uri, edit);
        let j = choose|j: int| 0 <= j < uses.len() && uses[j] == (uri, edit);
        let place = uses_in(key, files)[j];
        assert(place.uri == uri && place.range == edit.range && edit.new_text == new_name);
        law_references_are_the_uses(key, files, files.len() as int, place);
        assert(uses_in(key, files).contains(place));
    } else {
        lemma_items_are_added(first, uri, edit);
        lemma_definition_edit_from(sources, former, new, at, (uri, edit));
        let i = choose|i: int|
            0 <= i < at.len() && #[trigger] line_edits(sources, former, new, at[i]).contains(
                (uri, edit),
            );
        let keys = definitions(rows, key).map_values(
            |i: ClassInfoView| (i.source_path, i.definition_line),
        );
        assert(at.contains(at[i]));
        lemma_first_occurrences_within(keys, at[i]);
        let d = choose|d: int| 0 <= d < keys.len() && keys[d] == at[i];
        let here = line_edits(sources, former, new, at[i]);
        let m = choose|m: int| 0 <= m < here.len() && here[m] == (uri, edit);
        let edits = selector_edits(lookup(sources, at[i].0)->0, at[i].1, former, new);
        assert(edits[m] == edit);
        assert(edits.contains(edit));
        assert(renames_definition(
            sources,
            key,
            new_name,
            definitions(rows, key)[d],
            uri,
            edit,
        ));
    }
}

/// Only whole names are replaced, and nothing else with them: each edit of a line covers the old
/// selector where it stands outside comments with no name character behind it, and puts the new one
/// in its place.
pub proof fn law_only_whole_names_are_replaced(
    content: Seq<char>,
    line: u32,
    former: Seq<char>,
    new: Seq<char>,
    edit: TextEditView,
)
    requires
        selector_edits(content, line, former, new).contains(edit),
    ensures
        exists|k: int| #[trigger]
            stands_whole(without_comments(content), line, former, k) && edit == (TextEditView {
                range: Range {
                    start: position_in(content, k),
                    end: position_in(content, k + former.len()),
                },
                new_text: new,
            }),
{
    let s = without_comments(content);
    let f = selector_edit(content, line, former, new);
    let all = places(content.len());
    lemma_collect(all, f);
    let edits = selector_edits(content, line, former, new);
    let j = choose|j: int| 0 <= j < edits.len() && edits[j] == edit;
    let k = choose|k: int| 0 <= k < all.len() && f(#[trigger] all[k]) == Some(edits[j]);
    assert(all[k] == k);
    law_comments_keep_positions(content);
    let heads = heads_from(s, 0, 0);
    let h = choose|h: int|
        0 <= h < heads.len() && stands_in_head(
            s,
            #[trigger] heads[h],
            line,
            former,
            k,
        );
    lemma_head_is_selector(s, 0, 0, h);
    assert(is_selector_at(s, heads[h].0, heads[h].1));
    assert(stands_whole(s, line, former, k));
}

/// The old selector stands at `k`, no name character behind it, in a selector list that begins on
/// the line.
pub open spec fn stands_whole(s: Seq<char>, line: u32, former: Seq<char>, k: int) -> bool {
    &&& occurs_at(s, former, k)
    &&& k + former.len() == s.len() || !is_name_char(s[k + former.len()])
    &&& exists|a: int, b: int|
        a <= k && k + former.len() <= b && line_number(newlines(s.take(a)) as int) == line
            && #[trigger] is_selector_at(s, a, b)
}

/// A selector of a rule: what stands before an opening brace, back to the brace or semicolon before
/// it or to the start, without the white space around it.
pub open spec fn is_selector_at(s: Seq<char>, a: int, b: int) -> bool {
    exists|chunk: int, open: int| #[trigger] is_head_between(s, chunk, open, a, b)
}

/// A selector between `chunk`, where it may begin, and the opening brace behind it.
pub open spec fn is_head_between(s: Seq<char>, chunk: int, open: int, a: int, b: int) -> bool {
    &&& 0 <= chunk <= a < b <= open < s.len()
    &&& s[open] == '{'
    &&& chunk == 0 || s[chunk - 1] == ';' || s[chunk - 1] == '}' || s[chunk - 1] == '{'
    &&& s.subrange(a, b) == trim(s.subrange(chunk, open))
    &&& s[a] != '@'
}

proof fn lemma_head_is_selector(s: Seq<char>, i: int, chunk: int, j: int)
    requires
        0 <= j < heads_from(s, i, chunk).len(),
        0 <= chunk <= i,
        chunk == 0 || s[chunk - 1] == ';' || s[chunk - 1] == '}' || s[chunk - 1] == '{',
    ensures
        is_selector_at(
            s,
            heads_from(s, i, chunk)[j].0,
            heads_from(s, i, chunk)[j].1,
        ),
    decreases s.len() - i,
{
    let all = heads_from(s, i, chunk);
    if i < s.len() {
        if is_quote(s[i]) {
            let e = string_end(s, i + 1, s[i]);
            if i < e < s.len() {
                lemma_head_is_selector(s, e + 1, chunk, j);
            }
        } else if s[i] == ';' || s[i] == '}' {
            lemma_head_is_selector(s, i + 1, i + 1, j);
        } else if s[i] == '{' {
            let raw = s.subrange(chunk, i);
            let rest = heads_from(s, i + 1, i + 1);
            if is_selector(trim(raw)) {
                if j == 0 {
                    let h = head_span(s, chunk, i);
                    assert(all[0] == h);
                    lemma_trim(raw);
                    assert(s.subrange(h.0, h.1) =~= trim(raw));
                    assert(s.subrange(h.0, h.1)[0] == s[h.0]);
                    assert(is_head_between(s, chunk, i, h.0, h.1));
                } else {
                    assert(all[j] == rest[j - 1]);
                    lemma_head_is_selector(s, i + 1, i + 1, j - 1);
                }
            } else {
                lemma_head_is_selector(s, i + 1, i + 1, j);
            }
        } else {
            lemma_head_is_selector(s, i + 1, chunk, j);
        }
    }
}

/// A name that is refused is named in the reason.
pub proof fn law_refusals(name: Seq<char>)
    ensures
        bad_name_message(name) == "'"@ + name + "' is not a valid CSS identifier"@,
{
}

} // verus!
