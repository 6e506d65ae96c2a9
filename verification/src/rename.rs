//! Renaming of classes and identifiers.

use crate::collect::{
    collect, first_occurrences, lemma_collect, lemma_collect_step, lemma_first_occurrences_push,
    lemma_first_occurrences_within,
};
use crate::context::{
    in_class_attribute, in_id_attribute, inside_attr, key_at, selector_key, Attribute,
};
use crate::css::{
    css_rules, law_comments_keep_line_numbers, law_comments_keep_positions, strip_comments,
    without_comments, RuleView,
};
use crate::cursor::{is_valid_css_ident, name_char, valid_css_ident, word_at, word_at_position};
use crate::heads::{
    find_heads, has_head, heads_from, is_head_of, is_span, law_every_rule_has_its_selector,
    lemma_heads, lemma_heads_end, position_in, position_of, spans,
};
use crate::model::{
    definitions, opt_text, ClassInfo, ClassInfoView, ClassMap, ClassRows, DocumentMap,
};
use crate::paths::{file_to_uri, uri_of_file};
use crate::pattern::{is_name_char, Patterns};
use crate::protocol::{Location, LocationView, Position, Range, TextEdit, TextEditView};
use crate::references::{is_id_key, uses_in, workspace_html_refs};
use crate::symbols::{css_file, css_file_of, display_name, show_name};
use crate::table::{
    append_all, items_for, lemma_append_all, lemma_append_all_concat, list_at, lookup, Table,
};
use crate::text::{
    chars_of, concat3, count_newlines, line_number, newlines, occurs_at, same_text, stands_at,
    starts_with, texts, to_line,
};
use vstd::prelude::*;
use vstd::slice::slice_subrange;
use vstd::string::StringExecFns;

verus! {

/// A request that is refused: a code and a reason.
#[derive(Debug)]
pub struct RequestError {
    pub code: i32,
    pub message: String,
}

/// The code for parameters that are not acceptable.
pub const INVALID_PARAMS: i32 = -32602;

/// Whether a definition of a name stands on a line of a file.
pub open spec fn defined_at(rows: ClassRows, key: Seq<char>, path: Seq<char>, line: u32) -> bool {
    exists|i: int|
        0 <= i < definitions(rows, key).len() && (#[trigger] definitions(rows, key)[i]).source_path
            == path && definitions(rows, key)[i].definition_line == line
}

/// Whether a definition of a name stands on a line of a file.
fn is_defined_at(class_map: &ClassMap, key: &str, path: &str, line: u32) -> (r: bool)
    ensures
        r == defined_at(class_map@, key@, path@, line),
{
    let infos = match class_map.get(key) {
        Some(infos) => infos,
        None => {
            return false;
        },
    };
    let n: usize = infos.len();
    let mut i: usize = 0;
    proof {
        assert(infos.deep_view() == definitions(class_map@, key@));
    }
    while i < n
        invariant
            i <= n,
            n == infos@.len(),
            infos.deep_view() == definitions(class_map@, key@),
            forall|j: int|
                0 <= j < i ==> !((#[trigger] definitions(class_map@, key@)[j]).source_path == path@
                    && definitions(class_map@, key@)[j].definition_line == line),
        decreases n - i,
    {
        proof {
            assert(definitions(class_map@, key@)[i as int] == infos@[i as int].deep_view());
        }
        if infos[i].definition_line == line && same_text(infos[i].source_path.as_str(), path) {
            return true;
        }
        i = i + 1;
    }
    false
}

/// The name that a style sheet defines at a position: the word there as a class, or else as an
/// identifier, if one of its definitions stands on the position's line.
pub open spec fn css_key(
    path: Option<Seq<char>>,
    text: Seq<char>,
    pos: Position,
    rows: ClassRows,
) -> Option<Seq<char>> {
    let word = word_at_position(text, pos);
    if path is Some && word is Some {
        if defined_at(rows, word->0, path->0, pos.line) {
            Some(word->0)
        } else if defined_at(rows, "#"@ + word->0, path->0, pos.line) {
            Some("#"@ + word->0)
        } else {
            None
        }
    } else {
        None
    }
}

/// The name that a style sheet defines at a position.
pub fn css_selector_in(path: &str, text: &str, pos: Position, class_map: &ClassMap) -> (r: Option<
    String,
>)
    ensures
        opt_text(r) == css_key(Some(path@), text@, pos, class_map@),
{
    let bare = match word_at(text, pos) {
        Some(w) => w,
        None => {
            return None;
        },
    };
    if is_defined_at(class_map, bare.as_str(), path, pos.line) {
        return Some(bare);
    }
    let mut key = "#".to_owned();
    key.append(bare.as_str());
    if is_defined_at(class_map, key.as_str(), path, pos.line) {
        return Some(key);
    }
    None
}

/// The name that the style sheet at an address defines at a position.
pub fn css_selector_at_cursor(
    uri: &str,
    text: &str,
    pos: Position,
    class_map: &ClassMap,
) -> (r: Option<String>)
    ensures
        opt_text(r) == css_key(css_file(uri@), text@, pos, class_map@),
{
    match css_file_of(uri) {
        Some(path) => css_selector_in(path.as_str(), text, pos, class_map),
        None => None,
    }
}

/// The name to rename: that of the attribute value at the position, or else the one that a style
/// sheet defines there.
pub open spec fn rename_key(
    uri: Seq<char>,
    pos: Position,
    rows: ClassRows,
    documents: Seq<(Seq<char>, Seq<char>)>,
) -> Option<Seq<char>> {
    match lookup(documents, uri) {
        Some(text) => if inside_attr(text, pos, Attribute::Class) || inside_attr(
            text,
            pos,
            Attribute::Id,
        ) {
            key_at(text, pos)
        } else {
            css_key(css_file(uri), text, pos, rows)
        },
        None => None,
    }
}

/// Why a new name is refused.
pub open spec fn bad_name_message(new_name: Seq<char>) -> Seq<char> {
    "'"@ + new_name + "' is not a valid CSS identifier"@
}

/// The name to rename. A new name that is no safe identifier is refused; otherwise there may be
/// nothing to rename.
pub fn rename_target(
    patterns: &Patterns,
    uri: &str,
    pos: Position,
    new_name: &str,
    class_map: &ClassMap,
    documents: &DocumentMap,
) -> (r: Result<Option<String>, RequestError>)
    ensures
        r is Ok == valid_css_ident(new_name@),
        r is Ok ==> opt_text(r->Ok_0) == rename_key(uri@, pos, class_map@, documents@),
        r is Err ==> (r->Err_0).code == INVALID_PARAMS && (r->Err_0).message@ == bad_name_message(
            new_name@,
        ),
{
    if !is_valid_css_ident(new_name) {
        let message = concat3("'", new_name, "' is not a valid CSS identifier");
        return Err(RequestError { code: INVALID_PARAMS, message });
    }
    let text = match documents.get(uri) {
        Some(t) => t.as_str(),
        None => {
            return Ok(None);
        },
    };
    if in_class_attribute(patterns, text, pos) || in_id_attribute(patterns, text, pos) {
        return Ok(selector_key(patterns, text, pos));
    }
    Ok(css_selector_at_cursor(uri, text, pos, class_map))
}

/// A name that stands in a selector on a line: at `k`, inside the selector at `h`.
pub open spec fn stands_in_head(
    s: Seq<char>,
    h: (int, int),
    line: u32,
    former: Seq<char>,
    k: int,
) -> bool {
    h.0 <= k && k + former.len() <= h.1 && line_number(newlines(s.take(h.0)) as int) == line
}

/// Whether an old selector is replaced at a place of a style sheet, comments blanked: it stands
/// there, no longer name begins there, and the place lies in a selector list that begins on the
/// line.
pub open spec fn is_renamed_at(s: Seq<char>, line: u32, former: Seq<char>, k: int) -> bool {
    &&& occurs_at(s, former, k)
    &&& !(k + former.len() < s.len() && is_name_char(s[k + former.len()]))
    &&& exists|j: int|
        0 <= j < heads_from(s, 0, 0).len() && stands_in_head(
            s,
            #[trigger] heads_from(s, 0, 0)[j],
            line,
            former,
            k,
        )
}

/// The edit that replaces a stretch of `n` characters.
pub open spec fn replace_at(content: Seq<char>, k: int, n: int, new: Seq<char>) -> TextEditView {
    TextEditView {
        range: Range { start: position_in(content, k), end: position_in(content, k + n) },
        new_text: new,
    }
}

/// The edit that renames a selector at a place.
pub open spec fn selector_edit(
    content: Seq<char>,
    line: u32,
    former: Seq<char>,
    new: Seq<char>,
) -> spec_fn(int) -> Option<TextEditView> {
    |k: int|
        if is_renamed_at(without_comments(content), line, former, k) {
            Some(replace_at(content, k, former.len() as int, new))
        } else {
            None
        }
}

/// The places of a text of `n` characters.
pub open spec fn places(n: nat) -> Seq<int> {
    Seq::new(n, |k: int| k)
}

/// The edits that rename a selector where it is defined on a line of a style sheet: in the selector
/// lists that begin on the line, also where they go on below it, each place where the old selector
/// stands is replaced once, unless a longer name begins there.
pub open spec fn selector_edits(
    content: Seq<char>,
    line: u32,
    former: Seq<char>,
    new: Seq<char>,
) -> Seq<TextEditView> {
    collect(places(content.len()), selector_edit(content, line, former, new))
}

/// Whether a name at a place stands in one of the selectors that begin on a line.
fn in_some_head(
    s: &[char],
    heads: &Vec<(usize, usize)>,
    line: u32,
    former: &[char],
    k: usize,
) -> (r: bool)
    requires
        spans(heads@) == heads_from(s@, 0, 0),
        forall|j: int| 0 <= j < heads@.len() ==> (#[trigger] heads@[j]).0 <= heads@[j].1 <= s@.len(),
        k + former@.len() <= s@.len(),
    ensures
        r == exists|j: int|
            0 <= j < heads_from(s@, 0, 0).len() && stands_in_head(
                s@,
                #[trigger] heads_from(s@, 0, 0)[j],
                line,
                former@,
                k as int,
            ),
{
    let m: usize = heads.len();
    let total: usize = s.len();
    let n: usize = former.len();
    let ghost all = heads_from(s@, 0, 0);
    let mut j: usize = 0;
    while j < m
        invariant
            j <= m,
            m == heads@.len(),
            total == s@.len(),
            n == former@.len(),
            all == heads_from(s@, 0, 0),
            spans(heads@) == all,
            forall|i: int|
                0 <= i < heads@.len() ==> (#[trigger] heads@[i]).0 <= heads@[i].1 <= s@.len(),
            k + former@.len() <= s@.len(),
            forall|i: int|
                0 <= i < j ==> !stands_in_head(s@, #[trigger] all[i], line, former@, k as int),
        decreases m - j,
    {
        let (from, to) = heads[j];
        proof {
            assert(all[j as int] == (from as int, to as int));
            assert(heads@[j as int].0 <= s@.len());
        }
        if from <= k && k + n <= to {
            let above: usize = count_newlines(slice_subrange(s, 0, from));
            proof {
                assert(s@.subrange(0, from as int) =~= s@.take(from as int));
            }
            if to_line(above as u128) == line {
                return true;
            }
        }
        j = j + 1;
    }
    false
}

/// The edits that rename a selector where it is defined on a line of a style sheet.
pub fn edit_selectors(content: &str, line: u32, former: &str, new: &str) -> (r: Vec<TextEdit>)
    ensures
        r.deep_view() == selector_edits(content@, line, former@, new@),
{
    let chars = chars_of(content);
    let stripped = strip_comments(content);
    let bare = chars_of(stripped.as_str());
    let heads = find_heads(bare.as_slice());
    let name = chars_of(former);
    let n: usize = chars.len();
    let m: usize = name.len();
    let mut r: Vec<TextEdit> = Vec::new();
    let ghost f = selector_edit(content@, line, former@, new@);
    let ghost all = places(content@.len());
    let mut k: usize = 0;
    proof {
        law_comments_keep_positions(content@);
        assert(all.take(0) =~= seq![]);
        assert(r.deep_view() =~= seq![]);
    }
    while k < n
        invariant
            k <= n,
            n == chars@.len(),
            m == name@.len(),
            chars@ == content@,
            bare@ == without_comments(content@),
            bare@.len() == n,
            name@ == former@,
            spans(heads@) == heads_from(bare@, 0, 0),
            forall|j: int|
                0 <= j < heads@.len() ==> (#[trigger] heads@[j]).0 <= heads@[j].1 <= bare@.len(),
            f == selector_edit(content@, line, former@, new@),
            all == places(content@.len()),
            r.deep_view() == collect(all.take(k as int), f),
        decreases n - k,
    {
        proof {
            lemma_collect_step(all, k as int, f);
            assert(all[k as int] == k);
        }
        if m <= n - k && stands_at(bare.as_slice(), name.as_slice(), k) {
            let longer = k + m < n && name_char(bare[k + m]);
            if !longer && in_some_head(bare.as_slice(), &heads, line, name.as_slice(), k) {
                let start = position_of(chars.as_slice(), k);
                let end = position_of(chars.as_slice(), k + m);
                let ghost before = r.deep_view();
                let edit = TextEdit { range: Range { start, end }, new_text: new.to_owned() };
                r.push(edit);
                proof {
                    assert(f(k as int) == Some(edit.deep_view()));
                    assert(r.deep_view() =~= before.push(edit.deep_view()));
                }
            }
        }
        k = k + 1;
    }
    proof {
        assert(all.take(n as int) =~= all);
    }
    r
}

/// Renaming never touches a longer name nor anything outside selectors: each edit of a line covers
/// the old selector and nothing else, in a selector list that begins on the line, and no name
/// character follows.
pub proof fn law_rename_replaces_whole_names(
    content: Seq<char>,
    line: u32,
    former: Seq<char>,
    new: Seq<char>,
    i: int,
)
    requires
        0 <= i < selector_edits(content, line, former, new).len(),
        forall|j: int| 0 <= j < former.len() ==> #[trigger] former[j] != ' ',
    ensures
        exists|k: int| #[trigger]
            is_renamed_at(without_comments(content), line, former, k) && occurs_at(
                content,
                former,
                k,
            ) && selector_edits(content, line, former, new)[i] == replace_at(
                content,
                k,
                former.len() as int,
                new,
            ),
{
    let f = selector_edit(content, line, former, new);
    let all = places(content.len());
    let s = without_comments(content);
    lemma_collect(all, f);
    let edit = selector_edits(content, line, former, new)[i];
    let k = choose|k: int| 0 <= k < all.len() && f(#[trigger] all[k]) == Some(edit);
    assert(all[k] == k);
    law_comments_keep_positions(content);
    assert(occurs_at(s, former, k));
    assert forall|j: int| 0 <= j < former.len() implies content.subrange(k, k + former.len())[j]
        == #[trigger] former[j] by {
        assert(s.subrange(k, k + former.len())[j] == s[k + j]);
    }
    assert(content.subrange(k, k + former.len()) =~= former);
    assert(is_renamed_at(s, line, former, k));
}

/// Renaming reaches every place: wherever the old selector stands as a whole name in the selector
/// of a rule, there is an edit for the rule's line that replaces it.
pub proof fn law_rename_reaches_every_selector(
    content: Seq<char>,
    former: Seq<char>,
    new: Seq<char>,
    rule: RuleView,
    p: int,
)
    requires
        css_rules(content, 0) is Some,
        css_rules(content, 0)->0.contains(rule),
        occurs_at(rule.selector, former, p),
        former.len() > 0,
        p + former.len() == rule.selector.len() || !is_name_char(rule.selector[p + former.len()]),
    ensures
        exists|k: int|
            occurs_at(without_comments(content), rule.selector, k - p) && line_number(
                newlines(content.take(k - p)) as int,
            ) == rule.line && selector_edits(content, rule.line, former, new).contains(
                #[trigger] replace_at(content, k, former.len() as int, new),
            ),
{
    let s = without_comments(content);
    let rules = css_rules(content, 0)->0;
    let n = former.len() as int;
    let i = choose|i: int| 0 <= i < rules.len() && rules[i] == rule;
    law_every_rule_has_its_selector(content);
    law_comments_keep_positions(content);
    assert(has_head(s, 0, 0, 0, rules[i]));
    let heads = heads_from(s, 0, 0);
    let h = choose|h: (int, int)| heads.contains(h) && #[trigger] is_head_of(s, 0, rule, h);
    let j = choose|j: int| 0 <= j < heads.len() && heads[j] == h;
    lemma_heads(s, 0, 0);
    lemma_heads_end(s, 0, 0, j);
    assert(is_span(s, heads[j]));
    let k = h.0 + p;
    assert(rule.selector == s.subrange(h.0, h.1));
    assert(s.subrange(k, k + n) =~= rule.selector.subrange(p, p + n));
    assert(occurs_at(s, former, k));
    if k + n < s.len() {
        if p + n < rule.selector.len() {
            assert(rule.selector[p + n] == s[k + n]);
        } else {
            assert(k + n == h.1);
        }
    }
    assert(stands_in_head(s, heads[j], rule.line, former, k));
    assert(is_renamed_at(s, rule.line, former, k));
    law_comments_keep_line_numbers(content, h.0);
    let f = selector_edit(content, rule.line, former, new);
    let all = places(content.len());
    lemma_collect(all, f);
    assert(all[k] == k);
    assert(f(all[k]) is Some);
    assert(occurs_at(s, rule.selector, k - p));
    assert(selector_edits(content, rule.line, former, new).contains(replace_at(content, k, n, new)));
}

/// The places at which a list of definitions stands, each once: files and lines.
pub open spec fn definition_lines(infos: Seq<ClassInfoView>) -> Seq<(Seq<char>, u32)> {
    first_occurrences(infos.map_values(|i: ClassInfoView| (i.source_path, i.definition_line)))
}

/// The edits that rename what is defined on a line of a file, with the address of the file.
/// `sources` holds the style sheets that can be read.
pub open spec fn line_edits(
    sources: Seq<(Seq<char>, Seq<char>)>,
    former: Seq<char>,
    new: Seq<char>,
    place: (Seq<char>, u32),
) -> Seq<(Seq<char>, TextEditView)> {
    match (file_to_uri(place.0), lookup(sources, place.0)) {
        (Some(uri), Some(content)) => addressed(uri, selector_edits(content, place.1, former, new)),
        _ => seq![],
    }
}

/// Edits with the address of their file.
pub open spec fn addressed(uri: Seq<char>, edits: Seq<TextEditView>) -> Seq<
    (Seq<char>, TextEditView),
> {
    edits.map_values(|e: TextEditView| (uri, e))
}

/// The edits that rename what is defined at a list of places.
pub open spec fn definition_edits(
    sources: Seq<(Seq<char>, Seq<char>)>,
    former: Seq<char>,
    new: Seq<char>,
    at: Seq<(Seq<char>, u32)>,
) -> Seq<(Seq<char>, TextEditView)>
    decreases at.len(),
{
    if at.len() == 0 {
        seq![]
    } else {
        definition_edits(sources, former, new, at.drop_last()) + line_edits(
            sources,
            former,
            new,
            at.last(),
        )
    }
}

/// A selector for a name, of the kind that `key` is.
pub open spec fn selector_like(key: Seq<char>, name: Seq<char>) -> Seq<char> {
    if is_id_key(key) {
        "#"@ + name
    } else {
        "."@ + name
    }
}

/// The edits that renaming a use makes, with the addresses of the documents.
pub open spec fn use_edits(places: Seq<LocationView>, new_name: Seq<char>) -> Seq<
    (Seq<char>, TextEditView),
> {
    places.map_values(
        |p: LocationView| (p.uri, TextEditView { range: p.range, new_text: new_name }),
    )
}

/// All edits of a renaming, file by file: the definitions first, then the uses in the HTML
/// documents of the workspace.
pub open spec fn rename_changes(
    key: Seq<char>,
    new_name: Seq<char>,
    rows: ClassRows,
    sources: Seq<(Seq<char>, Seq<char>)>,
    files: Seq<(Seq<char>, Seq<char>)>,
) -> Seq<(Seq<char>, Seq<TextEditView>)> {
    append_all(
        append_all(
            seq![],
            definition_edits(
                sources,
                display_name(key),
                selector_like(key, new_name),
                definition_lines(definitions(rows, key)),
            ),
        ),
        use_edits(uses_in(key, files), new_name),
    )
}

/// Adds the edits of one file.
fn add_edits(uri: &str, edits: Vec<TextEdit>, changes: &mut Table<Vec<TextEdit>>)
    ensures
        final(changes)@ == append_all(old(changes)@, addressed(uri@, edits.deep_view())),
{
    let n: usize = edits.len();
    let ghost all = addressed(uri@, edits.deep_view());
    let mut i: usize = 0;
    proof {
        assert(all.take(0) =~= seq![]);
    }
    while i < n
        invariant
            i <= n,
            n == edits@.len(),
            all == addressed(uri@, edits.deep_view()),
            changes@ == append_all(old(changes)@, all.take(i as int)),
        decreases n - i,
    {
        let edit = TextEdit { range: edits[i].range, new_text: edits[i].new_text.clone() };
        let ghost entry = (uri@, edit.deep_view());
        changes.append(uri.to_owned(), edit);
        proof {
            assert(all[i as int] == entry);
            assert(all.take(i + 1).drop_last() =~= all.take(i as int));
            assert(all.take(i + 1).last() == entry);
        }
        i = i + 1;
    }
    proof {
        assert(all.take(n as int) =~= all);
    }
}

/// Whether a definition before the one at `k` stands on the same line of the same file.
fn is_on_earlier_line(infos: &Vec<ClassInfo>, k: usize) -> (r: bool)
    requires
        k < infos@.len(),
    ensures
        r == infos.deep_view().take(k as int).map_values(
            |i: ClassInfoView| (i.source_path, i.definition_line),
        ).contains((infos@[k as int].source_path@, infos@[k as int].definition_line)),
{
    let ghost keys = infos.deep_view().take(k as int).map_values(
        |i: ClassInfoView| (i.source_path, i.definition_line),
    );
    let ghost own = (infos@[k as int].source_path@, infos@[k as int].definition_line);
    let mut j: usize = 0;
    while j < k
        invariant
            j <= k,
            k < infos@.len(),
            keys == infos.deep_view().take(k as int).map_values(
                |i: ClassInfoView| (i.source_path, i.definition_line),
            ),
            own == (infos@[k as int].source_path@, infos@[k as int].definition_line),
            forall|i: int| 0 <= i < j ==> #[trigger] keys[i] != own,
        decreases k - j,
    {
        proof {
            assert(infos.deep_view()[j as int] == infos@[j as int].deep_view());
            assert(keys[j as int] == (
                infos@[j as int].source_path@,
                infos@[j as int].definition_line,
            ));
        }
        if infos[j].definition_line == infos[k].definition_line && same_text(
            infos[j].source_path.as_str(),
            infos[k].source_path.as_str(),
        ) {
            return true;
        }
        j = j + 1;
    }
    false
}

/// Adds the edits that rename the definitions of a list.
fn edit_definitions(
    infos: &Vec<ClassInfo>,
    sources: &DocumentMap,
    former: &str,
    new: &str,
    changes: &mut Table<Vec<TextEdit>>,
)
    ensures
        final(changes)@ == append_all(
            old(changes)@,
            definition_edits(
                sources@,
                former@,
                new@,
                definition_lines(infos.deep_view()),
            ),
        ),
{
    let n: usize = infos.len();
    let ghost start = changes@;
    let ghost all = infos.deep_view();
    let mut i: usize = 0;
    proof {
        let keys = all.take(0).map_values(
            |i: ClassInfoView| (i.source_path, i.definition_line),
        );
        assert(keys.len() == 0);
        assert(definition_lines(all.take(0)).len() == 0);
    }
    while i < n
        invariant
            i <= n,
            n == infos@.len(),
            all == infos.deep_view(),
            changes@ == append_all(
                start,
                definition_edits(sources@, former@, new@, definition_lines(all.take(i as int))),
            ),
        decreases n - i,
    {
        let info = &infos[i];
        let ghost done = definition_lines(all.take(i as int));
        let ghost place = (info.source_path@, info.definition_line);
        let ghost edits = definition_edits(sources@, former@, new@, done);
        let seen = is_on_earlier_line(infos, i);
        proof {
            let keys = all.take(i as int).map_values(
                |i: ClassInfoView| (i.source_path, i.definition_line),
            );
            let more = all.take(i + 1).map_values(
                |i: ClassInfoView| (i.source_path, i.definition_line),
            );
            assert(all[i as int] == info.deep_view());
            assert(more =~= keys.push(place));
            lemma_first_occurrences_push(keys, place);
            lemma_first_occurrences_within(keys, place);
            assert(done.push(place).drop_last() =~= done);
        }
        if !seen {
            let ghost here = line_edits(sources@, former@, new@, place);
            let ghost before = changes@;
            proof {
                assert(definition_edits(sources@, former@, new@, done.push(place)) == edits + here);
                lemma_append_all_concat(start, edits, here);
            }
            if let Some(uri) = uri_of_file(info.source_path.as_str()) {
                if let Some(content) = sources.get(info.source_path.as_str()) {
                    let found = edit_selectors(
                        content.as_str(),
                        info.definition_line,
                        former,
                        new,
                    );
                    add_edits(uri.as_str(), found, changes);
                } else {
                    proof {
                        assert(append_all(before, here) == before);
                    }
                }
            } else {
                proof {
                    assert(append_all(before, here) == before);
                }
            }
        }
        i = i + 1;
    }
    proof {
        assert(all.take(n as int) =~= all);
    }
}

/// Adds the edits that rename the uses at a list of places.
pub fn edit_uses(places: &Vec<Location>, new_name: &str, changes: &mut Table<Vec<TextEdit>>)
    ensures
        final(changes)@ == append_all(
            old(changes)@,
            use_edits(places.deep_view(), new_name@),
        ),
{
    let n: usize = places.len();
    let ghost all = use_edits(places.deep_view(), new_name@);
    let mut i: usize = 0;
    proof {
        assert(all.take(0) =~= seq![]);
    }
    while i < n
        invariant
            i <= n,
            n == places@.len(),
            all == use_edits(places.deep_view(), new_name@),
            changes@ == append_all(old(changes)@, all.take(i as int)),
        decreases n - i,
    {
        let edit = TextEdit { range: places[i].range, new_text: new_name.to_owned() };
        let ghost entry = (places@[i as int].uri@, edit.deep_view());
        changes.append(places[i].uri.clone(), edit);
        proof {
            assert(all[i as int] == entry);
            assert(all.take(i + 1).drop_last() =~= all.take(i as int));
            assert(all.take(i + 1).last() == entry);
        }
        i = i + 1;
    }
    proof {
        assert(all.take(n as int) =~= all);
    }
}

/// All edits of a renaming, file by file. `sources` holds the style sheets that can be read;
/// without a workspace only definitions are renamed.
pub fn rename_edits(
    patterns: &Patterns,
    key: &str,
    new_name: &str,
    class_map: &ClassMap,
    sources: &DocumentMap,
    workspace: &Option<DocumentMap>,
) -> (r: Table<Vec<TextEdit>>)
    ensures
        r@ == rename_changes(
            key@,
            new_name@,
            class_map@,
            sources@,
            match workspace {
                Some(files) => files@,
                None => seq![],
            },
        ),
{
    let mut changes: Table<Vec<TextEdit>> = Table::new();
    proof {
        assert(changes@ =~= seq![]);
    }
    let former = show_name(key);
    let mut new = if starts_with(key, "#") {
        "#".to_owned()
    } else {
        ".".to_owned()
    };
    new.append(new_name);
    if let Some(infos) = class_map.get(key) {
        edit_definitions(infos, sources, former.as_str(), new.as_str(), &mut changes);
    } else {
        proof {
            assert(definitions(class_map@, key@) =~= seq![]);
            assert(definition_lines(definitions(class_map@, key@)).len() == 0);
        }
    }
    if let Some(files) = workspace {
        let places = workspace_html_refs(patterns, key, files);
        edit_uses(&places, new_name, &mut changes);
    } else {
        proof {
            assert(uses_in(key@, seq![]) =~= seq![]);
            assert(use_edits(seq![], new_name@) =~= seq![]);
        }
    }
    changes
}

/// The style sheets that define a name, one for each definition.
pub fn defining_files(key: &str, class_map: &ClassMap) -> (r: Vec<String>)
    ensures
        texts(r@) == definitions(class_map@, key@).map_values(|i: ClassInfoView| i.source_path),
{
    let mut r: Vec<String> = Vec::new();
    let ghost all = definitions(class_map@, key@).map_values(|i: ClassInfoView| i.source_path);
    if let Some(infos) = class_map.get(key) {
        let n: usize = infos.len();
        let mut i: usize = 0;
        proof {
            assert(infos.deep_view() == definitions(class_map@, key@));
            assert(texts(r@) =~= all.take(0));
        }
        while i < n
            invariant
                i <= n,
                n == infos@.len(),
                infos.deep_view() == definitions(class_map@, key@),
                all == definitions(class_map@, key@).map_values(
                    |i: ClassInfoView| i.source_path,
                ),
                texts(r@) == all.take(i as int),
            decreases n - i,
        {
            let ghost before = texts(r@);
            r.push(infos[i].source_path.clone());
            proof {
                assert(infos.deep_view()[i as int] == infos@[i as int].deep_view());
                assert(texts(r@) =~= before.push(infos@[i as int].source_path@));
                assert(texts(r@) =~= all.take(i + 1));
            }
            i = i + 1;
        }
        proof {
            assert(all.take(n as int) =~= all);
        }
    } else {
        proof {
            assert(texts(r@) =~= all);
        }
    }
    r
}

/// An item of a list is among those of its name.
pub proof fn lemma_item_is_for_its_name<T>(added: Seq<(Seq<char>, T)>, i: int)
    requires
        0 <= i < added.len(),
    ensures
        items_for(added, added[i].0).contains(added[i].1),
    decreases added.len(),
{
    let name = added[i].0;
    let head = added.drop_last();
    let all = items_for(added, name);
    if i == added.len() - 1 {
        assert(all.last() == added[i].1);
    } else {
        assert(head[i] == added[i]);
        lemma_item_is_for_its_name(head, i);
        let before = items_for(head, name);
        let j = choose|j: int| 0 <= j < before.len() && before[j] == added[i].1;
        assert(all[j] == added[i].1);
    }
}

/// The edits of one place of a list are among those of the list.
proof fn lemma_edits_of_a_place(
    sources: Seq<(Seq<char>, Seq<char>)>,
    former: Seq<char>,
    new: Seq<char>,
    at: Seq<(Seq<char>, u32)>,
    place: (Seq<char>, u32),
    edit: (Seq<char>, TextEditView),
)
    requires
        at.contains(place),
        line_edits(sources, former, new, place).contains(edit),
    ensures
        definition_edits(sources, former, new, at).contains(edit),
    decreases at.len(),
{
    let head = definition_edits(sources, former, new, at.drop_last());
    let here = line_edits(sources, former, new, at.last());
    if at.last() == place {
        let j = choose|j: int| 0 <= j < here.len() && here[j] == edit;
        assert((head + here)[head.len() + j] == edit);
    } else {
        let i = choose|i: int| 0 <= i < at.len() && at[i] == place;
        assert(at.drop_last()[i] == place);
        lemma_edits_of_a_place(sources, former, new, at.drop_last(), place, edit);
        let j = choose|j: int| 0 <= j < head.len() && head[j] == edit;
        assert((head + here)[j] == edit);
    }
}

/// What was added stays in the list of its name when more is added.
proof fn lemma_added_stays(
    first: Seq<(Seq<char>, TextEditView)>,
    more: Seq<(Seq<char>, TextEditView)>,
    edit: (Seq<char>, TextEditView),
)
    requires
        first.contains(edit) || more.contains(edit),
    ensures
        list_at(append_all(append_all(seq![], first), more), edit.0).contains(edit.1),
{
    let none = Seq::<(Seq<char>, Seq<TextEditView>)>::empty();
    let mid = append_all(none, first);
    lemma_append_all(none, first, edit.0);
    lemma_append_all(mid, more, edit.0);
    let a = list_at(none, edit.0);
    let b = items_for(first, edit.0);
    let c = items_for(more, edit.0);
    if first.contains(edit) {
        let e = choose|e: int| 0 <= e < first.len() && first[e] == edit;
        lemma_item_is_for_its_name(first, e);
        let j = choose|j: int| 0 <= j < b.len() && b[j] == edit.1;
        assert((a + b + c)[a.len() + j] == edit.1);
    } else {
        let e = choose|e: int| 0 <= e < more.len() && more[e] == edit;
        lemma_item_is_for_its_name(more, e);
        let j = choose|j: int| 0 <= j < c.len() && c[j] == edit.1;
        assert((a + b + c)[a.len() + b.len() + j] == edit.1);
    }
}

/// A renaming leaves no use out: each use that is found is edited in its document.
pub proof fn law_renaming_leaves_no_use_out(
    key: Seq<char>,
    new_name: Seq<char>,
    rows: ClassRows,
    sources: Seq<(Seq<char>, Seq<char>)>,
    files: Seq<(Seq<char>, Seq<char>)>,
    i: int,
)
    requires
        0 <= i < uses_in(key, files).len(),
    ensures
        list_at(
            rename_changes(key, new_name, rows, sources, files),
            uses_in(key, files)[i].uri,
        ).contains(TextEditView { range: uses_in(key, files)[i].range, new_text: new_name }),
{
    let uses = use_edits(uses_in(key, files), new_name);
    let first = definition_edits(
        sources,
        display_name(key),
        selector_like(key, new_name),
        definition_lines(definitions(rows, key)),
    );
    assert(uses[i] == (
        uses_in(key, files)[i].uri,
        TextEditView { range: uses_in(key, files)[i].range, new_text: new_name },
    ));
    assert(uses.contains(uses[i]));
    lemma_added_stays(first, uses, uses[i]);
}

/// A renaming leaves no definition out: whatever is to be edited on the line of a definition is
/// edited in its file.
pub proof fn law_renaming_leaves_no_definition_out(
    key: Seq<char>,
    new_name: Seq<char>,
    rows: ClassRows,
    sources: Seq<(Seq<char>, Seq<char>)>,
    files: Seq<(Seq<char>, Seq<char>)>,
    info: ClassInfoView,
    edit: TextEditView,
)
    requires
        definitions(rows, key).contains(info),
        file_to_uri(info.source_path) is Some,
        lookup(sources, info.source_path) is Some,
        selector_edits(
            lookup(sources, info.source_path)->0,
            info.definition_line,
            display_name(key),
            selector_like(key, new_name),
        ).contains(edit),
    ensures
        list_at(
            rename_changes(key, new_name, rows, sources, files),
            file_to_uri(info.source_path)->0,
        ).contains(edit),
{
    let defs = definitions(rows, key);
    let keys = defs.map_values(|i: ClassInfoView| (i.source_path, i.definition_line));
    let place = (info.source_path, info.definition_line);
    let uri = file_to_uri(info.source_path)->0;
    let former = display_name(key);
    let new = selector_like(key, new_name);
    let i = choose|i: int| 0 <= i < defs.len() && defs[i] == info;
    assert(keys[i] == place);
    lemma_first_occurrences_within(keys, place);
    let edits = selector_edits(
        lookup(sources, info.source_path)->0,
        info.definition_line,
        former,
        new,
    );
    let j = choose|j: int| 0 <= j < edits.len() && edits[j] == edit;
    let here = line_edits(sources, former, new, place);
    assert(here[j] == (uri, edit));
    lemma_edits_of_a_place(sources, former, new, definition_lines(defs), place, (uri, edit));
    lemma_added_stays(
        definition_edits(sources, former, new, definition_lines(defs)),
        use_edits(uses_in(key, files), new_name),
        (uri, edit),
    );
}

} // verus!
