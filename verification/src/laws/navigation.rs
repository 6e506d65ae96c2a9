//! Definitions, references, outlines, searches and usage counts.

use crate::collect::collect;
use crate::context::{inside_attr, key_at, style_context_at, Attribute, StyleContextView};
use crate::cursor::word_at_position;
use crate::html::{html_refs, RefView};
use crate::laws::completion::{begins_with_mark, lemma_bytes_in_order, lemma_collected, lemma_mark};
use crate::model::{definitions, ClassInfoView, ClassRows, KeyframeInfoView};
use crate::order::{is_sorting, text_at_most};
use crate::paths::{file_to_uri, path_extension, uri_to_file};
use crate::protocol::{LocationView, Position, Range};
use crate::references::{
    definition_place, definition_places, references_key, replies_with, use_place, uses_in,
    uses_upto, DefinitionReply,
};
use crate::symbols::{
    answers, container, count_of, css_file, display_name, keys_upto, lens_entry, lenses_upto,
    occurrences, outline_entry, outline_upto, search_entry, search_upto, used_keys, CodeLens,
    CodeLensView, OutlineSymbol, OutlineSymbolView, WorkspaceSymbol, WorkspaceSymbolView,
};
use crate::table::lookup;
use crate::text::{decimal, lowercase, occurs_at};
use vstd::prelude::*;
use vstd::utf8::encode_utf8;

verus! {

/// The start of a line.
pub open spec fn line_start_range(line: u32) -> Range {
    Range {
        start: Position { line, character: 0 },
        end: Position { line, character: 0 },
    }
}

/// Going to the definition of a class or an identifier leads to the lines of all its definitions
/// whose files have an address, and nowhere else.
pub proof fn law_definitions_are_reached(
    text: Seq<char>,
    pos: Position,
    rows: ClassRows,
    keyframes: Seq<(Seq<char>, KeyframeInfoView)>,
    key: Seq<char>,
    place: LocationView,
)
    requires
        !inside_attr(text, pos, Attribute::Style),
        key_at(text, pos) == Some(key),
    ensures
        definition_places(text, pos, rows, keyframes).contains(place) == exists|i: int|
            0 <= i < definitions(rows, key).len() && file_to_uri(
                (#[trigger] definitions(rows, key)[i]).source_path,
            ) == Some(place.uri) && place.range == line_start_range(
                definitions(rows, key)[i].definition_line,
            ),
        (forall|i: int|
            0 <= i < definitions(rows, key).len() ==> file_to_uri(
                (#[trigger] definitions(rows, key)[i]).source_path,
            ) is Some) ==> definition_places(text, pos, rows, keyframes).len() == definitions(
            rows,
            key,
        ).len(),
{
    let infos = definitions(rows, key);
    lemma_collected(infos, definition_place(), place);
    assert forall|i: int| 0 <= i < infos.len() implies (definition_place()(#[trigger] infos[i])
        == Some(place)) == (file_to_uri(infos[i].source_path) == Some(place.uri) && place.range
        == line_start_range(infos[i].definition_line)) by {
    }
    if forall|i: int| 0 <= i < infos.len() ==> file_to_uri((#[trigger] infos[i]).source_path) is Some {
        lemma_all_kept(infos);
    }
}

proof fn lemma_all_kept(infos: Seq<ClassInfoView>)
    requires
        forall|i: int| 0 <= i < infos.len() ==> file_to_uri((#[trigger] infos[i]).source_path) is Some,
    ensures
        collect(infos, definition_place()).len() == infos.len(),
    decreases infos.len(),
{
    if infos.len() > 0 {
        assert forall|i: int| 0 <= i < infos.drop_last().len() implies file_to_uri(
            (#[trigger] infos.drop_last()[i]).source_path,
        ) is Some by {
            assert(infos.drop_last()[i] == infos[i]);
        }
        assert(file_to_uri(infos[infos.len() - 1].source_path) is Some);
        lemma_all_kept(infos.drop_last());
    }
}

/// Going to the definition of an animation leads from a value of `animation-name` to the line of
/// its definition; elsewhere in a `style` value, and on no name, there is nowhere to go.
pub proof fn law_animations_are_reached(
    text: Seq<char>,
    pos: Position,
    rows: ClassRows,
    keyframes: Seq<(Seq<char>, KeyframeInfoView)>,
    word: Seq<char>,
    prefix: Seq<char>,
    info: KeyframeInfoView,
    uri: Seq<char>,
)
    ensures
        inside_attr(text, pos, Attribute::Style) && word_at_position(text, pos) == Some(word)
            && style_context_at(text, pos) == (StyleContextView::PropertyValue {
            property: "animation-name"@,
            prefix,
        }) && lookup(keyframes, word) == Some(info) && file_to_uri(info.source_path) == Some(uri)
            ==> definition_places(text, pos, rows, keyframes) == seq![
            LocationView { uri, range: line_start_range(info.definition_line) },
        ],
        inside_attr(text, pos, Attribute::Style) && word_at_position(text, pos) == Some(word)
            && lookup(keyframes, word) is None ==> definition_places(
            text,
            pos,
            rows,
            keyframes,
        ).len() == 0,
        !inside_attr(text, pos, Attribute::Style) && key_at(text, pos) is None
            ==> definition_places(text, pos, rows, keyframes).len() == 0,
{
}

/// A reply gives all places: one alone, several as a list in their order, none as nothing.
pub proof fn law_replies_give_all_places(reply: DefinitionReply, places: Seq<LocationView>)
    requires
        replies_with(reply, places),
    ensures
        match reply {
            DefinitionReply::Nothing => places.len() == 0,
            DefinitionReply::One(place) => places == seq![place.deep_view()],
            DefinitionReply::Several(list) => list.deep_view() == places && places.len() > 1,
        },
{
}

/// The name at a position: inside a `class` value the word there, inside an `id` value the word
/// with a `#` before it, and elsewhere none.
pub proof fn law_names_at_positions(text: Seq<char>, pos: Position, word: Seq<char>)
    ensures
        inside_attr(text, pos, Attribute::Class) ==> key_at(text, pos) == word_at_position(
            text,
            pos,
        ),
        !inside_attr(text, pos, Attribute::Class) && inside_attr(text, pos, Attribute::Id)
            && word_at_position(text, pos) == Some(word) ==> key_at(text, pos) == Some(
            seq!['#'] + word,
        ),
        word_at_position(text, pos) is None ==> key_at(text, pos) is None,
        !inside_attr(text, pos, Attribute::Class) && !inside_attr(text, pos, Attribute::Id)
            ==> key_at(text, pos) is None,
{
    reveal_strlit("#");
    assert("#"@ =~= seq!['#']);
}

/// The name whose references are asked for is the one at the position of the open document.
pub proof fn law_references_of_the_name_there(
    uri: Seq<char>,
    pos: Position,
    documents: Seq<(Seq<char>, Seq<char>)>,
    text: Seq<char>,
)
    ensures
        lookup(documents, uri) == Some(text) ==> references_key(uri, pos, documents) == key_at(
            text,
            pos,
        ),
        lookup(documents, uri) is None ==> references_key(uri, pos, documents) is None,
{
}

/// A reference to the class or identifier that is filed under a name.
pub open spec fn refers_to(r: RefView, key: Seq<char>) -> bool {
    if r.is_id {
        key == seq!['#'] + r.name
    } else {
        key == r.name && !begins_with_mark(key)
    }
}

/// The columns of a reference on its line.
pub open spec fn at_columns(r: RefView) -> Range {
    Range {
        start: Position { line: r.line, character: r.col_start },
        end: Position { line: r.line, character: r.col_end },
    }
}

/// The references to a class or an identifier are its uses in the attributes of all documents: each
/// at its columns in its document, and nothing else.
pub proof fn law_references_are_the_uses(
    key: Seq<char>,
    files: Seq<(Seq<char>, Seq<char>)>,
    n: int,
    place: LocationView,
)
    requires
        0 <= n <= files.len(),
    ensures
        uses_upto(key, files, n).contains(place) == exists|k: int, i: int|
            0 <= k < n && 0 <= i < html_refs(files[k].1).len() && refers_to(
                #[trigger] html_refs(files[k].1)[i],
                key,
            ) && place == (LocationView {
                uri: files[k].0,
                range: at_columns(html_refs(files[k].1)[i]),
            }),
        uses_in(key, files) == uses_upto(key, files, files.len() as int),
    decreases n,
{
    if n > 0 {
        law_references_are_the_uses(key, files, n - 1, place);
        let before = uses_upto(key, files, n - 1);
        let refs = html_refs(files[n - 1].1);
        let is_id = "#"@.is_prefix_of(key);
        let bare = if is_id {
            key.skip(1)
        } else {
            key
        };
        let f = use_place(files[n - 1].0, is_id, bare);
        let here = collect(refs, f);
        let all = uses_upto(key, files, n);
        lemma_mark(key);
        lemma_collected(refs, f, place);
        assert forall|i: int| 0 <= i < refs.len() implies (f(#[trigger] refs[i]) == Some(place)) == (
        refers_to(refs[i], key) && place == (LocationView {
            uri: files[n - 1].0,
            range: at_columns(refs[i]),
        })) by {
            let r = refs[i];
            if is_id {
                assert(key =~= seq!['#'] + key.skip(1));
            }
            if r.is_id && key == seq!['#'] + r.name {
                assert(key[0] == '#');
                assert(key.skip(1) =~= r.name);
            }
        }
        if all.contains(place) {
            let j = choose|j: int| 0 <= j < all.len() && all[j] == place;
            if j < before.len() {
                assert(before[j] == place);
                assert(before.contains(place));
            } else {
                assert(here[j - before.len()] == place);
                assert(here.contains(place));
                let i = choose|i: int| 0 <= i < refs.len() && f(#[trigger] refs[i]) == Some(place);
                assert(refers_to(html_refs(files[n - 1].1)[i], key));
            }
        }
        if exists|k: int, i: int|
            0 <= k < n && 0 <= i < html_refs(files[k].1).len() && refers_to(
                #[trigger] html_refs(files[k].1)[i],
                key,
            ) && place == (LocationView {
                uri: files[k].0,
                range: at_columns(html_refs(files[k].1)[i]),
            }) {
            let (k, i) = choose|k: int, i: int|
                0 <= k < n && 0 <= i < html_refs(files[k].1).len() && refers_to(
                    #[trigger] html_refs(files[k].1)[i],
                    key,
                ) && place == (LocationView {
                    uri: files[k].0,
                    range: at_columns(html_refs(files[k].1)[i]),
                });
            if k == n - 1 {
                assert(f(refs[i]) == Some(place));
                assert(here.contains(place));
                let j = choose|j: int| 0 <= j < here.len() && here[j] == place;
                assert(all[before.len() + j] == place);
            } else {
                assert(refers_to(html_refs(files[k].1)[i], key));
                assert(before.contains(place));
                let j = choose|j: int| 0 <= j < before.len() && before[j] == place;
                assert(all[j] == place);
            }
        }
    }
}

/// A filed name as a selector writes it: an identifier as it is, a class with a dot before it.
pub open spec fn as_selector(name: Seq<char>) -> Seq<char> {
    if begins_with_mark(name) {
        name
    } else {
        seq!['.'] + name
    }
}

pub proof fn lemma_as_selector(name: Seq<char>)
    ensures
        display_name(name) == as_selector(name),
{
    lemma_mark(name);
    reveal_strlit(".");
    assert("."@ =~= seq!['.']);
}

/// What a definition stands in: its conditional group, its layer, or both.
pub open spec fn stands_in(info: ClassInfoView) -> Option<Seq<char>> {
    if info.media_query is Some && info.layer is Some {
        Some(info.media_query->0 + " • @layer "@ + info.layer->0)
    } else if info.media_query is Some {
        info.media_query
    } else if info.layer is Some {
        Some("@layer "@ + info.layer->0)
    } else {
        None
    }
}

/// The outline of a style sheet lists each definition that stands in it, as a selector writes its
/// name, on its line and with what it stands in; and nothing else.
pub proof fn law_outlines(rows: ClassRows, path: Seq<char>, n: int, entry: OutlineSymbolView)
    requires
        0 <= n <= rows.len(),
    ensures
        outline_upto(rows, path, n).contains(entry) == exists|k: int, i: int|
            0 <= k < n && 0 <= i < rows[k].1.len() && (#[trigger] rows[k].1[i]).source_path == path
                && entry == (OutlineSymbolView {
                name: as_selector(rows[k].0),
                line: rows[k].1[i].definition_line,
                container: stands_in(rows[k].1[i]),
            }),
    decreases n,
{
    if n > 0 {
        law_outlines(rows, path, n - 1, entry);
        let before = outline_upto(rows, path, n - 1);
        let (name, infos) = rows[n - 1];
        let f = outline_entry(name, path);
        let here = collect(infos, f);
        let all = outline_upto(rows, path, n);
        lemma_as_selector(name);
        lemma_collected(infos, f, entry);
        assert forall|i: int| 0 <= i < infos.len() implies (f(#[trigger] infos[i]) == Some(entry))
            == (infos[i].source_path == path && entry == (OutlineSymbolView {
            name: as_selector(name),
            line: infos[i].definition_line,
            container: stands_in(infos[i]),
        })) by {
        }
        lemma_concat_contains(before, here, entry);
        if here.contains(entry) {
            let i = choose|i: int| 0 <= i < infos.len() && f(#[trigger] infos[i]) == Some(entry);
            assert(rows[n - 1].1[i].source_path == path);
        }
        if exists|k: int, i: int|
            0 <= k < n && 0 <= i < rows[k].1.len() && (#[trigger] rows[k].1[i]).source_path == path
                && entry == (OutlineSymbolView {
                name: as_selector(rows[k].0),
                line: rows[k].1[i].definition_line,
                container: stands_in(rows[k].1[i]),
            }) {
            let (k, i) = choose|k: int, i: int|
                0 <= k < n && 0 <= i < rows[k].1.len() && (#[trigger] rows[k].1[i]).source_path
                    == path && entry == (OutlineSymbolView {
                    name: as_selector(rows[k].0),
                    line: rows[k].1[i].definition_line,
                    container: stands_in(rows[k].1[i]),
                });
            if k == n - 1 {
                assert(f(infos[i]) == Some(entry));
            } else {
                assert(rows[k].1[i].source_path == path);
            }
        }
    }
}

/// A list and another behind it hold what either holds.
pub proof fn lemma_concat_contains<A>(a: Seq<A>, b: Seq<A>, x: A)
    ensures
        (a + b).contains(x) == (a.contains(x) || b.contains(x)),
{
    if a.contains(x) {
        let i = choose|i: int| 0 <= i < a.len() && a[i] == x;
        assert((a + b)[i] == x);
    }
    if b.contains(x) {
        let i = choose|i: int| 0 <= i < b.len() && b[i] == x;
        assert((a + b)[a.len() + i] == x);
    }
    if (a + b).contains(x) {
        let i = choose|i: int| 0 <= i < (a + b).len() && (a + b)[i] == x;
        if i < a.len() {
            assert(a[i] == x);
        } else {
            assert(b[i - a.len()] == x);
        }
    }
}

/// The words for a usage count.
pub open spec fn usage_words(count: usize) -> Seq<char> {
    if count == 0 {
        "unused"@
    } else if count == 1 {
        "used 1 time"@
    } else {
        "used "@ + decimal(count as nat) + " times"@
    }
}

/// Above each definition in a style sheet stands how often its name is used, and nowhere else.
pub proof fn law_lenses(
    rows: ClassRows,
    counts: Seq<(Seq<char>, usize)>,
    path: Seq<char>,
    n: int,
    entry: CodeLensView,
)
    requires
        0 <= n <= rows.len(),
    ensures
        lenses_upto(rows, counts, path, n).contains(entry) == exists|k: int, i: int|
            0 <= k < n && 0 <= i < rows[k].1.len() && (#[trigger] rows[k].1[i]).source_path == path
                && entry == (CodeLensView {
                line: rows[k].1[i].definition_line,
                title: usage_words(
                    match lookup(counts, rows[k].0) {
                        Some(count) => count,
                        None => 0,
                    },
                ),
            }),
    decreases n,
{
    if n > 0 {
        law_lenses(rows, counts, path, n - 1, entry);
        let before = lenses_upto(rows, counts, path, n - 1);
        let (name, infos) = rows[n - 1];
        let f = lens_entry(path, count_of(counts, name));
        let here = collect(infos, f);
        lemma_collected(infos, f, entry);
        let title = usage_words(
            match lookup(counts, name) {
                Some(count) => count,
                None => 0,
            },
        );
        assert forall|i: int| 0 <= i < infos.len() implies (f(#[trigger] infos[i]) == Some(entry))
            == (infos[i].source_path == path && entry == (CodeLensView {
            line: infos[i].definition_line,
            title,
        })) by {
        }
        lemma_concat_contains(before, here, entry);
        if here.contains(entry) {
            let i = choose|i: int| 0 <= i < infos.len() && f(#[trigger] infos[i]) == Some(entry);
            assert(rows[n - 1].1[i].source_path == path);
        }
        if exists|k: int, i: int|
            0 <= k < n && 0 <= i < rows[k].1.len() && (#[trigger] rows[k].1[i]).source_path == path
                && entry == (CodeLensView {
                line: rows[k].1[i].definition_line,
                title: usage_words(
                    match lookup(counts, rows[k].0) {
                        Some(count) => count,
                        None => 0,
                    },
                ),
            }) {
            let (k, i) = choose|k: int, i: int|
                0 <= k < n && 0 <= i < rows[k].1.len() && (#[trigger] rows[k].1[i]).source_path
                    == path && entry == (CodeLensView {
                    line: rows[k].1[i].definition_line,
                    title: usage_words(
                        match lookup(counts, rows[k].0) {
                            Some(count) => count,
                            None => 0,
                        },
                    ),
                });
            if k == n - 1 {
                assert(f(infos[i]) == Some(entry));
            } else {
                assert(rows[k].1[i].source_path == path);
            }
        }
    }
}

/// A symbol search finds each definition of each name that holds the query, as a selector writes it
/// and whatever the case of its letters, if its file has an address; and nothing else. `query` is
/// in lowercase.
pub proof fn law_searches(rows: ClassRows, query: Seq<char>, n: int, entry: WorkspaceSymbolView)
    requires
        0 <= n <= rows.len(),
    ensures
        search_upto(rows, query, n).contains(entry) == exists|k: int, i: int|
            0 <= k < n && 0 <= i < rows[k].1.len() && file_to_uri(
                (#[trigger] rows[k].1[i]).source_path,
            ) == Some(entry.uri) && (query.len() == 0 || exists|p: int| #[trigger]
                occurs_at(lowercase(as_selector(rows[k].0)), query, p)) && entry.name
                == as_selector(rows[k].0) && entry.line == rows[k].1[i].definition_line
                && entry.source_file == rows[k].1[i].source_file,
    decreases n,
{
    if n > 0 {
        law_searches(rows, query, n - 1, entry);
        let before = search_upto(rows, query, n - 1);
        let (name, infos) = rows[n - 1];
        let f = search_entry(name);
        let here = collect(infos, f);
        let found = query.len() == 0 || exists|p: int| #[trigger]
            occurs_at(lowercase(as_selector(name)), query, p);
        lemma_as_selector(name);
        assert(answers(name, query) == found);
        lemma_collected(infos, f, entry);
        assert forall|i: int| 0 <= i < infos.len() implies (f(#[trigger] infos[i]) == Some(entry))
            == (file_to_uri(infos[i].source_path) == Some(entry.uri) && entry.name == as_selector(
            name,
        ) && entry.line == infos[i].definition_line && entry.source_file
            == infos[i].source_file) by {
        }
        lemma_concat_contains(before, here, entry);
        if found && here.contains(entry) {
            let i = choose|i: int| 0 <= i < infos.len() && f(#[trigger] infos[i]) == Some(entry);
            assert(file_to_uri(rows[n - 1].1[i].source_path) == Some(entry.uri));
        }
        if exists|k: int, i: int|
            0 <= k < n && 0 <= i < rows[k].1.len() && file_to_uri(
                (#[trigger] rows[k].1[i]).source_path,
            ) == Some(entry.uri) && (query.len() == 0 || exists|p: int| #[trigger]
                occurs_at(lowercase(as_selector(rows[k].0)), query, p)) && entry.name
                == as_selector(rows[k].0) && entry.line == rows[k].1[i].definition_line
                && entry.source_file == rows[k].1[i].source_file {
            let (k, i) = choose|k: int, i: int|
                0 <= k < n && 0 <= i < rows[k].1.len() && file_to_uri(
                    (#[trigger] rows[k].1[i]).source_path,
                ) == Some(entry.uri) && (query.len() == 0 || exists|p: int| #[trigger]
                    occurs_at(lowercase(as_selector(rows[k].0)), query, p)) && entry.name
                    == as_selector(rows[k].0) && entry.line == rows[k].1[i].definition_line
                    && entry.source_file == rows[k].1[i].source_file;
            if k == n - 1 {
                assert(f(infos[i]) == Some(entry));
            } else {
                assert(file_to_uri(rows[k].1[i].source_path) == Some(entry.uri));
            }
        }
    }
}

/// Outlines and lenses come in the order of their lines, search results in the order of their
/// names; none is lost or added by putting them in order.
pub proof fn law_lists_are_in_order(
    outline: Seq<OutlineSymbolView>,
    outlined: Seq<OutlineSymbolView>,
    lenses: Seq<CodeLensView>,
    lensed: Seq<CodeLensView>,
    found: Seq<WorkspaceSymbolView>,
    searched: Seq<WorkspaceSymbolView>,
    i: int,
    j: int,
)
    requires
        is_sorting::<OutlineSymbol>(outline, outlined),
        is_sorting::<CodeLens>(lenses, lensed),
        is_sorting::<WorkspaceSymbol>(found, searched),
        0 <= i < j,
    ensures
        outline.to_multiset() == outlined.to_multiset(),
        lenses.to_multiset() == lensed.to_multiset(),
        found.to_multiset() == searched.to_multiset(),
        j < outlined.len() ==> outlined[i].line <= outlined[j].line,
        j < lensed.len() ==> lensed[i].line <= lensed[j].line,
        j < searched.len() ==> {
            let a = encode_utf8(searched[i].name);
            let b = encode_utf8(searched[j].name);
            ||| a.is_prefix_of(b)
            ||| exists|k: int|
                0 <= k < a.len() && k < b.len() && #[trigger] a[k] < b[k] && a.take(k) == b.take(k)
        },
        j < searched.len() && searched[i].name == searched[j].name && searched[i].source_file
            == searched[j].source_file ==> searched[i].line <= searched[j].line,
{
    if j < searched.len() {
        let a = searched[i];
        let b = searched[j];
        if a.name == b.name {
            let s = encode_utf8(a.name);
            assert(s.subrange(0, s.len() as int) =~= s);
        } else {
            assert(text_at_most(a.name, b.name));
            lemma_bytes_in_order(encode_utf8(a.name), encode_utf8(b.name));
        }
    }
}

/// Outlines and lenses are those of the style sheet that the address stands for: a file with the
/// extension of a style sheet.
pub proof fn law_style_sheets_by_address(uri: Seq<char>, path: Seq<char>)
    ensures
        css_file(uri) == Some(path) <==> uri_to_file(uri) == Some(path) && path_extension(path)
            == Some("css"@),
{
}

/// Uses are counted by the name that a class map files: a class by its name, an identifier with a
/// `#` before it; each reference of each document counts once.
pub proof fn law_uses_are_counted_by_name(
    files: Seq<(Seq<char>, Seq<char>)>,
    k: int,
    key: Seq<char>,
)
    requires
        0 <= k < files.len(),
    ensures
        occurrences(keys_upto(files, k + 1), key) == occurrences(keys_upto(files, k), key)
            + count_refs(html_refs(files[k].1), key),
{
    lemma_count_refs(html_refs(files[k].1), key);
    lemma_occurrences(keys_upto(files, k), used_keys(html_refs(files[k].1)), key);
}

/// How many of several references are to a name.
pub open spec fn count_refs(refs: Seq<RefView>, key: Seq<char>) -> nat
    decreases refs.len(),
{
    if refs.len() == 0 {
        0
    } else {
        count_refs(refs.drop_last(), key) + (if key == (if refs.last().is_id {
            seq!['#'] + refs.last().name
        } else {
            refs.last().name
        }) {
            1nat
        } else {
            0nat
        })
    }
}

proof fn lemma_count_refs(refs: Seq<RefView>, key: Seq<char>)
    ensures
        occurrences(used_keys(refs), key) == count_refs(refs, key),
    decreases refs.len(),
{
    reveal_strlit("#");
    assert("#"@ =~= seq!['#']);
    if refs.len() > 0 {
        lemma_count_refs(refs.drop_last(), key);
        assert(used_keys(refs).drop_last() =~= used_keys(refs.drop_last()));
    }
}

proof fn lemma_occurrences(a: Seq<Seq<char>>, b: Seq<Seq<char>>, key: Seq<char>)
    ensures
        occurrences(a + b, key) == occurrences(a, key) + occurrences(b, key),
    decreases b.len(),
{
    if b.len() == 0 {
        assert(a + b =~= a);
    } else {
        lemma_occurrences(a, b.drop_last(), key);
        assert((a + b).drop_last() =~= a + b.drop_last());
    }
}

} // verus!
