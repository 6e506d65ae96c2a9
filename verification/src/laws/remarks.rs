//! The remarks on documents and style sheets.

use crate::bytes::slice;
use crate::collect::collect;
use crate::css::css_definitions;
use crate::diagnostics::{
    in_file, inline_rows, open_keys, open_keys_upto, redefinitions_upto, unknown_in, unknown_remark,
    unused_entry, unused_upto,
};
use crate::duplicates::{check_tokens, law_repetitions_are_flagged, token_names};
use crate::html::{html_refs, RefView};
use crate::laws::completion::lemma_collected;
use crate::laws::navigation::{
    as_selector, at_columns, lemma_as_selector, lemma_concat_contains, line_start_range,
};
use crate::model::{add_definitions, ClassInfoView, ClassRows};
use crate::paths::{file_to_uri, is_html, uri_path};
use crate::protocol::{DiagnosticView, Position, Range, Severity};
use crate::references::ref_key;
use crate::style::{style_blocks, with_blocks};
use crate::symbols::used_keys;
use crate::table::has_name;
use vstd::prelude::*;

verus! {

/// A remark of the library.
pub open spec fn ours(range: Range, severity: Severity, message: Seq<char>) -> DiagnosticView {
    DiagnosticView { range, severity: Some(severity), source: Some("css-lens"@), message }
}

/// The name under which a class map files what a reference names.
pub open spec fn filed_as(r: RefView) -> Seq<char> {
    if r.is_id {
        seq!['#'] + r.name
    } else {
        r.name
    }
}

/// An error stands exactly at each reference to a name that neither the workspace nor a `<style>`
/// block of the document defines, at its columns, and says which class or identifier it is.
pub proof fn law_unknown_names_are_flagged(text: Seq<char>, rows: ClassRows, d: DiagnosticView)
    ensures
        unknown_in(text, rows).contains(d) == exists|i: int|
            0 <= i < html_refs(text).len() && !has_name(
                rows,
                filed_as(#[trigger] html_refs(text)[i]),
            ) && !has_name(
                with_blocks(
                    seq![],
                    style_blocks(text),
                    ""@,
                    ""@,
                    style_blocks(text).len() as int,
                ),
                filed_as(html_refs(text)[i]),
            ) && d == ours(
                at_columns(html_refs(text)[i]),
                Severity::Error,
                (if html_refs(text)[i].is_id {
                    "Unknown CSS id '"@
                } else {
                    "Unknown CSS class '"@
                }) + html_refs(text)[i].name + "'"@,
            ),
{
    let refs = html_refs(text);
    let f = unknown_remark(rows, inline_rows(text));
    reveal_strlit("#");
    assert("#"@ =~= seq!['#']);
    lemma_collected(refs, f, d);
    assert forall|i: int| 0 <= i < refs.len() implies (f(#[trigger] refs[i]) == Some(d)) == (
    !has_name(rows, filed_as(refs[i])) && !has_name(inline_rows(text), filed_as(refs[i])) && d
        == ours(
        at_columns(refs[i]),
        Severity::Error,
        (if refs[i].is_id {
            "Unknown CSS id '"@
        } else {
            "Unknown CSS class '"@
        }) + refs[i].name + "'"@,
    )) by {
        assert(ref_key(refs[i]) == filed_as(refs[i]));
    }
}

/// The `<style>` blocks of a document count one after another: each adds what it defines.
pub proof fn law_blocks_add_up(
    rows: ClassRows,
    blocks: Seq<(u32, Seq<char>)>,
    file: Seq<char>,
    path: Seq<char>,
    k: int,
)
    requires
        0 <= k < blocks.len(),
    ensures
        with_blocks(rows, blocks, file, path, 0) == rows,
        with_blocks(rows, blocks, file, path, k + 1) == add_definitions(
            with_blocks(rows, blocks, file, path, k),
            css_definitions(blocks[k].1, blocks[k].0 as int, file, path),
        ),
{
}

/// A token of an attribute is flagged exactly if its name was seen before: on an earlier line of
/// the attribute, or as an earlier token on this one. The warning stands at the repetition.
pub proof fn law_each_repetition_is_flagged(
    line: Seq<char>,
    line_num: u32,
    toks: Seq<(int, int)>,
    seen: Seq<Seq<char>>,
    t: (int, int),
    name: Seq<char>,
)
    requires
        name == slice(line, t.0, t.1),
    ensures
        ({
            let before = check_tokens(line, line_num, toks, seen);
            let after = check_tokens(line, line_num, toks.push(t), seen);
            let again = seen.contains(name) || token_names(line, toks).contains(name);
            after.1 == (if again {
                before.1.push(
                    ours(
                        Range {
                            start: Position { line: line_num, character: t.0 as u32 },
                            end: Position { line: line_num, character: t.1 as u32 },
                        },
                        Severity::Warning,
                        "class '"@ + name + "' is already listed in this attribute"@,
                    ),
                )
            } else {
                before.1
            })
        }),
        check_tokens(line, line_num, Seq::empty(), seen).1.len() == 0,
{
    assert(toks.push(t).drop_last() =~= toks);
    law_repetitions_are_flagged(line, line_num, toks, seen);
    let before = check_tokens(line, line_num, toks, seen);
    assert(before.0.contains(name) == (seen.contains(name) || token_names(line, toks).contains(
        name,
    )));
}

/// In a style sheet a definition of a name is flagged exactly if the style sheet defines the name
/// before: all its definitions there but the first are, in their order.
pub proof fn law_redefinitions_are_flagged(
    rows: ClassRows,
    path: Seq<char>,
    k: int,
    own: Seq<ClassInfoView>,
)
    requires
        0 <= k < rows.len(),
        own == collect(rows[k].1, in_file(path)),
    ensures
        redefinitions_upto(rows, path, 0).len() == 0,
        ({
            let before = redefinitions_upto(rows, path, k);
            let after = redefinitions_upto(rows, path, k + 1);
            &&& own.len() <= 1 ==> after == before
            &&& own.len() > 1 ==> after.len() == before.len() + own.len() - 1 && before.is_prefix_of(
                after,
            ) && forall|i: int|
                1 <= i < own.len() ==> after[before.len() + i - 1] == ours(
                    line_start_range((#[trigger] own[i]).definition_line),
                    Severity::Warning,
                    "'"@ + as_selector(rows[k].0) + "' is already defined earlier in this file"@,
                )
        }),
{
    let before = redefinitions_upto(rows, path, k);
    let after = redefinitions_upto(rows, path, k + 1);
    lemma_as_selector(rows[k].0);
    if own.len() <= 1 {
        assert(after =~= before);
    } else {
        assert(after.subrange(0, before.len() as int) =~= before);
    }
}

/// The definitions of a list that stand in a file are exactly those whose source it is.
pub proof fn law_definitions_in_a_file(
    infos: Seq<ClassInfoView>,
    path: Seq<char>,
    info: ClassInfoView,
)
    ensures
        collect(infos, in_file(path)).contains(info) == (infos.contains(info) && info.source_path
            == path),
        collect(infos.push(info), in_file(path)) == (if info.source_path == path {
            collect(infos, in_file(path)).push(info)
        } else {
            collect(infos, in_file(path))
        }),
{
    lemma_collected(infos, in_file(path), info);
    assert(infos.push(info).drop_last() =~= infos);
    if infos.contains(info) && info.source_path == path {
        let i = choose|i: int| 0 <= i < infos.len() && infos[i] == info;
        assert(in_file(path)(infos[i]) == Some(info));
    }
}

/// A hint stands exactly at each definition of a name that is not among those used, in its file if
/// the file has an address.
pub proof fn law_unused_names_get_hints(
    rows: ClassRows,
    used: Seq<Seq<char>>,
    n: int,
    uri: Seq<char>,
    d: DiagnosticView,
)
    requires
        0 <= n <= rows.len(),
    ensures
        unused_upto(rows, used, n).contains((uri, d)) == exists|k: int, i: int|
            0 <= k < n && 0 <= i < rows[k].1.len() && !used.contains(rows[k].0) && file_to_uri(
                (#[trigger] rows[k].1[i]).source_path,
            ) == Some(uri) && d == ours(
                line_start_range(rows[k].1[i].definition_line),
                Severity::Hint,
                "'"@ + as_selector(rows[k].0) + "' is not used in any open HTML file"@,
            ),
    decreases n,
{
    if n > 0 {
        law_unused_names_get_hints(rows, used, n - 1, uri, d);
        let before = unused_upto(rows, used, n - 1);
        let (name, infos) = rows[n - 1];
        let f = unused_entry(name);
        let here = collect(infos, f);
        let hint = |info: ClassInfoView|
            ours(
                line_start_range(info.definition_line),
                Severity::Hint,
                "'"@ + as_selector(name) + "' is not used in any open HTML file"@,
            );
        lemma_as_selector(name);
        lemma_collected(infos, f, (uri, d));
        assert forall|i: int| 0 <= i < infos.len() implies (f(#[trigger] infos[i]) == Some(
            (uri, d),
        )) == (file_to_uri(infos[i].source_path) == Some(uri) && d == hint(infos[i])) by {
        }
        lemma_concat_contains(before, here, (uri, d));
        if here.contains((uri, d)) && !used.contains(name) {
            let i = choose|i: int| 0 <= i < infos.len() && f(#[trigger] infos[i]) == Some((uri, d));
            assert(file_to_uri(rows[n - 1].1[i].source_path) == Some(uri));
        }
        if exists|k: int, i: int|
            0 <= k < n && 0 <= i < rows[k].1.len() && !used.contains(rows[k].0) && file_to_uri(
                (#[trigger] rows[k].1[i]).source_path,
            ) == Some(uri) && d == ours(
                line_start_range(rows[k].1[i].definition_line),
                Severity::Hint,
                "'"@ + as_selector(rows[k].0) + "' is not used in any open HTML file"@,
            ) {
            let (k, i) = choose|k: int, i: int|
                0 <= k < n && 0 <= i < rows[k].1.len() && !used.contains(rows[k].0) && file_to_uri(
                    (#[trigger] rows[k].1[i]).source_path,
                ) == Some(uri) && d == ours(
                    line_start_range(rows[k].1[i].definition_line),
                    Severity::Hint,
                    "'"@ + as_selector(rows[k].0) + "' is not used in any open HTML file"@,
                );
            if k == n - 1 {
                assert(f(infos[i]) == Some((uri, d)));
            } else {
                assert(file_to_uri(rows[k].1[i].source_path) == Some(uri));
            }
        }
    }
}

/// The names that count as used are those that a reference of an open HTML document names; other
/// documents do not count.
pub proof fn law_names_in_open_documents(
    documents: Seq<(Seq<char>, Seq<char>)>,
    n: int,
    key: Seq<char>,
)
    requires
        0 <= n <= documents.len(),
    ensures
        open_keys_upto(documents, n).contains(key) == exists|k: int, i: int|
            0 <= k < n && uri_path(documents[k].0) is Some && (".html"@.is_suffix_of(
                uri_path(documents[k].0)->0,
            ) || ".htm"@.is_suffix_of(uri_path(documents[k].0)->0)) && 0 <= i < html_refs(
                documents[k].1,
            ).len() && filed_as(#[trigger] html_refs(documents[k].1)[i]) == key,
        open_keys(documents) == open_keys_upto(documents, documents.len() as int),
    decreases n,
{
    if n > 0 {
        law_names_in_open_documents(documents, n - 1, key);
        let before = open_keys_upto(documents, n - 1);
        let refs = html_refs(documents[n - 1].1);
        let here = used_keys(refs);
        reveal_strlit("#");
        assert("#"@ =~= seq!['#']);
        lemma_concat_contains(before, here, key);
        let html = is_html(uri_path(documents[n - 1].0));
        if html && here.contains(key) {
            let i = choose|i: int| 0 <= i < here.len() && here[i] == key;
            assert(filed_as(html_refs(documents[n - 1].1)[i]) == key);
        }
        if exists|k: int, i: int|
            0 <= k < n && uri_path(documents[k].0) is Some && (".html"@.is_suffix_of(
                uri_path(documents[k].0)->0,
            ) || ".htm"@.is_suffix_of(uri_path(documents[k].0)->0)) && 0 <= i < html_refs(
                documents[k].1,
            ).len() && filed_as(#[trigger] html_refs(documents[k].1)[i]) == key {
            let (k, i) = choose|k: int, i: int|
                0 <= k < n && uri_path(documents[k].0) is Some && (".html"@.is_suffix_of(
                    uri_path(documents[k].0)->0,
                ) || ".htm"@.is_suffix_of(uri_path(documents[k].0)->0)) && 0 <= i < html_refs(
                    documents[k].1,
                ).len() && filed_as(#[trigger] html_refs(documents[k].1)[i]) == key;
            if k == n - 1 {
                assert(here[i] == key);
                assert(here.contains(key));
            } else {
                assert(filed_as(html_refs(documents[k].1)[i]) == key);
            }
        }
    }
}

} // verus!
