//! What the server knows and sends as documents and files change.

use crate::actions::known_files;
use crate::collect::{collect, lemma_first_occurrences_within};
use crate::css::{css_definitions, css_rule_infos, css_rules};
use crate::diagnostics::{open_keys, redefinitions_upto, unknown_in, unused_upto};
use crate::duplicates::duplicate_classes;
use crate::laws::completion::lemma_collected;
use crate::laws::navigation::lemma_concat_contains;
use crate::model::{add_definitions, ClassInfoView, ClassMap, ClassRows, KeyframeInfoView};
use crate::paths::{
    file_to_uri, is_css_extension, is_html, is_html_extension, path_extension, path_file_name,
    path_join, path_parent, uri_path, uri_to_file,
};
use crate::protocol::DiagnosticView;
use crate::scope::{
    document_dir, import_paths, keyframes_not_from, links_in, may_take_up, not_from, source_name,
    with_animations, without_source, DocumentScope,
};
use crate::session::{
    can_remark, current_text, document_remarks, hinted_sheet, notification_of, remark_lists,
    remarked_sheets, request_of, seen_rows, seen_vars, sent_for, sheet_remarks, unused_rows,
    usage_after, usage_of, NotificationKind, PublishedView, RequestKind,
};
use crate::style::{blocks_readable, style_blocks};
use crate::table::{has_name, items_for, lemma_append_all, lemma_row_of, list_at, lookup};
use crate::updates::{
    changed_sheet, css_update, keyframes_after, new_content, rows_after, rules_after,
    update_readable, with_sheets, FileUpdateView, SheetUpdate,
};
use crate::vars::{class_map_vars, VarRows};
use vstd::prelude::*;

verus! {

/// Whether an address is that of an HTML document.
pub open spec fn is_html_address(uri: Seq<char>) -> bool {
    uri_path(uri) is Some && (".html"@.is_suffix_of(uri_path(uri)->0) || ".htm"@.is_suffix_of(
        uri_path(uri)->0,
    ))
}

/// When an HTML document has a new text, its errors and then its warnings are sent, in one message;
/// of other documents nothing is sent. Nothing can be said of an HTML document with a `<style>`
/// block that cannot be read.
pub proof fn law_new_texts_are_remarked_on(uri: Seq<char>, text: Seq<char>, rows: ClassRows)
    ensures
        is_html_address(uri) ==> sent_for(uri, text, rows) == seq![
            PublishedView { uri, diagnostics: unknown_in(text, rows) + duplicate_classes(text) },
        ],
        !is_html_address(uri) ==> sent_for(uri, text, rows).len() == 0,
        can_remark(uri, text) == (!is_html_address(uri) || blocks_readable(style_blocks(text))),
{
}

/// The counts are those of the workspace once an HTML document has changed, and stay as they were
/// otherwise and without a workspace. Of a file that is open the text in the editor counts, of
/// another the one on disk.
pub proof fn law_when_uses_are_counted(
    usage: Seq<(Seq<char>, usize)>,
    uri: Seq<char>,
    walked: Seq<(Seq<char>, Option<Seq<char>>)>,
    documents: Seq<(Seq<char>, Seq<char>)>,
    file: (Seq<char>, Option<Seq<char>>),
)
    ensures
        is_html_address(uri) ==> usage_after(usage, uri, Some(walked), documents) == usage_of(
            walked,
            documents,
        ),
        !is_html_address(uri) ==> usage_after(usage, uri, Some(walked), documents) == usage,
        usage_after(usage, uri, None, documents) == usage,
        lookup(documents, file.0) is Some ==> current_text(file, documents) == lookup(
            documents,
            file.0,
        ),
        lookup(documents, file.0) is None ==> current_text(file, documents) == file.1,
{
}

/// What is sent when style sheets have changed: of each style sheet that changed or has hints the
/// names that it defines twice, of a deleted one nothing; then the hints; and of each open HTML
/// document its errors and warnings.
pub proof fn law_what_is_sent(
    changes: Seq<(Seq<char>, bool)>,
    rows: ClassRows,
    documents: Seq<(Seq<char>, Seq<char>)>,
    in_scripts: Seq<Seq<char>>,
    path: Seq<char>,
    uri: Seq<char>,
    i: int,
)
    ensures
        ({
            let hinted = unused_rows(rows, documents, in_scripts);
            remark_lists(changes, rows, documents, in_scripts) == collect(
                remarked_sheets(changes, rows, hinted),
                sheet_remarks(rows),
            ) + hinted + collect(documents, document_remarks(rows))
        }),
        file_to_uri(path) == Some(uri) ==> sheet_remarks(rows)((path, false)) == Some(
            (uri, redefinitions_upto(rows, path, rows.len() as int)),
        ),
        file_to_uri(path) == Some(uri) ==> sheet_remarks(rows)((path, true)) == Some(
            (uri, Seq::<DiagnosticView>::empty()),
        ),
        0 <= i < documents.len() ==> document_remarks(rows)(documents[i]) == (if is_html_address(
            documents[i].0,
        ) {
            Some(
                (
                    documents[i].0,
                    unknown_in(documents[i].1, rows) + duplicate_classes(documents[i].1),
                ),
            )
        } else {
            None
        }),
{
}

/// Forgetting a file drops what stands in it and keeps the rest in its order.
pub proof fn law_forgetting(
    infos: Seq<ClassInfoView>,
    info: ClassInfoView,
    animations: Seq<(Seq<char>, KeyframeInfoView)>,
    animation: (Seq<char>, KeyframeInfoView),
    path: Seq<char>,
)
    ensures
        collect(infos.push(info), not_from(path)) == (if info.source_path == path {
            collect(infos, not_from(path))
        } else {
            collect(infos, not_from(path)).push(info)
        }),
        collect(animations.push(animation), keyframes_not_from(path)) == (if animation.1.source_path
            == path {
            collect(animations, keyframes_not_from(path))
        } else {
            collect(animations, keyframes_not_from(path)).push(animation)
        }),
{
    assert(infos.push(info).drop_last() =~= infos);
    assert(animations.push(animation).drop_last() =~= animations);
}

/// Changes are taken one after another: a style sheet that was read anew loses what it had and gets
/// what it holds now, one that holds nothing now loses what it had. For the animations what it
/// imports is read too.
pub proof fn law_changes_one_after_another(
    rows: ClassRows,
    rules: Seq<ClassInfoView>,
    animations: Seq<(Seq<char>, KeyframeInfoView)>,
    before: Seq<SheetUpdate>,
    path: Seq<char>,
    text: Seq<char>,
    imported: Seq<(Seq<char>, Seq<char>)>,
)
    ensures
        ({
            let read = before.push(SheetUpdate { path, content: Some(text), imported });
            let gone = before.push(SheetUpdate { path, content: None, imported });
            let name = match path_file_name(path) {
                Some(name) => name,
                None => ""@,
            };
            &&& rows_after(rows, Seq::empty()) == rows
            &&& rows_after(rows, read) == add_definitions(
                without_source(rows_after(rows, before), path),
                css_definitions(text, 0, name, path),
            )
            &&& rows_after(rows, gone) == without_source(rows_after(rows, before), path)
            &&& rules_after(rules, read) == collect(rules_after(rules, before), not_from(path))
                + css_rule_infos(text, 0, name, path)
            &&& rules_after(rules, gone) == collect(rules_after(rules, before), not_from(path))
            &&& keyframes_after(animations, read) == with_sheets(
                with_animations(
                    collect(keyframes_after(animations, before), keyframes_not_from(path)),
                    path,
                    text,
                ),
                imported,
            )
            &&& keyframes_after(animations, gone) == collect(
                keyframes_after(animations, before),
                keyframes_not_from(path),
            )
            &&& with_sheets(animations, imported.push((path, text))) == with_animations(
                with_sheets(animations, imported),
                path,
                text,
            )
            &&& with_sheets(animations, Seq::empty()) == animations
        }),
{
    let read = before.push(SheetUpdate { path, content: Some(text), imported });
    let gone = before.push(SheetUpdate { path, content: None, imported });
    assert(read.drop_last() =~= before);
    assert(gone.drop_last() =~= before);
    assert(imported.push((path, text)).drop_last() =~= imported);
}

/// Only a file that was created or changed is read; of a deleted one nothing counts.
pub proof fn law_what_is_read_anew(u: FileUpdateView)
    ensures
        u.change is Created || u.change is Changed ==> new_content(u) == u.content,
        u.change is Deleted || u.change is Unknown ==> new_content(u) is None,
{
}

/// A file is taken up during a walk if it is not too large, can be resolved and was not taken up
/// before. What it imports lies beside it.
pub proof fn law_walks(
    size: Option<u64>,
    resolved: Option<Seq<char>>,
    visited: Seq<Seq<char>>,
    path: Seq<char>,
    files: Seq<Seq<char>>,
    dir: Seq<char>,
    i: int,
)
    ensures
        may_take_up(size, resolved, visited) == ((size is None || size->0 <= 512000) && resolved
            is Some && !visited.contains(resolved->0)),
        import_paths(path, files).len() == files.len(),
        0 <= i < files.len() ==> import_paths(path, files)[i] == path_join(
            if path_parent(path) is Some {
                path_parent(path)->0
            } else {
                "."@
            },
            files[i],
        ),
        links_in(dir, files).len() == files.len(),
        0 <= i < files.len() ==> links_in(dir, files)[i] == path_join(dir, files[i]),
        path_file_name(path) is Some ==> source_name(path) == path_file_name(path)->0,
{
}

/// The directory of a document is the one that its file lies in.
pub proof fn law_directories(uri: Seq<char>, path: Seq<char>)
    ensures
        uri_to_file(uri) == Some(path) ==> document_dir(uri) == path_parent(path),
        uri_to_file(uri) is None ==> document_dir(uri) is None,
{
}

proof fn lemma_differ(a: Seq<char>, b: Seq<char>, i: int)
    requires
        a.len() != b.len() || (0 <= i < a.len() && a[i] != b[i]),
    ensures
        a != b,
{
}

/// Every kind of request is known by its method, and no other method is.
pub proof fn law_requests_by_method(method: Seq<char>)
    ensures
        request_of("textDocument/completion"@) == Some(RequestKind::Completion),
        request_of("textDocument/hover"@) == Some(RequestKind::Hover),
        request_of("textDocument/definition"@) == Some(RequestKind::Definition),
        request_of("textDocument/references"@) == Some(RequestKind::References),
        request_of("textDocument/rename"@) == Some(RequestKind::Rename),
        request_of("textDocument/codeAction"@) == Some(RequestKind::CodeAction),
        request_of("textDocument/documentSymbol"@) == Some(RequestKind::DocumentSymbol),
        request_of("textDocument/codeLens"@) == Some(RequestKind::CodeLens),
        request_of("workspace/symbol"@) == Some(RequestKind::WorkspaceSymbol),
        request_of(method) is Some ==> method == "textDocument/completion"@ || method
            == "textDocument/hover"@ || method == "textDocument/definition"@ || method
            == "textDocument/references"@ || method == "textDocument/rename"@ || method
            == "textDocument/codeAction"@ || method == "textDocument/documentSymbol"@ || method
            == "textDocument/codeLens"@ || method == "workspace/symbol"@,
{
    reveal_strlit("textDocument/completion");
    reveal_strlit("textDocument/hover");
    reveal_strlit("textDocument/definition");
    reveal_strlit("textDocument/references");
    reveal_strlit("textDocument/rename");
    reveal_strlit("textDocument/codeAction");
    reveal_strlit("textDocument/documentSymbol");
    reveal_strlit("textDocument/codeLens");
    reveal_strlit("workspace/symbol");
    lemma_differ("textDocument/hover"@, "textDocument/completion"@, 13);
    lemma_differ("textDocument/definition"@, "textDocument/completion"@, 13);
    lemma_differ("textDocument/definition"@, "textDocument/hover"@, 13);
    lemma_differ("textDocument/references"@, "textDocument/completion"@, 13);
    lemma_differ("textDocument/references"@, "textDocument/hover"@, 13);
    lemma_differ("textDocument/references"@, "textDocument/definition"@, 13);
    lemma_differ("textDocument/rename"@, "textDocument/completion"@, 13);
    lemma_differ("textDocument/rename"@, "textDocument/hover"@, 13);
    lemma_differ("textDocument/rename"@, "textDocument/definition"@, 13);
    lemma_differ("textDocument/rename"@, "textDocument/references"@, 15);
    lemma_differ("textDocument/codeAction"@, "textDocument/completion"@, 15);
    lemma_differ("textDocument/codeAction"@, "textDocument/hover"@, 13);
    lemma_differ("textDocument/codeAction"@, "textDocument/definition"@, 13);
    lemma_differ("textDocument/codeAction"@, "textDocument/references"@, 13);
    lemma_differ("textDocument/codeAction"@, "textDocument/rename"@, 13);
    lemma_differ("textDocument/documentSymbol"@, "textDocument/completion"@, 13);
    lemma_differ("textDocument/documentSymbol"@, "textDocument/hover"@, 13);
    lemma_differ("textDocument/documentSymbol"@, "textDocument/definition"@, 14);
    lemma_differ("textDocument/documentSymbol"@, "textDocument/references"@, 13);
    lemma_differ("textDocument/documentSymbol"@, "textDocument/rename"@, 13);
    lemma_differ("textDocument/documentSymbol"@, "textDocument/codeAction"@, 13);
    lemma_differ("textDocument/codeLens"@, "textDocument/completion"@, 15);
    lemma_differ("textDocument/codeLens"@, "textDocument/hover"@, 13);
    lemma_differ("textDocument/codeLens"@, "textDocument/definition"@, 13);
    lemma_differ("textDocument/codeLens"@, "textDocument/references"@, 13);
    lemma_differ("textDocument/codeLens"@, "textDocument/rename"@, 13);
    lemma_differ("textDocument/codeLens"@, "textDocument/codeAction"@, 17);
    lemma_differ("textDocument/codeLens"@, "textDocument/documentSymbol"@, 13);
    lemma_differ("workspace/symbol"@, "textDocument/completion"@, 0);
    lemma_differ("workspace/symbol"@, "textDocument/hover"@, 0);
    lemma_differ("workspace/symbol"@, "textDocument/definition"@, 0);
    lemma_differ("workspace/symbol"@, "textDocument/references"@, 0);
    lemma_differ("workspace/symbol"@, "textDocument/rename"@, 0);
    lemma_differ("workspace/symbol"@, "textDocument/codeAction"@, 0);
    lemma_differ("workspace/symbol"@, "textDocument/documentSymbol"@, 0);
    lemma_differ("workspace/symbol"@, "textDocument/codeLens"@, 0);
}

/// Every kind of notification is known by its method, and no other method is.
pub proof fn law_notifications_by_method(method: Seq<char>)
    ensures
        notification_of("textDocument/didOpen"@) == Some(NotificationKind::Opened),
        notification_of("textDocument/didChange"@) == Some(NotificationKind::Changed),
        notification_of("textDocument/didClose"@) == Some(NotificationKind::Closed),
        notification_of("workspace/didChangeWatchedFiles"@) == Some(
            NotificationKind::FilesChanged,
        ),
        notification_of(method) is Some ==> method == "textDocument/didOpen"@ || method
            == "textDocument/didChange"@ || method == "textDocument/didClose"@ || method
            == "workspace/didChangeWatchedFiles"@,
{
    reveal_strlit("textDocument/didOpen");
    reveal_strlit("textDocument/didChange");
    reveal_strlit("textDocument/didClose");
    reveal_strlit("workspace/didChangeWatchedFiles");
    lemma_differ("textDocument/didChange"@, "textDocument/didOpen"@, 16);
    lemma_differ("textDocument/didClose"@, "textDocument/didOpen"@, 16);
    lemma_differ("textDocument/didClose"@, "textDocument/didChange"@, 17);
    lemma_differ("workspace/didChangeWatchedFiles"@, "textDocument/didOpen"@, 0);
    lemma_differ("workspace/didChangeWatchedFiles"@, "textDocument/didChange"@, 0);
    lemma_differ("workspace/didChangeWatchedFiles"@, "textDocument/didClose"@, 0);
}

/// The style sheet that a change is about, by its address, with what counts of it; changes of other
/// files count for nothing.
pub proof fn law_changes_of_style_sheets(u: FileUpdateView, path: Seq<char>)
    requires
        uri_to_file(u.uri) == Some(path),
    ensures
        path_extension(path) == Some("css"@) ==> css_update()(u)
            == Some(
            SheetUpdate {
                path,
                content: if u.change is Created || u.change is Changed {
                    u.content
                } else {
                    None
                },
                imported: u.imported,
            },
        ) && changed_sheet()(u) == Some((path, u.change is Deleted)),
        path_extension(path) != Some("css"@) ==> css_update()(u)
            is None && changed_sheet()(u) is None && update_readable(
            u,
        ),
        path_extension(path) == Some("css"@) && new_content(u) is Some
            ==> update_readable(u) == (css_rules(
            new_content(u)->0,
            0,
        ) is Some),
{
}

/// A style sheet that has hints is remarked on as if it had changed.
pub proof fn law_hinted_sheets_are_remarked_on(
    changes: Seq<(Seq<char>, bool)>,
    rows: ClassRows,
    hinted: Seq<(Seq<char>, Seq<DiagnosticView>)>,
    path: Seq<char>,
    uri: Seq<char>,
)
    requires
        known_files(rows).contains(path),
        file_to_uri(path) == Some(uri),
        has_name(hinted, uri),
    ensures
        remarked_sheets(changes, rows, hinted).contains((path, false)),
{
    let files = known_files(rows);
    let f = hinted_sheet(hinted);
    lemma_collected(files, f, (path, false));
    let i = choose|i: int| 0 <= i < files.len() && files[i] == path;
    assert(f(files[i]) == Some((path, false)));
    let more = collect(files, f);
    lemma_concat_contains(changes, more, (path, false));
    lemma_first_occurrences_within(changes + more, (path, false));
}

/// A document sees its own scope where it has one, and else the workspace.
pub proof fn law_scopes(
    map: ClassMap,
    rows: ClassRows,
    vars: VarRows,
)
    ensures
        seen_rows(DocumentScope::Own(map), rows) == map@,
        seen_rows(DocumentScope::Workspace, rows) == rows,
        seen_vars(DocumentScope::Own(map), vars)
            == class_map_vars(map.rules()),
        seen_vars(DocumentScope::Workspace, vars) == vars,
{
}

/// The files of a workspace are told apart by their extensions.
pub proof fn law_kinds_of_files(extension: Seq<char>)
    ensures
        is_css_extension(Some(extension)) == (extension == "css"@),
        is_html_extension(Some(extension)) == (extension == "html"@ || extension
            == "htm"@),
        !is_css_extension(None),
        !is_html_extension(None),
{
}

/// Hints come only while an HTML document is open; then each definition of a name that neither such
/// a document nor a script uses has one, under the address of its file.
pub proof fn law_hints_need_an_open_document(
    rows: ClassRows,
    documents: Seq<(Seq<char>, Seq<char>)>,
    in_scripts: Seq<Seq<char>>,
    uri: Seq<char>,
)
    ensures
        (forall|i: int| 0 <= i < documents.len() ==> !is_html_address((#[trigger] documents[i]).0))
            ==> unused_rows(rows, documents, in_scripts).len() == 0,
        (exists|i: int| 0 <= i < documents.len() && is_html_address((#[trigger] documents[i]).0))
            ==> list_at(unused_rows(rows, documents, in_scripts), uri)
            == items_for(
            unused_upto(
                rows,
                open_keys(documents) + in_scripts,
                rows.len() as int,
            ),
            uri,
        ),
{
    let none = Seq::<(Seq<char>, Seq<DiagnosticView>)>::empty();
    if exists|i: int| 0 <= i < documents.len() && is_html_address((#[trigger] documents[i]).0) {
        let i = choose|i: int|
            0 <= i < documents.len() && is_html_address((#[trigger] documents[i]).0);
        assert(is_html(uri_path(documents[i].0)));
        let added = unused_upto(
            rows,
            open_keys(documents) + in_scripts,
            rows.len() as int,
        );
        lemma_append_all(none, added, uri);
        lemma_row_of(none, uri);
        assert(list_at(none, uri) + items_for(added, uri)
            =~= items_for(added, uri));
    }
}

} // verus!
