//! What the server knows, and how it answers to what happens in the editor.

use crate::actions::{css_files, known_files};
use crate::collect::{
    collect, first_occurrences, lemma_collect, lemma_collect_step, lemma_first_occurrences_push,
    lemma_first_occurrences_within,
};
use crate::completion::{completion_handler, is_reply, offers_at, CompletionItem};
use crate::css::{
    blocks_closed, css_definitions, css_rule_infos, css_rules, only_names, parse_css_content,
};
use crate::diagnostics::{
    all_html_diagnostics, diagnostics_for_css_duplicates, diagnostics_for_unused, html_open,
    open_keys, redefinitions_upto, unknown_in, unused_upto,
};
use crate::duplicates::duplicate_classes;
use crate::hover::{hover_at, hover_handler, is_css_name};
use crate::html::html_refs;
use crate::links::imports;
use crate::model::{
    add_definitions, clone_opt, opt_text, ClassMap, ClassRows, DocumentMap, KeyframesMap, VarMap,
};
use crate::paths::{file_to_uri, is_html, is_html_uri, uri_of_file, uri_path};
use crate::pattern::Patterns;
use crate::protocol::{Diagnostic, DiagnosticView, Position};
use crate::references::{definition_handler, definition_places, replies_with, DefinitionReply};
use crate::rename::{RequestError, INVALID_PARAMS};
use crate::scope::{import_paths, source_name, source_name_of, Crawl, DocumentScope};
use crate::style::{blocks_readable, style_blocks};
use crate::symbols::{
    build_usage_counts, count_of, keys_upto, law_tally_counts, occurrences, tally, used_keys,
    UsageCounts,
};
use crate::table::{
    append_all, distinct_names, has_name, join_lists, lemma_join_lists, lemma_join_lists_concat,
    lemma_list_is_joined, lemma_put, lemma_row_of, lemma_row_of_is, lemma_without, list_at,
    lists_for, lookup, put, row_of, without, Row, Table,
};
use crate::text::{same_text, texts};
use crate::updates::{
    all_readable, changed_sheet, changed_sheets, css_updates, keyframes_after, rows_after,
    rules_after, update_css_map, update_keyframes_map, CssChange, FileUpdate,
};
use crate::vars::{class_map_vars, refresh_var_map, VarRows};
use vstd::prelude::*;
use vstd::string::StringExecFns;

verus! {

/// What a request asks for.
#[derive(Clone, Copy, Debug, PartialEq, Eq, Structural)]
pub enum RequestKind {
    Completion,
    Hover,
    Definition,
    References,
    Rename,
    CodeAction,
    DocumentSymbol,
    CodeLens,
    WorkspaceSymbol,
}

/// What a request's method asks for.
pub open spec fn request_of(method: Seq<char>) -> Option<RequestKind> {
    if method == "textDocument/completion"@ {
        Some(RequestKind::Completion)
    } else if method == "textDocument/hover"@ {
        Some(RequestKind::Hover)
    } else if method == "textDocument/definition"@ {
        Some(RequestKind::Definition)
    } else if method == "textDocument/references"@ {
        Some(RequestKind::References)
    } else if method == "textDocument/rename"@ {
        Some(RequestKind::Rename)
    } else if method == "textDocument/codeAction"@ {
        Some(RequestKind::CodeAction)
    } else if method == "textDocument/documentSymbol"@ {
        Some(RequestKind::DocumentSymbol)
    } else if method == "textDocument/codeLens"@ {
        Some(RequestKind::CodeLens)
    } else if method == "workspace/symbol"@ {
        Some(RequestKind::WorkspaceSymbol)
    } else {
        None
    }
}

/// The code for a method that is not known.
pub const METHOD_NOT_FOUND: i32 = -32601;

/// What a request's method asks for; a method that is not known is refused.
pub fn route_request(method: &str) -> (r: Result<RequestKind, RequestError>)
    ensures
        r is Ok == (request_of(method@) is Some),
        r is Ok ==> r->Ok_0 == request_of(method@)->0,
        r is Err ==> (r->Err_0).code == METHOD_NOT_FOUND && (r->Err_0).message@
            == "method not found: "@ + method@,
{
    if same_text(method, "textDocument/completion") {
        Ok(RequestKind::Completion)
    } else if same_text(method, "textDocument/hover") {
        Ok(RequestKind::Hover)
    } else if same_text(method, "textDocument/definition") {
        Ok(RequestKind::Definition)
    } else if same_text(method, "textDocument/references") {
        Ok(RequestKind::References)
    } else if same_text(method, "textDocument/rename") {
        Ok(RequestKind::Rename)
    } else if same_text(method, "textDocument/codeAction") {
        Ok(RequestKind::CodeAction)
    } else if same_text(method, "textDocument/documentSymbol") {
        Ok(RequestKind::DocumentSymbol)
    } else if same_text(method, "textDocument/codeLens") {
        Ok(RequestKind::CodeLens)
    } else if same_text(method, "workspace/symbol") {
        Ok(RequestKind::WorkspaceSymbol)
    } else {
        Err(method_not_found(method))
    }
}

/// The refusal of a method that is not known.
pub fn method_not_found(method: &str) -> (r: RequestError)
    ensures
        r.code == METHOD_NOT_FOUND,
        r.message@ == "method not found: "@ + method@,
{
    let mut message = "method not found: ".to_owned();
    message.append(method);
    RequestError { code: METHOD_NOT_FOUND, message }
}

/// The refusal of parameters that cannot be read.
pub fn invalid_params(message: String) -> (r: RequestError)
    ensures
        r.code == INVALID_PARAMS,
        r.message@ == message@,
{
    RequestError { code: INVALID_PARAMS, message }
}

/// What a notification tells.
#[derive(Clone, Copy, Debug, PartialEq, Eq, Structural)]
pub enum NotificationKind {
    Opened,
    Changed,
    Closed,
    FilesChanged,
}

/// What a notification's method tells; nothing for others.
pub open spec fn notification_of(method: Seq<char>) -> Option<NotificationKind> {
    if method == "textDocument/didOpen"@ {
        Some(NotificationKind::Opened)
    } else if method == "textDocument/didChange"@ {
        Some(NotificationKind::Changed)
    } else if method == "textDocument/didClose"@ {
        Some(NotificationKind::Closed)
    } else if method == "workspace/didChangeWatchedFiles"@ {
        Some(NotificationKind::FilesChanged)
    } else {
        None
    }
}

/// What a notification's method tells.
pub fn route_notification(method: &str) -> (r: Option<NotificationKind>)
    ensures
        r == notification_of(method@),
{
    if same_text(method, "textDocument/didOpen") {
        Some(NotificationKind::Opened)
    } else if same_text(method, "textDocument/didChange") {
        Some(NotificationKind::Changed)
    } else if same_text(method, "textDocument/didClose") {
        Some(NotificationKind::Closed)
    } else if same_text(method, "workspace/didChangeWatchedFiles") {
        Some(NotificationKind::FilesChanged)
    } else {
        None
    }
}

/// The remarks on a file that are sent to the editor.
#[derive(Debug)]
pub struct Published {
    pub uri: String,
    pub diagnostics: Vec<Diagnostic>,
}

/// What a `Published` says.
#[verifier::ext_equal]
pub ghost struct PublishedView {
    pub uri: Seq<char>,
    pub diagnostics: Seq<DiagnosticView>,
}

impl DeepView for Published {
    type V = PublishedView;

    open spec fn deep_view(&self) -> PublishedView {
        PublishedView { uri: self.uri@, diagnostics: self.diagnostics.deep_view() }
    }
}

/// What the server knows.
pub struct Session {
    pub class_map: ClassMap,
    pub var_map: VarMap,
    pub keyframes: KeyframesMap,
    pub usage: UsageCounts,
    pub documents: DocumentMap,
}

/// All remarks on an HTML document.
pub open spec fn html_remarks(text: Seq<char>, rows: ClassRows) -> Seq<DiagnosticView> {
    unknown_in(text, rows) + duplicate_classes(text)
}

/// Whether the remarks on a document can be made: it is no HTML document, or its `<style>` blocks
/// can be read.
pub open spec fn can_remark(uri: Seq<char>, text: Seq<char>) -> bool {
    is_html(uri_path(uri)) ==> blocks_readable(style_blocks(text))
}

/// What is sent when a document has a new text: its remarks, if it is an HTML document. A class
/// that any style sheet of the workspace defines is known.
pub open spec fn sent_for(uri: Seq<char>, text: Seq<char>, rows: ClassRows) -> Seq<PublishedView> {
    if is_html(uri_path(uri)) {
        seq![PublishedView { uri, diagnostics: html_remarks(text, rows) }]
    } else {
        seq![]
    }
}

/// The last of several texts.
pub fn last_change(texts: Vec<String>) -> (r: Option<String>)
    ensures
        r is Some == (texts@.len() > 0),
        r is Some ==> r->0 == texts@.last(),
{
    let mut texts = texts;
    texts.pop()
}

/// An HTML file of the workspace: its address, and its text on disk if it could be read.
#[derive(Debug)]
pub struct WalkedFile {
    pub uri: String,
    pub on_disk: Option<String>,
}

impl DeepView for WalkedFile {
    type V = (Seq<char>, Option<Seq<char>>);

    open spec fn deep_view(&self) -> (Seq<char>, Option<Seq<char>>) {
        (self.uri@, opt_text(self.on_disk))
    }
}

/// The HTML files of a workspace, if there is one.
pub open spec fn walked_files(workspace: Option<Vec<WalkedFile>>) -> Option<
    Seq<(Seq<char>, Option<Seq<char>>)>,
> {
    match workspace {
        Some(walked) => Some(walked.deep_view()),
        None => None,
    }
}

/// The text of a file of the workspace: that of the open document, or else the one on disk.
pub open spec fn current_text(
    file: (Seq<char>, Option<Seq<char>>),
    documents: Seq<(Seq<char>, Seq<char>)>,
) -> Option<Seq<char>> {
    match lookup(documents, file.0) {
        Some(text) => Some(text),
        None => file.1,
    }
}

/// The current texts of the files of a workspace, as far as there are any.
pub open spec fn current_texts(
    walked: Seq<(Seq<char>, Option<Seq<char>>)>,
    documents: Seq<(Seq<char>, Seq<char>)>,
) -> Seq<(Seq<char>, Seq<char>)>
    decreases walked.len(),
{
    if walked.len() == 0 {
        seq![]
    } else {
        let before = current_texts(walked.drop_last(), documents);
        match current_text(walked.last(), documents) {
            Some(text) => put(before, walked.last().0, text),
            None => before,
        }
    }
}

/// How often the current texts of a workspace use each name.
pub open spec fn usage_of(
    walked: Seq<(Seq<char>, Option<Seq<char>>)>,
    documents: Seq<(Seq<char>, Seq<char>)>,
) -> Seq<(Seq<char>, usize)> {
    let files = current_texts(walked, documents);
    tally(keys_upto(files, files.len() as int))
}

/// The counts after the text of a document has changed: those of the workspace, if it is an HTML
/// document and there is a workspace.
pub open spec fn usage_after(
    usage: Seq<(Seq<char>, usize)>,
    uri: Seq<char>,
    workspace: Option<Seq<(Seq<char>, Option<Seq<char>>)>>,
    documents: Seq<(Seq<char>, Seq<char>)>,
) -> Seq<(Seq<char>, usize)> {
    if is_html(uri_path(uri)) && workspace is Some {
        usage_of(workspace->0, documents)
    } else {
        usage
    }
}

/// The current texts of the files of a workspace: of an open document the text in the editor
/// counts.
pub fn workspace_files(walked: &Vec<WalkedFile>, documents: &DocumentMap) -> (r: DocumentMap)
    ensures
        r@ == current_texts(walked.deep_view(), documents@),
{
    let n: usize = walked.len();
    let ghost all = walked.deep_view();
    let mut r: DocumentMap = Table::new();
    let mut i: usize = 0;
    proof {
        assert(all.take(0) =~= seq![]);
        assert(r@ =~= seq![]);
    }
    while i < n
        invariant
            i <= n,
            n == walked@.len(),
            all == walked.deep_view(),
            r@ == current_texts(all.take(i as int), documents@),
        decreases n - i,
    {
        let file = &walked[i];
        proof {
            assert(all[i as int] == file.deep_view());
            assert(all.take(i + 1).drop_last() =~= all.take(i as int));
            assert(all.take(i + 1).last() == all[i as int]);
        }
        let text = match documents.get(file.uri.as_str()) {
            Some(text) => Some(text.clone()),
            None => clone_opt(&file.on_disk),
        };
        if let Some(text) = text {
            r.insert(file.uri.clone(), text);
        }
        i = i + 1;
    }
    proof {
        assert(all.take(n as int) =~= all);
    }
    r
}

impl Session {
    /// A session that knows nothing.
    pub fn new() -> (r: Session)
        ensures
            r.class_map@.len() == 0,
            r.class_map.rules().len() == 0,
            r.var_map@.len() == 0,
            r.keyframes@.len() == 0,
            r.usage@.len() == 0,
            r.documents@.len() == 0,
    {
        Session {
            class_map: ClassMap::new(),
            var_map: Table::new(),
            keyframes: Table::new(),
            usage: Table::new(),
            documents: Table::new(),
        }
    }

    /// A document was opened, or its text was replaced: the text is stored, and if it is an HTML
    /// document of a workspace, the uses of names in the workspace are counted anew. Tells what to
    /// send; there is no answer if a `<style>` block of the document cannot be read.
    pub fn set_document(
        &mut self,
        patterns: &Patterns,
        uri: &str,
        text: &str,
        workspace: &Option<Vec<WalkedFile>>,
    ) -> (r: Option<Vec<Published>>)
        ensures
            r is Some == can_remark(uri@, text@),
            r is Some ==> (r->0).deep_view() == sent_for(uri@, text@, old(self).class_map@),
            final(self).documents@ == put(old(self).documents@, uri@, text@),
            final(self).class_map == old(self).class_map,
            final(self).var_map == old(self).var_map,
            final(self).keyframes == old(self).keyframes,
            final(self).usage@ == usage_after(
                old(self).usage@,
                uri@,
                walked_files(*workspace),
                final(self).documents@,
            ),
    {
        self.documents.insert(uri.to_owned(), text.to_owned());
        self.count_after(patterns, uri, workspace);
        let mut out: Vec<Published> = Vec::new();
        if is_html_uri(uri) {
            let diagnostics = match all_html_diagnostics(patterns, text, &self.class_map) {
                Some(diagnostics) => diagnostics,
                None => {
                    return None;
                },
            };
            out.push(Published { uri: uri.to_owned(), diagnostics });
        }
        proof {
            assert(out.deep_view() =~= sent_for(uri@, text@, old(self).class_map@));
        }
        Some(out)
    }

    /// A document was closed: its text is dropped, its remarks are cleared, and if it is an HTML
    /// document of a workspace, the uses of names in the workspace are counted anew.
    pub fn close_document(
        &mut self,
        patterns: &Patterns,
        uri: &str,
        workspace: &Option<Vec<WalkedFile>>,
    ) -> (r: Published)
        ensures
            r.deep_view() == (PublishedView { uri: uri@, diagnostics: seq![] }),
            final(self).documents@ == without(old(self).documents@, uri@),
            final(self).class_map == old(self).class_map,
            final(self).var_map == old(self).var_map,
            final(self).keyframes == old(self).keyframes,
            final(self).usage@ == usage_after(
                old(self).usage@,
                uri@,
                walked_files(*workspace),
                final(self).documents@,
            ),
    {
        self.documents.remove(uri);
        self.count_after(patterns, uri, workspace);
        let diagnostics: Vec<Diagnostic> = Vec::new();
        proof {
            assert(diagnostics.deep_view() =~= seq![]);
        }
        Published { uri: uri.to_owned(), diagnostics }
    }

    /// The text of a document has changed: if it is an HTML document of a workspace, the uses of
    /// names in the workspace are counted anew.
    fn count_after(&mut self, patterns: &Patterns, uri: &str, workspace: &Option<Vec<WalkedFile>>)
        ensures
            final(self).usage@ == usage_after(
                old(self).usage@,
                uri@,
                walked_files(*workspace),
                old(self).documents@,
            ),
            final(self).class_map == old(self).class_map,
            final(self).var_map == old(self).var_map,
            final(self).keyframes == old(self).keyframes,
            final(self).documents == old(self).documents,
    {
        if is_html_uri(uri) {
            self.recount(patterns, workspace);
        }
    }

    /// Completes at a position of an open document, with the names that the document sees.
    pub fn complete(
        &self,
        patterns: &Patterns,
        scope: &DocumentScope,
        uri: &str,
        pos: Position,
    ) -> (r: Option<Vec<CompletionItem>>)
        requires
            !(scope is Unreadable),
        ensures
            is_reply(
                match lookup(self.documents@, uri@) {
                    Some(text) => offers_at(
                        text,
                        pos,
                        seen_rows(*scope, self.class_map@),
                        seen_vars(*scope, self.var_map@),
                        self.keyframes@,
                    ),
                    None => None,
                },
                r,
            ),
    {
        match scope {
            DocumentScope::Own(map) => {
                let vars = refresh_var_map(map);
                completion_handler(
                    patterns,
                    uri,
                    pos,
                    map,
                    &vars,
                    &self.keyframes,
                    &self.documents,
                )
            },
            _ => completion_handler(
                patterns,
                uri,
                pos,
                &self.class_map,
                &self.var_map,
                &self.keyframes,
                &self.documents,
            ),
        }
    }

    /// What is shown at a position of an open document, with the names that the document sees. A
    /// custom property that the document does not see is looked up in the workspace.
    pub fn hover(
        &self,
        patterns: &Patterns,
        scope: &DocumentScope,
        uri: &str,
        pos: Position,
    ) -> (r: Option<String>)
        requires
            !(scope is Unreadable),
        ensures
            opt_text(r) == (match lookup(self.documents@, uri@) {
                Some(text) => hover_at(
                    text,
                    is_css_name(uri_path(uri@)),
                    pos,
                    seen_rows(*scope, self.class_map@),
                    seen_vars(*scope, self.var_map@),
                    self.var_map@,
                    self.keyframes@,
                ),
                None => None,
            }),
    {
        match scope {
            DocumentScope::Own(map) => {
                let vars = refresh_var_map(map);
                hover_handler(
                    patterns,
                    uri,
                    pos,
                    map,
                    &vars,
                    &self.var_map,
                    &self.keyframes,
                    &self.documents,
                )
            },
            _ => hover_handler(
                patterns,
                uri,
                pos,
                &self.class_map,
                &self.var_map,
                &self.var_map,
                &self.keyframes,
                &self.documents,
            ),
        }
    }

    /// Where the name at a position of an open document is defined, among the definitions that the
    /// document sees.
    pub fn define(
        &self,
        patterns: &Patterns,
        scope: &DocumentScope,
        uri: &str,
        pos: Position,
    ) -> (r: DefinitionReply)
        requires
            !(scope is Unreadable),
        ensures
            replies_with(
                r,
                match lookup(self.documents@, uri@) {
                    Some(text) => definition_places(
                        text,
                        pos,
                        seen_rows(*scope, self.class_map@),
                        self.keyframes@,
                    ),
                    None => seq![],
                },
            ),
    {
        let map = match scope {
            DocumentScope::Own(map) => map,
            _ => &self.class_map,
        };
        definition_handler(patterns, uri, pos, map, &self.keyframes, &self.documents)
    }

    /// Counts anew how often the HTML documents of a workspace use each name; without a workspace
    /// the counts stay.
    pub fn recount(&mut self, patterns: &Patterns, workspace: &Option<Vec<WalkedFile>>)
        ensures
            final(self).usage@ == (match walked_files(*workspace) {
                Some(walked) => usage_of(walked, old(self).documents@),
                None => old(self).usage@,
            }),
            final(self).class_map == old(self).class_map,
            final(self).var_map == old(self).var_map,
            final(self).keyframes == old(self).keyframes,
            final(self).documents == old(self).documents,
    {
        if let Some(walked) = workspace {
            let files = workspace_files(walked, &self.documents);
            self.usage = build_usage_counts(patterns, &files);
        }
    }

    /// Collects the custom properties of the class map anew.
    pub fn refresh_vars(&mut self)
        ensures
            final(self).var_map@ == class_map_vars(old(self).class_map.rules()),
            final(self).class_map == old(self).class_map,
            final(self).keyframes == old(self).keyframes,
            final(self).usage == old(self).usage,
            final(self).documents == old(self).documents,
    {
        self.var_map = refresh_var_map(&self.class_map);
    }

    /// Style sheets were saved or deleted: each of them is read anew, the custom properties are
    /// collected and the uses of names counted anew, and the remarks on all open documents are made
    /// anew. `in_scripts` lists the names that scripts use. There is no answer if a block of one of
    /// the style sheets or of an open document cannot be read; in the first case nothing changes.
    pub fn files_changed(
        &mut self,
        patterns: &Patterns,
        updates: &Vec<FileUpdate>,
        workspace: &Option<Vec<WalkedFile>>,
        in_scripts: &Vec<String>,
    ) -> (r: Option<Vec<Published>>)
        ensures
            !all_readable(updates.deep_view()) ==> r is None && *final(self) == *old(self),
            all_readable(updates.deep_view()) ==> {
                let changed = css_updates(updates.deep_view());
                &&& final(self).class_map@ == rows_after(old(self).class_map@, changed)
                &&& final(self).class_map.rules() == rules_after(
                    old(self).class_map.rules(),
                    changed,
                )
                &&& final(self).keyframes@ == keyframes_after(old(self).keyframes@, changed)
                &&& final(self).var_map@ == class_map_vars(final(self).class_map.rules())
                &&& final(self).usage@ == (match walked_files(*workspace) {
                    Some(walked) => usage_of(walked, old(self).documents@),
                    None => old(self).usage@,
                })
                &&& final(self).documents == old(self).documents
                &&& r is Some == (forall|i: int|
                    0 <= i < old(self).documents@.len() ==> can_remark(
                        (#[trigger] old(self).documents@[i]).0,
                        old(self).documents@[i].1,
                    ))
                &&& r is Some ==> (r->0).deep_view() == remarks_for(
                    collect(updates.deep_view(), changed_sheet()),
                    final(self).class_map@,
                    old(self).documents@,
                    texts(in_scripts@),
                )
            },
    {
        if !update_css_map(&mut self.class_map, patterns, updates) {
            return None;
        }
        update_keyframes_map(&mut self.keyframes, patterns, updates);
        self.refresh_vars();
        self.recount(patterns, workspace);
        let changes = changed_sheets(updates);
        self.remarks_after_change(patterns, &changes, in_scripts)
    }

    /// What to send when style sheets have changed, one message for each address: the names that are
    /// defined twice in a style sheet that changed or has hints; the hints at unused names; and the
    /// remarks on each open HTML document. There is no answer if a `<style>` block of such a
    /// document cannot be read.
    pub fn remarks_after_change(
        &self,
        patterns: &Patterns,
        changes: &Vec<CssChange>,
        in_scripts: &Vec<String>,
    ) -> (r: Option<Vec<Published>>)
        ensures
            r is Some == (forall|i: int|
                0 <= i < self.documents@.len() ==> can_remark(
                    (#[trigger] self.documents@[i]).0,
                    self.documents@[i].1,
                )),
            r is Some ==> (r->0).deep_view() == remarks_for(
                changes.deep_view(),
                self.class_map@,
                self.documents@,
                texts(in_scripts@),
            ),
    {
        let hints = diagnostics_for_unused(patterns, &self.class_map, &self.documents, in_scripts);
        let ghost hinted = unused_rows(self.class_map@, self.documents@, texts(in_scripts@));
        proof {
            if !html_open(self.documents@) {
                assert(hints@ =~= hinted);
            }
        }
        let sheets = sheets_to_remark(changes, &self.class_map, &hints);
        let mut out: Table<Vec<Diagnostic>> = Table::new();
        proof {
            assert(out@ =~= seq![]);
        }
        join_sheets(&mut out, &sheets, &self.class_map);
        let ghost a = collect(sheets.deep_view(), sheet_remarks(self.class_map@));
        join_table(&mut out, hints);
        proof {
            lemma_join_lists_concat(seq![], a, hinted);
        }
        let n: usize = self.documents.len();
        let ghost docs = self.documents@;
        let ghost f = document_remarks(self.class_map@);
        let mut k: usize = 0;
        proof {
            assert(docs.take(0) =~= seq![]);
            assert(a + hinted + collect(docs.take(0), f) =~= a + hinted);
        }
        while k < n
            invariant
                k <= n,
                n == self.documents@.len(),
                docs == self.documents@,
                f == document_remarks(self.class_map@),
                forall|i: int| 0 <= i < k ==> can_remark((#[trigger] docs[i]).0, docs[i].1),
                out@ == join_lists(seq![], a + hinted + collect(docs.take(k as int), f)),
            decreases n - k,
        {
            let uri = self.documents.name_at(k).as_str();
            let ghost before = collect(docs.take(k as int), f);
            proof {
                lemma_collect_step(docs, k as int, f);
            }
            if is_html_uri(uri) {
                let text = self.documents.value_at(k).as_str();
                match all_html_diagnostics(patterns, text, &self.class_map) {
                    Some(diagnostics) => {
                        let ghost entry = (uri@, diagnostics.deep_view());
                        out.extend(uri.to_owned(), diagnostics);
                        proof {
                            let all = a + hinted + before.push(entry);
                            assert(f(docs[k as int]) == Some(entry));
                            assert(all.drop_last() =~= a + hinted + before);
                        }
                    },
                    None => {
                        proof {
                            assert(!can_remark(docs[k as int].0, docs[k as int].1));
                        }
                        return None;
                    },
                }
            }
            k = k + 1;
        }
        proof {
            assert(docs.take(n as int) =~= docs);
        }
        Some(publish_rows(out))
    }
}

/// The definitions that a document sees.
pub open spec fn seen_rows(scope: DocumentScope, rows: ClassRows) -> ClassRows {
    match scope {
        DocumentScope::Own(map) => map@,
        _ => rows,
    }
}

/// The custom properties that a document sees.
pub open spec fn seen_vars(scope: DocumentScope, vars: VarRows) -> VarRows {
    match scope {
        DocumentScope::Own(map) => class_map_vars(map.rules()),
        _ => vars,
    }
}

/// The remarks on a style sheet, with its address: the names it defines twice, or nothing if it was
/// deleted.
pub open spec fn sheet_remarks(rows: ClassRows) -> spec_fn((Seq<char>, bool)) -> Option<
    (Seq<char>, Seq<DiagnosticView>),
> {
    |change: (Seq<char>, bool)|
        match file_to_uri(change.0) {
            Some(uri) => Some(
                (
                    uri,
                    if change.1 {
                        seq![]
                    } else {
                        redefinitions_upto(rows, change.0, rows.len() as int)
                    },
                ),
            ),
            None => None,
        }
}

/// A style sheet that has hints at unused names.
pub open spec fn hinted_sheet(hinted: Seq<(Seq<char>, Seq<DiagnosticView>)>) -> spec_fn(
    Seq<char>,
) -> Option<(Seq<char>, bool)> {
    |path: Seq<char>|
        match file_to_uri(path) {
            Some(uri) => if has_name(hinted, uri) {
                Some((path, false))
            } else {
                None
            },
            None => None,
        }
}

/// The style sheets to remark on, each once: those that changed, and those that have hints, so that
/// what is sent about them is complete.
pub open spec fn remarked_sheets(
    changes: Seq<(Seq<char>, bool)>,
    rows: ClassRows,
    hinted: Seq<(Seq<char>, Seq<DiagnosticView>)>,
) -> Seq<(Seq<char>, bool)> {
    first_occurrences(changes + collect(known_files(rows), hinted_sheet(hinted)))
}

/// Whether a list holds a style sheet in a state.
fn contains_sheet(sheets: &Vec<CssChange>, path: &str, deleted: bool) -> (r: bool)
    ensures
        r == sheets.deep_view().contains((path@, deleted)),
{
    let n: usize = sheets.len();
    let ghost all = sheets.deep_view();
    let mut i: usize = 0;
    while i < n
        invariant
            i <= n,
            n == sheets@.len(),
            all == sheets.deep_view(),
            forall|j: int| 0 <= j < i ==> #[trigger] all[j] != (path@, deleted),
        decreases n - i,
    {
        proof {
            assert(all[i as int] == sheets@[i as int].deep_view());
        }
        if sheets[i].deleted == deleted && same_text(sheets[i].path.as_str(), path) {
            return true;
        }
        i = i + 1;
    }
    false
}

/// Adds a style sheet to a list that holds each once.
fn add_sheet(
    sheets: &mut Vec<CssChange>,
    path: &str,
    deleted: bool,
    all: Ghost<Seq<(Seq<char>, bool)>>,
)
    requires
        old(sheets).deep_view() == first_occurrences(all@),
    ensures
        final(sheets).deep_view() == first_occurrences(all@.push((path@, deleted))),
{
    let ghost before = sheets.deep_view();
    proof {
        lemma_first_occurrences_push(all@, (path@, deleted));
    }
    if !contains_sheet(sheets, path, deleted) {
        sheets.push(CssChange { path: path.to_owned(), deleted });
        proof {
            assert(sheets.deep_view() =~= before.push((path@, deleted)));
        }
    }
}

/// The style sheets to remark on, each once.
fn sheets_to_remark(
    changes: &Vec<CssChange>,
    class_map: &ClassMap,
    hints: &Table<Vec<Diagnostic>>,
) -> (r: Vec<CssChange>)
    ensures
        r.deep_view() == remarked_sheets(changes.deep_view(), class_map@, hints@),
{
    let mut r: Vec<CssChange> = Vec::new();
    let n: usize = changes.len();
    let ghost all = changes.deep_view();
    let mut i: usize = 0;
    proof {
        assert(all.take(0) =~= seq![]);
        assert(r.deep_view() =~= seq![]);
    }
    while i < n
        invariant
            i <= n,
            n == changes@.len(),
            all == changes.deep_view(),
            r.deep_view() == first_occurrences(all.take(i as int)),
        decreases n - i,
    {
        proof {
            assert(all[i as int] == changes@[i as int].deep_view());
            assert(all.take(i as int).push(all[i as int]) =~= all.take(i + 1));
        }
        add_sheet(
            &mut r,
            changes[i].path.as_str(),
            changes[i].deleted,
            Ghost(all.take(i as int)),
        );
        i = i + 1;
    }
    let files = css_files(class_map);
    let m: usize = files.len();
    let ghost paths = texts(files@);
    let ghost f = hinted_sheet(hints@);
    let mut k: usize = 0;
    proof {
        assert(all.take(n as int) =~= all);
        assert(paths.take(0) =~= seq![]);
        assert(all + collect(paths.take(0), f) =~= all);
    }
    while k < m
        invariant
            k <= m,
            m == files@.len(),
            paths == texts(files@),
            f == hinted_sheet(hints@),
            r.deep_view() == first_occurrences(all + collect(paths.take(k as int), f)),
        decreases m - k,
    {
        let path = files[k].as_str();
        let ghost found = collect(paths.take(k as int), f);
        proof {
            lemma_collect_step(paths, k as int, f);
            assert(paths[k as int] == path@);
            assert((all + found).push((path@, false)) =~= all + found.push((path@, false)));
        }
        if let Some(uri) = uri_of_file(path) {
            if hints.contains(uri.as_str()) {
                add_sheet(&mut r, path, false, Ghost(all + found));
            }
        }
        k = k + 1;
    }
    proof {
        assert(paths.take(m as int) =~= paths);
    }
    r
}

/// Adds the remarks on style sheets to what is sent.
fn join_sheets(out: &mut Table<Vec<Diagnostic>>, sheets: &Vec<CssChange>, class_map: &ClassMap)
    ensures
        final(out)@ == join_lists(
            old(out)@,
            collect(sheets.deep_view(), sheet_remarks(class_map@)),
        ),
{
    let n: usize = sheets.len();
    let ghost start = out@;
    let ghost all = sheets.deep_view();
    let ghost f = sheet_remarks(class_map@);
    let mut i: usize = 0;
    proof {
        assert(all.take(0) =~= seq![]);
    }
    while i < n
        invariant
            i <= n,
            n == sheets@.len(),
            all == sheets.deep_view(),
            f == sheet_remarks(class_map@),
            out@ == join_lists(start, collect(all.take(i as int), f)),
        decreases n - i,
    {
        let sheet = &sheets[i];
        let ghost before = collect(all.take(i as int), f);
        proof {
            lemma_collect_step(all, i as int, f);
            assert(all[i as int] == sheet.deep_view());
        }
        if let Some(uri) = uri_of_file(sheet.path.as_str()) {
            let diagnostics: Vec<Diagnostic> = if sheet.deleted {
                Vec::new()
            } else {
                diagnostics_for_css_duplicates(class_map, sheet.path.as_str())
            };
            let ghost entry = (uri@, diagnostics.deep_view());
            out.extend(uri, diagnostics);
            proof {
                if sheet.deleted {
                    assert(entry.1 =~= seq![]);
                }
                assert(f(all[i as int]) == Some(entry));
                assert(before.push(entry).drop_last() =~= before);
            }
        }
        i = i + 1;
    }
    proof {
        assert(all.take(n as int) =~= all);
    }
}

/// Adds the remarks of a table to what is sent.
fn join_table(out: &mut Table<Vec<Diagnostic>>, table: Table<Vec<Diagnostic>>)
    ensures
        final(out)@ == join_lists(old(out)@, table@),
{
    let ghost start = out@;
    let ghost all = table@;
    let mut rest = rows_in_reverse(table);
    let n: usize = rest.len();
    let mut i: usize = 0;
    proof {
        assert(rest.deep_view().len() == n);
        assert(all.take(0) =~= seq![]);
        assert(rest.deep_view() =~= all.reverse().take(n as int));
    }
    while i < n
        invariant
            i <= n,
            n == all.len(),
            rest.deep_view() == all.reverse().take(n - i),
            out@ == join_lists(start, all.take(i as int)),
        decreases n - i,
    {
        let ghost before = rest.deep_view();
        proof {
            assert(rest@.len() == before.len());
        }
        let last = rest.pop();
        if let Some(row) = last {
            proof {
                assert(row.deep_view() == before.last());
                assert(before.last() == all[i as int]);
                assert(all.take(i + 1).drop_last() =~= all.take(i as int));
                assert(all.take(i + 1).last() == all[i as int]);
            }
            out.extend(row.name, row.value);
            proof {
                assert(rest.deep_view() =~= all.reverse().take(n - (i + 1)));
            }
        }
        i = i + 1;
    }
    proof {
        assert(all.take(n as int) =~= all);
    }
}

/// The rows of a table, the last one first.
fn rows_in_reverse(table: Table<Vec<Diagnostic>>) -> (r: Vec<Row<Vec<Diagnostic>>>)
    ensures
        r.deep_view() == table@.reverse(),
{
    let ghost all = table@;
    let mut rows = table.into_rows();
    let n: usize = rows.len();
    let mut r: Vec<Row<Vec<Diagnostic>>> = Vec::new();
    let mut i: usize = 0;
    proof {
        assert(rows.deep_view() =~= all.take(n as int));
        assert(r.deep_view() =~= all.reverse().take(0));
    }
    while i < n
        invariant
            i <= n,
            n == all.len(),
            rows.deep_view() == all.take(n - i),
            r.deep_view() == all.reverse().take(i as int),
        decreases n - i,
    {
        let ghost before = rows.deep_view();
        let ghost done = r.deep_view();
        proof {
            assert(rows@.len() == before.len());
        }
        let last = rows.pop();
        if let Some(row) = last {
            proof {
                assert(row.deep_view() == before.last());
            }
            r.push(row);
            proof {
                assert(r.deep_view() =~= done.push(row.deep_view()));
                assert(rows.deep_view() =~= all.take(n - (i + 1)));
                assert(r.deep_view() =~= all.reverse().take(i + 1));
            }
        }
        i = i + 1;
    }
    proof {
        assert(r.deep_view() =~= all.reverse());
    }
    r
}

/// The rows of a table of remarks as they are sent.
pub open spec fn rows_sent(rows: Seq<(Seq<char>, Seq<DiagnosticView>)>) -> Seq<PublishedView> {
    rows.map_values(
        |row: (Seq<char>, Seq<DiagnosticView>)|
            PublishedView { uri: row.0, diagnostics: row.1 },
    )
}

/// The hints at unused names, address by address; none if no HTML document is open.
pub open spec fn unused_rows(
    rows: ClassRows,
    documents: Seq<(Seq<char>, Seq<char>)>,
    in_scripts: Seq<Seq<char>>,
) -> Seq<(Seq<char>, Seq<DiagnosticView>)> {
    if html_open(documents) {
        append_all(
            seq![],
            unused_upto(rows, open_keys(documents) + in_scripts, rows.len() as int),
        )
    } else {
        seq![]
    }
}

/// The remarks on a document, if it is an HTML document.
pub open spec fn document_remarks(rows: ClassRows) -> spec_fn((Seq<char>, Seq<char>)) -> Option<
    (Seq<char>, Seq<DiagnosticView>),
> {
    |document: (Seq<char>, Seq<char>)|
        if is_html(uri_path(document.0)) {
            Some((document.0, html_remarks(document.1, rows)))
        } else {
            None
        }
}

/// All lists of remarks when style sheets have changed: the names that each style sheet defines
/// twice, the hints at unused names, and the remarks on the open HTML documents.
pub open spec fn remark_lists(
    changes: Seq<(Seq<char>, bool)>,
    rows: ClassRows,
    documents: Seq<(Seq<char>, Seq<char>)>,
    in_scripts: Seq<Seq<char>>,
) -> Seq<(Seq<char>, Seq<DiagnosticView>)> {
    let hinted = unused_rows(rows, documents, in_scripts);
    collect(remarked_sheets(changes, rows, hinted), sheet_remarks(rows)) + hinted + collect(
        documents,
        document_remarks(rows),
    )
}

/// All that is sent when style sheets have changed: one message for each address, with all remarks
/// on it.
pub open spec fn remarks_for(
    changes: Seq<(Seq<char>, bool)>,
    rows: ClassRows,
    documents: Seq<(Seq<char>, Seq<char>)>,
    in_scripts: Seq<Seq<char>>,
) -> Seq<PublishedView> {
    rows_sent(join_lists(seq![], remark_lists(changes, rows, documents, in_scripts)))
}

/// The rows of a table of remarks as they are sent.
pub fn publish_rows(table: Table<Vec<Diagnostic>>) -> (r: Vec<Published>)
    ensures
        r.deep_view() == rows_sent(table@),
{
    let ghost all = table@;
    let mut rest = rows_in_reverse(table);
    let n: usize = rest.len();
    let mut r: Vec<Published> = Vec::new();
    let mut i: usize = 0;
    proof {
        assert(rest.deep_view().len() == n);
        assert(rest.deep_view() =~= all.reverse().take(n as int));
        assert(r.deep_view() =~= rows_sent(all).take(0));
    }
    while i < n
        invariant
            i <= n,
            n == all.len(),
            rest.deep_view() == all.reverse().take(n - i),
            r.deep_view() == rows_sent(all).take(i as int),
        decreases n - i,
    {
        let ghost before = rest.deep_view();
        let ghost done = r.deep_view();
        proof {
            assert(rest@.len() == before.len());
        }
        let last = rest.pop();
        if let Some(row) = last {
            proof {
                assert(row.deep_view() == before.last());
                assert(before.last() == all[i as int]);
            }
            let p = Published { uri: row.name, diagnostics: row.value };
            r.push(p);
            proof {
                assert(r.deep_view() =~= done.push(p.deep_view()));
                assert(rest.deep_view() =~= all.reverse().take(n - (i + 1)));
                assert(r.deep_view() =~= rows_sent(all).take(i + 1));
            }
        }
        i = i + 1;
    }
    proof {
        assert(r.deep_view() =~= rows_sent(all));
    }
    r
}

/// Reads a style sheet during a walk: its rules are filed, and what it imports is to be looked at
/// next. Nothing happens if a string inside a block is not closed.
pub fn read_style_sheet(
    patterns: &Patterns,
    path: &str,
    content: &str,
    class_map: &mut ClassMap,
    crawl: &mut Crawl,
) -> (r: bool)
    ensures
        r == (css_rules(content@, 0) is Some),
        only_names(old(class_map)@) ==> only_names(final(class_map)@),
        r ==> final(class_map)@ == add_definitions(
            old(class_map)@,
            css_definitions(content@, 0, source_name(path@), path@),
        ),
        r ==> final(class_map).rules() == old(class_map).rules() + css_rule_infos(
            content@,
            0,
            source_name(path@),
            path@,
        ),
        r ==> final(crawl).pending() == old(crawl).pending() + import_paths(
            path@,
            imports(content@),
        ).reverse(),
        !r ==> *final(class_map) == *old(class_map) && final(crawl).pending() == old(
            crawl,
        ).pending(),
        final(crawl).visited() == old(crawl).visited(),
{
    if !blocks_closed(content) {
        return false;
    }
    let name = source_name_of(path);
    parse_css_content(patterns, content, 0, name.as_str(), path, class_map);
    crawl.follow(patterns, path, content);
    true
}

/// A document that is opened is found with its text, a document that is closed is not found, and
/// neither touches other documents.
pub proof fn law_documents_are_found_again(
    documents: Seq<(Seq<char>, Seq<char>)>,
    uri: Seq<char>,
    text: Seq<char>,
    other: Seq<char>,
)
    requires
        distinct_names(documents),
        other != uri,
    ensures
        lookup(put(documents, uri, text), uri) == Some(text),
        lookup(put(documents, uri, text), other) == lookup(documents, other),
        lookup(without(documents, uri), uri) is None,
        lookup(without(documents, uri), other) == lookup(documents, other),
        distinct_names(put(documents, uri, text)),
        distinct_names(without(documents, uri)),
{
    lemma_put(documents, uri, text);
    lemma_without(documents, uri);
}

/// When style sheets have changed, each address gets one message, with all remarks on it: the
/// messages have different addresses, and whatever list of remarks there is on an address, all of it
/// is in the message for that address.
pub proof fn law_one_message_per_address(
    changes: Seq<(Seq<char>, bool)>,
    rows: ClassRows,
    documents: Seq<(Seq<char>, Seq<char>)>,
    in_scripts: Seq<Seq<char>>,
    i: int,
)
    requires
        0 <= i < remark_lists(changes, rows, documents, in_scripts).len(),
    ensures
        ({
            let sent = remarks_for(changes, rows, documents, in_scripts);
            let (uri, list) = remark_lists(changes, rows, documents, in_scripts)[i];
            &&& forall|a: int, b: int|
                0 <= a < b < sent.len() ==> (#[trigger] sent[a]).uri != (#[trigger] sent[b]).uri
            &&& exists|m: int|
                0 <= m < sent.len() && (#[trigger] sent[m]).uri == uri && forall|d: DiagnosticView|
                    list.contains(d) ==> #[trigger] sent[m].diagnostics.contains(d)
        }),
{
    let none = Seq::<(Seq<char>, Seq<DiagnosticView>)>::empty();
    let lists = remark_lists(changes, rows, documents, in_scripts);
    let table = join_lists(none, lists);
    let sent = remarks_for(changes, rows, documents, in_scripts);
    let (uri, list) = lists[i];
    lemma_join_lists(none, lists, uri);
    assert forall|a: int, b: int| 0 <= a < b < sent.len() implies (#[trigger] sent[a]).uri != (
    #[trigger] sent[b]).uri by {
        assert(table[a].0 != table[b].0);
    }
    assert(has_name(lists, uri));
    lemma_row_of(table, uri);
    lemma_row_of(none, uri);
    let m = row_of(table, uri);
    assert(sent[m].uri == uri);
    assert forall|d: DiagnosticView| list.contains(d) implies #[trigger] sent[m].diagnostics.contains(
        d,
    ) by {
        lemma_list_is_joined(lists, i, d);
        assert(list_at(none, uri) + lists_for(lists, uri) =~= lists_for(lists, uri));
    }
}

/// When style sheets have changed, the remarks on every open HTML document are sent anew, and so are
/// the names that a changed style sheet defines twice.
pub proof fn law_open_documents_and_changed_sheets_are_remarked_on(
    changes: Seq<(Seq<char>, bool)>,
    rows: ClassRows,
    documents: Seq<(Seq<char>, Seq<char>)>,
    in_scripts: Seq<Seq<char>>,
)
    ensures
        forall|i: int|
            0 <= i < documents.len() && is_html(uri_path((#[trigger] documents[i]).0))
                ==> remark_lists(changes, rows, documents, in_scripts).contains(
                (documents[i].0, html_remarks(documents[i].1, rows)),
            ),
        forall|i: int|
            0 <= i < changes.len() && sheet_remarks(rows)(#[trigger] changes[i]) is Some
                ==> remark_lists(changes, rows, documents, in_scripts).contains(
                sheet_remarks(rows)(changes[i])->0,
            ),
{
    let hinted = unused_rows(rows, documents, in_scripts);
    let more = collect(known_files(rows), hinted_sheet(hinted));
    let sheets = remarked_sheets(changes, rows, hinted);
    let f = sheet_remarks(rows);
    let g = document_remarks(rows);
    let a = collect(sheets, f);
    let c = collect(documents, g);
    let all = remark_lists(changes, rows, documents, in_scripts);
    lemma_collect(sheets, f);
    lemma_collect(documents, g);
    assert forall|i: int|
        0 <= i < documents.len() && is_html(
            uri_path((#[trigger] documents[i]).0),
        ) implies all.contains((documents[i].0, html_remarks(documents[i].1, rows))) by {
        let entry = (documents[i].0, html_remarks(documents[i].1, rows));
        assert(g(documents[i]) == Some(entry));
        assert(c.contains(entry));
        let j = choose|j: int| 0 <= j < c.len() && c[j] == entry;
        assert(all[a.len() + hinted.len() + j] == entry);
    }
    assert forall|i: int|
        0 <= i < changes.len() && f(#[trigger] changes[i]) is Some implies all.contains(
        f(changes[i])->0,
    ) by {
        assert((changes + more)[i] == changes[i]);
        lemma_first_occurrences_within(changes + more, changes[i]);
        let k = choose|k: int| 0 <= k < sheets.len() && sheets[k] == changes[i];
        assert(f(sheets[k]) is Some);
        let entry = f(changes[i])->0;
        assert(a.contains(entry));
        let j = choose|j: int| 0 <= j < a.len() && a[j] == entry;
        assert(all[j] == entry);
    }
}

/// The current texts of a workspace hold, under each address that was walked, the current text of
/// that file, and nothing else.
proof fn lemma_current_texts(
    walked: Seq<(Seq<char>, Option<Seq<char>>)>,
    documents: Seq<(Seq<char>, Seq<char>)>,
    uri: Seq<char>,
)
    requires
        distinct_names(walked),
    ensures
        distinct_names(current_texts(walked, documents)),
        lookup(current_texts(walked, documents), uri) == (match lookup(walked, uri) {
            Some(on_disk) => current_text((uri, on_disk), documents),
            None => None,
        }),
    decreases walked.len(),
{
    if walked.len() > 0 {
        let head = walked.drop_last();
        let last = walked.last();
        assert forall|i: int, j: int| 0 <= i < j < head.len() implies (#[trigger] head[i]).0 != (
        #[trigger] head[j]).0 by {
            assert(walked[i] == head[i] && walked[j] == head[j]);
        }
        lemma_current_texts(head, documents, uri);
        lemma_current_texts(head, documents, last.0);
        let before = current_texts(head, documents);
        if current_text(last, documents) is Some {
            lemma_put(before, last.0, current_text(last, documents)->0);
        }
        lemma_lookup_last(walked, uri);
        lemma_lookup_last(walked, last.0);
    } else {
        lemma_row_of(walked, uri);
        lemma_row_of(current_texts(walked, documents), uri);
    }
}

/// A row behind others counts where none of them has the name.
proof fn lemma_lookup_last<T>(rows: Seq<(Seq<char>, T)>, name: Seq<char>)
    requires
        rows.len() > 0,
        distinct_names(rows),
    ensures
        lookup(rows, name) == (if name == rows.last().0 {
            Some(rows.last().1)
        } else {
            lookup(rows.drop_last(), name)
        }),
        lookup(rows.drop_last(), rows.last().0) is None,
{
    let head = rows.drop_last();
    let k = rows.len() - 1;
    lemma_row_of(head, rows.last().0);
    let e = row_of(head, rows.last().0);
    if e < head.len() {
        assert(rows[e] == head[e]);
        assert(rows[e].0 != rows[k].0);
    }
    if name == rows.last().0 {
        assert forall|j: int| 0 <= j < k implies (#[trigger] rows[j]).0 != name by {
            assert(rows[j].0 != rows[k].0);
        }
        lemma_row_of_is(rows, name, k);
    } else {
        lemma_row_of(head, name);
        let r = row_of(head, name);
        if r < head.len() {
            assert(rows[r] == head[r]);
            assert forall|j: int| 0 <= j < r implies (#[trigger] rows[j]).0 != name by {
                assert(rows[j] == head[j]);
            }
            lemma_row_of_is(rows, name, r);
        } else {
            assert forall|j: int| 0 <= j < rows.len() implies (#[trigger] rows[j]).0 != name by {
                if j < k {
                    assert(rows[j] == head[j]);
                }
            }
            lemma_row_of_is(rows, name, rows.len() as int);
        }
    }
}

/// The counts follow the editor: what is counted for a file of the workspace is its text in the
/// editor once it is opened or changed, and its text on disk once it is closed; for every other
/// file it stays what it was.
pub proof fn law_counts_follow_the_editor(
    walked: Seq<(Seq<char>, Option<Seq<char>>)>,
    documents: Seq<(Seq<char>, Seq<char>)>,
    uri: Seq<char>,
    text: Seq<char>,
    other: Seq<char>,
)
    requires
        distinct_names(walked),
        distinct_names(documents),
        lookup(walked, uri) is Some,
        other != uri,
    ensures
        ({
            let opened = current_texts(walked, put(documents, uri, text));
            let closed = current_texts(walked, without(documents, uri));
            &&& lookup(opened, uri) == Some(text)
            &&& lookup(closed, uri) == lookup(walked, uri)->0
            &&& lookup(opened, other) == lookup(current_texts(walked, documents), other)
            &&& lookup(closed, other) == lookup(current_texts(walked, documents), other)
        }),
{
    let opened = put(documents, uri, text);
    let closed = without(documents, uri);
    law_documents_are_found_again(documents, uri, text, other);
    lemma_current_texts(walked, opened, uri);
    lemma_current_texts(walked, closed, uri);
    lemma_current_texts(walked, opened, other);
    lemma_current_texts(walked, closed, other);
    lemma_current_texts(walked, documents, other);
}

/// Every name is counted as often as the current texts of the workspace use it.
pub proof fn law_counts_are_exact(
    walked: Seq<(Seq<char>, Option<Seq<char>>)>,
    documents: Seq<(Seq<char>, Seq<char>)>,
    key: Seq<char>,
)
    requires
        ({
            let files = current_texts(walked, documents);
            keys_upto(files, files.len() as int).len() <= usize::MAX
        }),
    ensures
        ({
            let files = current_texts(walked, documents);
            count_of(usage_of(walked, documents), key) == uses_of_key(
                files,
                key,
                files.len() as int,
            )
        }),
{
    let files = current_texts(walked, documents);
    law_tally_counts(keys_upto(files, files.len() as int), key);
    lemma_uses_add_up(files, key, files.len() as int);
}

/// How often the first `k` texts use a name.
pub open spec fn uses_of_key(files: Seq<(Seq<char>, Seq<char>)>, key: Seq<char>, k: int) -> nat
    decreases k,
{
    if k <= 0 {
        0
    } else {
        uses_of_key(files, key, k - 1) + occurrences(used_keys(html_refs(files[k - 1].1)), key)
    }
}

proof fn lemma_uses_add_up(files: Seq<(Seq<char>, Seq<char>)>, key: Seq<char>, k: int)
    ensures
        occurrences(keys_upto(files, k), key) == uses_of_key(files, key, k),
    decreases k,
{
    if k > 0 {
        lemma_uses_add_up(files, key, k - 1);
        lemma_occurrences_concat(
            keys_upto(files, k - 1),
            used_keys(html_refs(files[k - 1].1)),
            key,
        );
    }
}

proof fn lemma_occurrences_concat(a: Seq<Seq<char>>, b: Seq<Seq<char>>, key: Seq<char>)
    ensures
        occurrences(a + b, key) == occurrences(a, key) + occurrences(b, key),
    decreases b.len(),
{
    if b.len() == 0 {
        assert(a + b =~= a);
    } else {
        lemma_occurrences_concat(a, b.drop_last(), key);
        assert((a + b).drop_last() =~= a + b.drop_last());
    }
}

} // verus!
