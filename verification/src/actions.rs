//! Quick fixes: creating a missing rule and removing an unused one.

use crate::collect::{
    collect, first_occurrences, lemma_collect, lemma_collect_step, lemma_first_occurrences_push,
    lemma_first_occurrences_within,
};
use crate::css::{
    advance_past_block, block_end, css_rules, is_filed_name, law_comments_keep_line_numbers,
    law_comments_keep_positions, lemma_block_end, strip_comments, without_comments, RuleView,
};
use crate::cursor::{is_valid_css_ident, valid_css_ident};
use crate::diagnostics::{unknown_message, unused_remark};
use crate::heads::{
    begin_of_line, find_heads, has_head, heads_from, is_head_of, is_span,
    law_every_rule_has_its_selector, lemma_heads, lemma_heads_open, lemma_line_begin, line_begin,
    position_in, position_of, spans,
};
use crate::html::RefView;
use crate::model::{
    definitions, opt_text, ClassInfo, ClassInfoView, ClassMap, ClassRows, DocumentMap,
};
use crate::naming::{is_named_throughout, names_throughout};
use crate::order::{law_one_order_of_texts, sort, sorted_texts};
use crate::paths::{
    file_name_of, file_to_uri, parent_of, path_file_name, path_parent, paths_equal, same_path,
    uri_of_file,
};
use crate::pattern::{is_name_char, is_name_start};
use crate::protocol::{
    range_on_line, Diagnostic, DiagnosticView, Position, Range, Severity, TextEdit, TextEditView,
    SOURCE,
};
use crate::symbols::{display_name, show_name};
use crate::table::lookup;
use crate::text::{
    chars_of, contains_sub, contains_text, count_newlines, ends_with, find_from, index_from,
    is_white, lemma_index_from, lemma_index_from_is, line_number, lines, newlines, occurs,
    same_text, skip_chars, split_lines, starts_with, string_of, texts, to_line, white,
};
use vstd::prelude::*;
use vstd::slice::slice_subrange;
use vstd::string::StringExecFns;

verus! {

/// The first text between single quotes in a message; none if it is empty.
pub open spec fn quoted(msg: Seq<char>) -> Option<Seq<char>> {
    let a = index_from(msg, '\'', 0);
    if a < msg.len() {
        let b = index_from(msg, '\'', a + 1);
        if a + 1 < b < msg.len() {
            Some(msg.subrange(a + 1, b))
        } else {
            None
        }
    } else {
        None
    }
}

/// The first text between single quotes in a message.
pub fn extract_quoted(msg: &str) -> (r: Option<String>)
    ensures
        opt_text(r) == quoted(msg@),
{
    let chars = chars_of(msg);
    let n: usize = chars.len();
    let a: usize = find_from(chars.as_slice(), '\'', 0);
    if a >= n {
        return None;
    }
    let b: usize = find_from(chars.as_slice(), '\'', a + 1);
    if b >= n || b <= a + 1 {
        return None;
    }
    Some(string_of(slice_subrange(chars.as_slice(), a + 1, b)))
}

/// An offer to change a file. It may answer one of the diagnostics it was asked with.
#[derive(Debug)]
pub struct CodeAction {
    pub title: String,
    pub diagnostic: Option<usize>,
    pub preferred: bool,
    pub uri: String,
    pub edit: TextEdit,
}

/// What a `CodeAction` says.
#[verifier::ext_equal]
pub ghost struct CodeActionView {
    pub title: Seq<char>,
    pub diagnostic: Option<usize>,
    pub preferred: bool,
    pub uri: Seq<char>,
    pub edit: TextEditView,
}

impl DeepView for CodeAction {
    type V = CodeActionView;

    open spec fn deep_view(&self) -> CodeActionView {
        CodeActionView {
            title: self.title@,
            diagnostic: self.diagnostic,
            preferred: self.preferred,
            uri: self.uri@,
            edit: self.edit.deep_view(),
        }
    }
}

/// Whether a diagnostic is one of this library's, of a given severity.
pub open spec fn is_ours(d: DiagnosticView, severity: Severity) -> bool {
    d.source == Some(SOURCE@) && d.severity == Some(severity)
}

/// Whether a diagnostic is one of this library's, of a given severity.
fn ours(d: &Diagnostic, severity: Severity) -> (r: bool)
    ensures
        r == is_ours(d.deep_view(), severity),
{
    match &d.source {
        Some(source) => match d.severity {
            Some(s) => s == severity && same_text(source.as_str(), SOURCE),
            None => false,
        },
        None => false,
    }
}

/// The name that a diagnostic calls unknown, and whether it is that of an identifier. Only a safe
/// identifier counts: the name is written into a file.
pub open spec fn missing_name(d: DiagnosticView) -> Option<(Seq<char>, bool)> {
    match quoted(d.message) {
        Some(name) => if is_ours(d, Severity::Error) && valid_css_ident(name) {
            Some((name, occurs(d.message, "Unknown CSS id"@)))
        } else {
            None
        },
        None => None,
    }
}

/// The name that a diagnostic calls unknown, and whether it is that of an identifier.
pub fn find_missing_name(d: &Diagnostic) -> (r: Option<(String, bool)>)
    ensures
        r is Some == (missing_name(d.deep_view()) is Some),
        r is Some ==> ((r->0).0@, (r->0).1) == missing_name(d.deep_view())->0,
{
    if !ours(d, Severity::Error) {
        return None;
    }
    match extract_quoted(d.message.as_str()) {
        Some(name) => if is_valid_css_ident(name.as_str()) {
            let is_id = contains_sub(d.message.as_str(), "Unknown CSS id");
            Some((name, is_id))
        } else {
            None
        },
        None => None,
    }
}

/// The style sheet that a new rule goes to.
#[derive(Debug)]
pub struct CssTarget {
    pub uri: String,
    pub file_name: String,
    pub content: String,
}

/// What a `CssTarget` says.
#[verifier::ext_equal]
pub ghost struct CssTargetView {
    pub uri: Seq<char>,
    pub file_name: Seq<char>,
    pub content: Seq<char>,
}

impl DeepView for CssTarget {
    type V = CssTargetView;

    open spec fn deep_view(&self) -> CssTargetView {
        CssTargetView { uri: self.uri@, file_name: self.file_name@, content: self.content@ }
    }
}

/// How a file is called.
pub open spec fn shown_file_name(path: Seq<char>) -> Seq<char> {
    match path_file_name(path) {
        Some(name) => name,
        None => "CSS file"@,
    }
}

/// How a file is called.
fn show_file_name(path: &str) -> (r: String)
    ensures
        r@ == shown_file_name(path@),
{
    match file_name_of(path) {
        Some(name) => name,
        None => "CSS file".to_owned(),
    }
}

/// The style sheet at a path as the place for a new rule; none if it has no address. A file that
/// cannot be read counts as empty.
pub open spec fn target_at(path: Seq<char>, content: Option<Seq<char>>) -> Option<CssTargetView> {
    match file_to_uri(path) {
        Some(uri) => Some(
            CssTargetView {
                uri,
                file_name: shown_file_name(path),
                content: match content {
                    Some(c) => c,
                    None => seq![],
                },
            },
        ),
        None => None,
    }
}

/// The style sheet at a path as the place for a new rule.
pub fn css_target(path: &str, content: Option<String>) -> (r: Option<CssTarget>)
    ensures
        r is Some == (target_at(path@, opt_text(content)) is Some),
        r is Some ==> (r->0).deep_view() == target_at(path@, opt_text(content))->0,
{
    match uri_of_file(path) {
        Some(uri) => {
            let content = match content {
                Some(c) => c,
                None => String::new(),
            };
            Some(CssTarget { uri, file_name: show_file_name(path), content })
        },
        None => None,
    }
}

/// The mark of a class or an identifier.
pub open spec fn mark(is_id: bool) -> Seq<char> {
    if is_id {
        "#"@
    } else {
        "."@
    }
}

/// The offer to append an empty rule for a missing name to a style sheet.
pub open spec fn creation(
    name: Seq<char>,
    is_id: bool,
    target: CssTargetView,
    diagnostic: usize,
) -> CodeActionView {
    let start = Position { line: lines(target.content).len() as u32, character: 0 };
    CodeActionView {
        title: "Create CSS "@ + (if is_id {
            "id "@
        } else {
            "class "@
        }) + mark(is_id) + name + " in "@ + target.file_name,
        diagnostic: Some(diagnostic),
        preferred: true,
        uri: target.uri,
        edit: TextEditView {
            range: Range { start, end: start },
            new_text: (if "\n"@.is_suffix_of(target.content) {
                ""@
            } else {
                "\n"@
            }) + mark(is_id) + name + " {\n  \n}\n"@,
        },
    }
}

/// The offer to append an empty rule for a missing name to a style sheet.
pub fn create_rule(name: &str, is_id: bool, target: &CssTarget, diagnostic: usize) -> (r: CodeAction)
    ensures
        r.deep_view() == creation(name@, is_id, target.deep_view(), diagnostic),
{
    let all = split_lines(target.content.as_str());
    proof {
        assert(texts(all@).len() == all@.len());
    }
    let line: u32 = all.len() as u32;
    let mark = if is_id {
        "#"
    } else {
        "."
    };
    let mut title = "Create CSS ".to_owned();
    title.append(
        if is_id {
            "id "
        } else {
            "class "
        },
    );
    title.append(mark);
    title.append(name);
    title.append(" in ");
    title.append(target.file_name.as_str());
    let mut new_text = if ends_with(target.content.as_str(), "\n") {
        "".to_owned()
    } else {
        "\n".to_owned()
    };
    new_text.append(mark);
    new_text.append(name);
    new_text.append(" {\n  \n}\n");
    CodeAction {
        title,
        diagnostic: Some(diagnostic),
        preferred: true,
        uri: target.uri.clone(),
        edit: TextEdit { range: range_on_line(line, 0, 0), new_text },
    }
}

/// The offers for the first `k` diagnostics: one for each that calls a name unknown.
pub open spec fn creations_upto(
    diags: Seq<DiagnosticView>,
    target: CssTargetView,
    k: int,
) -> Seq<CodeActionView>
    decreases k,
{
    if k <= 0 {
        seq![]
    } else {
        match missing_name(diags[k - 1]) {
            Some(missing) => creations_upto(diags, target, k - 1).push(
                creation(missing.0, missing.1, target, (k - 1) as usize),
            ),
            None => creations_upto(diags, target, k - 1),
        }
    }
}

/// The offers to create rules for the names that diagnostics call unknown; none without a style
/// sheet to write to.
pub open spec fn creations(diags: Seq<DiagnosticView>, target: Option<CssTargetView>) -> Seq<
    CodeActionView,
> {
    match target {
        Some(t) => creations_upto(diags, t, diags.len() as int),
        None => seq![],
    }
}

/// What an optional target says.
pub open spec fn opt_target(target: Option<CssTarget>) -> Option<CssTargetView> {
    match target {
        Some(t) => Some(t.deep_view()),
        None => None,
    }
}

/// The offers to create rules for the names that diagnostics call unknown.
pub fn create_actions(diags: &Vec<Diagnostic>, target: &Option<CssTarget>) -> (r: Vec<CodeAction>)
    ensures
        r.deep_view() == creations(diags.deep_view(), opt_target(*target)),
{
    let mut actions: Vec<CodeAction> = Vec::new();
    proof {
        assert(actions.deep_view() =~= seq![]);
    }
    let target = match target {
        Some(t) => t,
        None => {
            return actions;
        },
    };
    let n: usize = diags.len();
    let ghost all = diags.deep_view();
    let mut k: usize = 0;
    while k < n
        invariant
            k <= n,
            n == diags@.len(),
            all == diags.deep_view(),
            actions.deep_view() == creations_upto(all, target.deep_view(), k as int),
        decreases n - k,
    {
        let ghost before = actions.deep_view();
        proof {
            assert(all[k as int] == diags@[k as int].deep_view());
        }
        if let Some((name, is_id)) = find_missing_name(&diags[k]) {
            let action = create_rule(name.as_str(), is_id, target, k);
            actions.push(action);
            proof {
                assert(actions.deep_view() =~= before.push(action.deep_view()));
            }
        }
        k = k + 1;
    }
    actions
}

/// The filed name of a selector as it is displayed: a class without its dot.
pub open spec fn filed_name(display: Seq<char>) -> Seq<char> {
    if "."@.is_prefix_of(display) {
        display.skip(1)
    } else {
        display
    }
}

/// The filed name of a selector as it is displayed.
fn file_name_for(display: String) -> (r: String)
    ensures
        r@ == filed_name(display@),
{
    if starts_with(display.as_str(), ".") {
        proof {
            reveal_strlit(".");
        }
        skip_chars(display.as_str(), 1)
    } else {
        display
    }
}

/// The name that a diagnostic calls unused.
pub open spec fn unused_name() -> spec_fn(DiagnosticView) -> Option<Seq<char>> {
    |d: DiagnosticView|
        match quoted(d.message) {
            Some(display) => if is_ours(d, Severity::Hint) {
                Some(filed_name(display))
            } else {
                None
            },
            None => None,
        }
}

/// The line of a diagnostic that calls a name unused.
pub open spec fn unused_line() -> spec_fn(DiagnosticView) -> Option<u32> {
    |d: DiagnosticView|
        if is_ours(d, Severity::Hint) {
            Some(d.range.start.line)
        } else {
            None
        }
}

/// The names that diagnostics call unused.
pub open spec fn unused_names(diags: Seq<DiagnosticView>) -> Seq<Seq<char>> {
    first_occurrences(collect(diags, unused_name()))
}

/// The lines of the diagnostics that call a name unused.
pub open spec fn unused_lines(diags: Seq<DiagnosticView>) -> Seq<u32> {
    collect(diags, unused_line())
}

/// The names that diagnostics call unused, and the lines of those diagnostics.
pub fn read_hints(diags: &Vec<Diagnostic>) -> (r: (Vec<String>, Vec<u32>))
    ensures
        texts(r.0@) == unused_names(diags.deep_view()),
        r.1@ == unused_lines(diags.deep_view()),
{
    let n: usize = diags.len();
    let ghost all = diags.deep_view();
    let ghost f = unused_name();
    let ghost g = unused_line();
    let mut names: Vec<String> = Vec::new();
    let mut hinted: Vec<u32> = Vec::new();
    let mut i: usize = 0;
    proof {
        assert(all.take(0) =~= seq![]);
        assert(texts(names@) =~= seq![]);
        assert(hinted@ =~= seq![]);
    }
    while i < n
        invariant
            i <= n,
            n == diags@.len(),
            all == diags.deep_view(),
            f == unused_name(),
            g == unused_line(),
            texts(names@) == first_occurrences(collect(all.take(i as int), f)),
            hinted@ == collect(all.take(i as int), g),
        decreases n - i,
    {
        let d = &diags[i];
        proof {
            lemma_collect_step(all, i as int, f);
            lemma_collect_step(all, i as int, g);
            assert(all[i as int] == d.deep_view());
        }
        if ours(d, Severity::Hint) {
            hinted.push(d.range.start.line);
            if let Some(display) = extract_quoted(d.message.as_str()) {
                let name = file_name_for(display);
                let ghost list = collect(all.take(i as int), f);
                let ghost before = texts(names@);
                proof {
                    assert(f(all[i as int]) == Some(name@));
                    lemma_first_occurrences_push(list, name@);
                }
                if !contains_text(&names, name.as_str()) {
                    names.push(name);
                    proof {
                        assert(texts(names@) =~= before.push(name@));
                    }
                }
            }
        }
        i = i + 1;
    }
    proof {
        assert(all.take(n as int) =~= all);
    }
    (names, hinted)
}

/// A block of a style sheet: its file, its line and its selector.
#[verifier::ext_equal]
pub ghost struct BlockKey {
    pub path: Seq<char>,
    pub line: u32,
    pub selector: Seq<char>,
}

/// The block that a definition stands in.
pub open spec fn block_of(info: ClassInfoView) -> BlockKey {
    BlockKey { path: info.source_path, line: info.definition_line, selector: info.selector }
}

/// The block of a definition, if its line is one of those given.
pub open spec fn block_on(hinted: Seq<u32>) -> spec_fn(ClassInfoView) -> Option<BlockKey> {
    |info: ClassInfoView|
        if hinted.contains(info.definition_line) {
            Some(block_of(info))
        } else {
            None
        }
}

/// The blocks of the definitions of the first `k` names.
pub open spec fn blocks_upto(
    names: Seq<Seq<char>>,
    rows: ClassRows,
    hinted: Seq<u32>,
    k: int,
) -> Seq<BlockKey>
    decreases k,
{
    if k <= 0 {
        seq![]
    } else {
        blocks_upto(names, rows, hinted, k - 1) + collect(
            definitions(rows, names[k - 1]),
            block_on(hinted),
        )
    }
}

/// Whether one of several definitions makes a block.
pub open spec fn makes_block(infos: Seq<ClassInfoView>, block: BlockKey) -> bool {
    exists|i: int| 0 <= i < infos.len() && block_of(#[trigger] infos[i]) == block
}

/// Whether every name that a block defines is one of those given.
pub open spec fn all_among(rows: ClassRows, names: Seq<Seq<char>>, block: BlockKey) -> bool {
    forall|i: int|
        0 <= i < rows.len() && makes_block((#[trigger] rows[i]).1, block) ==> names.contains(
            rows[i].0,
        )
}

/// A name as it is displayed, if one of its definitions makes the block.
pub open spec fn selector_of_block(rows: ClassRows, block: BlockKey) -> spec_fn(
    Seq<char>,
) -> Option<Seq<char>> {
    |name: Seq<char>|
        if makes_block(definitions(rows, name), block) {
            Some(display_name(name))
        } else {
            None
        }
}

/// A block that can be removed: its file, its line, its selector as it stands there, and the unused
/// names in it as they are displayed.
#[derive(Debug)]
pub struct UnusedBlock {
    pub path: String,
    pub line: u32,
    pub selector: String,
    pub selectors: Vec<String>,
}

/// What an `UnusedBlock` says.
#[verifier::ext_equal]
pub ghost struct UnusedBlockView {
    pub path: Seq<char>,
    pub line: u32,
    pub selector: Seq<char>,
    pub selectors: Seq<Seq<char>>,
}

impl DeepView for UnusedBlock {
    type V = UnusedBlockView;

    open spec fn deep_view(&self) -> UnusedBlockView {
        UnusedBlockView {
            path: self.path@,
            line: self.line,
            selector: self.selector@,
            selectors: texts(self.selectors@),
        }
    }
}

/// A block, if every name that it defines is unused and every selector of its list names one.
pub open spec fn removable(names: Seq<Seq<char>>, rows: ClassRows) -> spec_fn(BlockKey) -> Option<
    UnusedBlockView,
> {
    |block: BlockKey|
        if all_among(rows, names, block) && names_throughout(block.selector) {
            Some(
                UnusedBlockView {
                    path: block.path,
                    line: block.line,
                    selector: block.selector,
                    selectors: sorted_texts(collect(names, selector_of_block(rows, block))),
                },
            )
        } else {
            None
        }
}

/// The blocks that can be removed: those on the lines of the diagnostics that call a name unused,
/// where every name that the block defines is called unused and every selector of its list names
/// one.
pub open spec fn removable_blocks(diags: Seq<DiagnosticView>, rows: ClassRows) -> Seq<
    UnusedBlockView,
> {
    let names = unused_names(diags);
    collect(
        first_occurrences(blocks_upto(names, rows, unused_lines(diags), names.len() as int)),
        removable(names, rows),
    )
}

/// A block of a style sheet: its file, its line and its selector.
struct Block {
    path: String,
    line: u32,
    selector: String,
}

impl DeepView for Block {
    type V = BlockKey;

    closed spec fn deep_view(&self) -> BlockKey {
        BlockKey { path: self.path@, line: self.line, selector: self.selector@ }
    }
}

/// Whether a definition stands in a block.
fn stands_in_block(info: &ClassInfo, block: &Block) -> (r: bool)
    ensures
        r == (block_of(info.deep_view()) == block.deep_view()),
{
    info.definition_line == block.line && same_text(
        info.source_path.as_str(),
        block.path.as_str(),
    ) && same_text(info.selector.as_str(), block.selector.as_str())
}

/// Whether one of several definitions makes a block.
fn any_makes_block(infos: &Vec<ClassInfo>, block: &Block) -> (r: bool)
    ensures
        r == makes_block(infos.deep_view(), block.deep_view()),
{
    let n: usize = infos.len();
    let ghost all = infos.deep_view();
    let mut i: usize = 0;
    while i < n
        invariant
            i <= n,
            n == infos@.len(),
            all == infos.deep_view(),
            forall|j: int| 0 <= j < i ==> block_of(#[trigger] all[j]) != block.deep_view(),
        decreases n - i,
    {
        proof {
            assert(all[i as int] == infos@[i as int].deep_view());
        }
        if stands_in_block(&infos[i], block) {
            return true;
        }
        i = i + 1;
    }
    false
}

/// Whether every name that a block defines is one of those given.
fn are_all_among(class_map: &ClassMap, names: &Vec<String>, block: &Block) -> (r: bool)
    ensures
        r == all_among(class_map@, texts(names@), block.deep_view()),
{
    let n: usize = class_map.len();
    let mut i: usize = 0;
    while i < n
        invariant
            i <= n,
            n == class_map@.len(),
            forall|j: int|
                0 <= j < i && makes_block((#[trigger] class_map@[j]).1, block.deep_view())
                    ==> texts(names@).contains(class_map@[j].0),
        decreases n - i,
    {
        if any_makes_block(class_map.value_at(i), block) && !contains_text(
            names,
            class_map.name_at(i).as_str(),
        ) {
            return false;
        }
        i = i + 1;
    }
    true
}

/// The displayed names that a block defines, in order.
fn selectors_of_block(class_map: &ClassMap, names: &Vec<String>, block: &Block) -> (r: Vec<String>)
    ensures
        texts(r@) == sorted_texts(
            collect(texts(names@), selector_of_block(class_map@, block.deep_view())),
        ),
{
    let n: usize = names.len();
    let ghost all = texts(names@);
    let ghost f = selector_of_block(class_map@, block.deep_view());
    let mut found: Vec<String> = Vec::new();
    let mut i: usize = 0;
    proof {
        assert(all.take(0) =~= seq![]);
        assert(texts(found@) =~= seq![]);
    }
    while i < n
        invariant
            i <= n,
            n == names@.len(),
            all == texts(names@),
            f == selector_of_block(class_map@, block.deep_view()),
            texts(found@) == collect(all.take(i as int), f),
        decreases n - i,
    {
        let name = names[i].as_str();
        let ghost before = texts(found@);
        proof {
            lemma_collect_step(all, i as int, f);
            assert(all[i as int] == name@);
        }
        let makes = match class_map.get(name) {
            Some(infos) => {
                proof {
                    assert(infos.deep_view() == definitions(class_map@, name@));
                }
                any_makes_block(infos, block)
            },
            None => false,
        };
        if makes {
            let display = show_name(name);
            found.push(display);
            proof {
                assert(f(name@) == Some(display@));
                assert(texts(found@) =~= before.push(display@));
            }
        }
        i = i + 1;
    }
    proof {
        assert(all.take(n as int) =~= all);
        assert(texts(found@) =~= found.deep_view());
    }
    let r = sort(found);
    proof {
        assert(texts(r@) =~= r.deep_view());
        law_one_order_of_texts(collect(all, f), r.deep_view());
    }
    r
}

/// Whether a line is one of those given.
fn contains_line(hinted: &Vec<u32>, line: u32) -> (r: bool)
    ensures
        r == hinted@.contains(line),
{
    let n: usize = hinted.len();
    let mut i: usize = 0;
    while i < n
        invariant
            i <= n,
            n == hinted@.len(),
            forall|j: int| 0 <= j < i ==> hinted@[j] != line,
        decreases n - i,
    {
        if hinted[i] == line {
            return true;
        }
        i = i + 1;
    }
    false
}

/// Whether a definition stands in one of the blocks of a list.
fn contains_block(v: &Vec<Block>, info: &ClassInfo) -> (r: bool)
    ensures
        r == v.deep_view().contains(block_of(info.deep_view())),
{
    let n: usize = v.len();
    let ghost all = v.deep_view();
    let mut i: usize = 0;
    while i < n
        invariant
            i <= n,
            n == v@.len(),
            all == v.deep_view(),
            forall|j: int| 0 <= j < i ==> #[trigger] all[j] != block_of(info.deep_view()),
        decreases n - i,
    {
        proof {
            assert(all[i as int] == v@[i as int].deep_view());
        }
        if stands_in_block(info, &v[i]) {
            return true;
        }
        i = i + 1;
    }
    false
}

/// Adds the blocks of the definitions of one name that stand on one of the given lines.
fn add_blocks(
    infos: &Vec<ClassInfo>,
    hinted: &Vec<u32>,
    found: Ghost<Seq<BlockKey>>,
    blocks: &mut Vec<Block>,
)
    requires
        old(blocks).deep_view() == first_occurrences(found@),
    ensures
        final(blocks).deep_view() == first_occurrences(
            found@ + collect(infos.deep_view(), block_on(hinted@)),
        ),
{
    let n: usize = infos.len();
    let ghost all = infos.deep_view();
    let ghost f = block_on(hinted@);
    let ghost start = found@;
    let mut i: usize = 0;
    proof {
        assert(all.take(0) =~= seq![]);
        assert(start + Seq::<BlockKey>::empty() =~= start);
    }
    while i < n
        invariant
            i <= n,
            n == infos@.len(),
            all == infos.deep_view(),
            f == block_on(hinted@),
            blocks.deep_view() == first_occurrences(start + collect(all.take(i as int), f)),
        decreases n - i,
    {
        let info = &infos[i];
        let ghost before = blocks.deep_view();
        proof {
            lemma_collect_step(all, i as int, f);
            assert(all[i as int] == info.deep_view());
        }
        if contains_line(hinted, info.definition_line) {
            let ghost entry = block_of(info.deep_view());
            proof {
                let list = start + collect(all.take(i as int), f);
                assert(start + collect(all.take(i as int), f).push(entry) =~= list.push(entry));
                lemma_first_occurrences_push(list, entry);
            }
            if !contains_block(blocks, info) {
                let block = Block {
                    path: info.source_path.clone(),
                    line: info.definition_line,
                    selector: info.selector.clone(),
                };
                blocks.push(block);
                proof {
                    assert(block.deep_view() == entry);
                    assert(blocks.deep_view() =~= before.push(entry));
                }
            }
        }
        i = i + 1;
    }
    proof {
        assert(all.take(n as int) =~= all);
    }
}

/// The blocks that can be removed.
pub fn unused_blocks(diags: &Vec<Diagnostic>, class_map: &ClassMap) -> (r: Vec<UnusedBlock>)
    ensures
        r.deep_view() == removable_blocks(diags.deep_view(), class_map@),
{
    let (names, hinted) = read_hints(diags);
    let n: usize = names.len();
    let mut blocks: Vec<Block> = Vec::new();
    let ghost keys = texts(names@);
    let mut k: usize = 0;
    proof {
        assert(blocks.deep_view() =~= seq![]);
    }
    while k < n
        invariant
            k <= n,
            n == names@.len(),
            keys == texts(names@),
            blocks.deep_view() == first_occurrences(
                blocks_upto(keys, class_map@, hinted@, k as int),
            ),
        decreases n - k,
    {
        let ghost found = blocks_upto(keys, class_map@, hinted@, k as int);
        match class_map.get(names[k].as_str()) {
            Some(infos) => {
                proof {
                    assert(infos.deep_view() == definitions(class_map@, keys[k as int]));
                }
                add_blocks(infos, &hinted, Ghost(found), &mut blocks);
            },
            None => {
                proof {
                    let none = collect(definitions(class_map@, keys[k as int]), block_on(hinted@));
                    assert(definitions(class_map@, keys[k as int]) =~= seq![]);
                    assert(found + none =~= found);
                }
            },
        }
        k = k + 1;
    }
    let m: usize = blocks.len();
    let ghost all = blocks.deep_view();
    let ghost f = removable(keys, class_map@);
    let mut r: Vec<UnusedBlock> = Vec::new();
    let mut i: usize = 0;
    proof {
        assert(all.take(0) =~= seq![]);
        assert(r.deep_view() =~= seq![]);
    }
    while i < m
        invariant
            i <= m,
            m == blocks@.len(),
            all == blocks.deep_view(),
            keys == texts(names@),
            f == removable(keys, class_map@),
            r.deep_view() == collect(all.take(i as int), f),
        decreases m - i,
    {
        let found = &blocks[i];
        let ghost before = r.deep_view();
        proof {
            lemma_collect_step(all, i as int, f);
            assert(all[i as int] == found.deep_view());
        }
        if are_all_among(class_map, &names, found) && is_named_throughout(found.selector.as_str()) {
            let block = UnusedBlock {
                path: found.path.clone(),
                line: found.line,
                selector: found.selector.clone(),
                selectors: selectors_of_block(class_map, &names, found),
            };
            r.push(block);
            proof {
                assert(f(all[i as int]) == Some(block.deep_view()));
                assert(r.deep_view() =~= before.push(block.deep_view()));
            }
        }
        i = i + 1;
    }
    proof {
        assert(all.take(m as int) =~= all);
    }
    r
}

/// Whether a selector stands at a place of a style sheet, on a line.
pub open spec fn is_rule_head(s: Seq<char>, line: u32, selector: Seq<char>, h: (int, int)) -> bool {
    line_number(newlines(s.take(h.0)) as int) == line && s.subrange(h.0, h.1) == selector
}

/// The first of several places, from `k` on, at which a selector stands on a line.
pub open spec fn first_head(
    s: Seq<char>,
    heads: Seq<(int, int)>,
    line: u32,
    selector: Seq<char>,
    k: int,
) -> Option<(int, int)>
    decreases heads.len() - k,
{
    if k >= heads.len() {
        None
    } else if is_rule_head(s, line, selector, heads[k]) {
        Some(heads[k])
    } else {
        first_head(s, heads, line, selector, k + 1)
    }
}

/// The first rule on a line with a selector, in a text without comments: from the selector to
/// behind the brace that closes the block. There is none if nothing closes it.
pub open spec fn rule_span(s: Seq<char>, line: u32, selector: Seq<char>) -> Option<(int, int)> {
    match first_head(s, heads_from(s, 0, 0), line, selector, 0) {
        Some(h) => match block_end(s, index_from(s, '{', h.1) + 1, 1) {
            Some(e) => if e < s.len() {
                Some((h.0, e + 1))
            } else {
                None
            },
            None => None,
        },
        None => None,
    }
}

/// Whether a text is all white space.
pub open spec fn is_blank(s: Seq<char>) -> bool {
    forall|i: int| 0 <= i < s.len() ==> is_white(#[trigger] s[i])
}

/// Where to end when the lines up to the line feed at `end` are removed: behind the line feed, so
/// that the next line moves up, or before the line break where no line follows.
pub open spec fn lines_end(content: Seq<char>, from: int, end: int) -> int {
    if end + 1 < content.len() {
        end + 1
    } else if from < end < content.len() && content[end - 1] == '\r' {
        end - 1
    } else {
        end
    }
}

/// What to remove with the rule between two places: its lines, if only white space stands on them
/// besides, or else the rule alone.
pub open spec fn removed_span(content: Seq<char>, from: int, to: int) -> (int, int) {
    let begin = line_begin(content, from);
    let end = index_from(content, '\n', to);
    if is_blank(content.subrange(begin, from)) && is_blank(content.subrange(to, end)) {
        (begin, lines_end(content, to, end))
    } else {
        (from, to)
    }
}

/// The stretch of a style sheet to remove with the rule on a line.
pub open spec fn removal_span(content: Seq<char>, line: u32, selector: Seq<char>) -> Option<
    (int, int),
> {
    match rule_span(without_comments(content), line, selector) {
        Some(rule) => Some(removed_span(content, rule.0, rule.1)),
        None => None,
    }
}

/// The edit that removes the rule on a line.
pub open spec fn removal_edit(content: Seq<char>, line: u32, selector: Seq<char>) -> Option<
    TextEditView,
> {
    match removal_span(content, line, selector) {
        Some(span) => Some(
            TextEditView {
                range: Range {
                    start: position_in(content, span.0),
                    end: position_in(content, span.1),
                },
                new_text: seq![],
            },
        ),
        None => None,
    }
}

/// The place of the rule on a line, and the brace that closes it.
fn find_rule(bare: &[char], line: u32, selector: &str) -> (r: Option<(usize, usize)>)
    ensures
        r is Some == (rule_span(bare@, line, selector@) is Some),
        r is Some ==> {
            &&& (r->0).0 == (rule_span(bare@, line, selector@)->0).0
            &&& (r->0).1 == (rule_span(bare@, line, selector@)->0).1
            &&& (r->0).0 < (r->0).1 <= bare@.len()
        },
{
    let heads = find_heads(bare);
    let m: usize = heads.len();
    let n: usize = bare.len();
    let ghost all = heads_from(bare@, 0, 0);
    let mut k: usize = 0;
    while k < m
        invariant
            k <= m,
            m == heads@.len(),
            n == bare@.len(),
            all == heads_from(bare@, 0, 0),
            all == spans(heads@),
            forall|j: int|
                0 <= j < heads@.len() ==> (#[trigger] heads@[j]).0 <= heads@[j].1 <= bare@.len(),
            first_head(bare@, all, line, selector@, 0) == first_head(
                bare@,
                all,
                line,
                selector@,
                k as int,
            ),
        decreases m - k,
    {
        let (from, to) = heads[k];
        proof {
            assert(all[k as int] == (from as int, to as int));
            assert(heads@[k as int].0 <= heads@[k as int].1 <= bare@.len());
            assert(bare@.subrange(0, from as int) =~= bare@.take(from as int));
        }
        let text = string_of(slice_subrange(bare, from, to));
        let above: usize = count_newlines(slice_subrange(bare, 0, from));
        if to_line(above as u128) == line && same_text(text.as_str(), selector) {
            proof {
                lemma_heads_open(bare@, 0, 0, k as int);
                lemma_block_end(bare@, index_from(bare@, '{', to as int) + 1, 1);
            }
            let open: usize = find_from(bare, '{', to);
            let close: usize = match advance_past_block(bare, open + 1) {
                Some(e) => e,
                None => {
                    return None;
                },
            };
            if close >= n {
                return None;
            }
            return Some((from, close + 1));
        }
        k = k + 1;
    }
    None
}

/// Whether a text is all white space.
fn all_white(chars: &[char]) -> (r: bool)
    ensures
        r == is_blank(chars@),
{
    let n: usize = chars.len();
    let mut i: usize = 0;
    while i < n
        invariant
            i <= n,
            n == chars@.len(),
            forall|j: int| 0 <= j < i ==> is_white(#[trigger] chars@[j]),
        decreases n - i,
    {
        if !white(chars[i]) {
            return false;
        }
        i = i + 1;
    }
    true
}

/// The edit that removes the rule on a line.
pub fn edit_out_rule(content: &str, line: u32, selector: &str) -> (r: Option<TextEdit>)
    ensures
        r is Some == (removal_edit(content@, line, selector@) is Some),
        r is Some ==> (r->0).deep_view() == removal_edit(content@, line, selector@)->0,
{
    let chars = chars_of(content);
    let stripped = strip_comments(content);
    let bare = chars_of(stripped.as_str());
    proof {
        law_comments_keep_positions(content@);
    }
    let (from, to) = match find_rule(bare.as_slice(), line, selector) {
        Some(span) => span,
        None => {
            return None;
        },
    };
    let n: usize = chars.len();
    let begin: usize = begin_of_line(chars.as_slice(), from);
    let end: usize = find_from(chars.as_slice(), '\n', to);
    let (start, stop) = if all_white(slice_subrange(chars.as_slice(), begin, from)) && all_white(
        slice_subrange(chars.as_slice(), to, end),
    ) {
        let stop: usize = if end < n && end + 1 < n {
            end + 1
        } else if to < end && end < n && chars[end - 1] == '\r' {
            end - 1
        } else {
            end
        };
        (begin, stop)
    } else {
        (from, to)
    };
    let range = Range {
        start: position_of(chars.as_slice(), start),
        end: position_of(chars.as_slice(), stop),
    };
    Some(TextEdit { range, new_text: String::new() })
}

/// Texts with a comma and a space between them.
pub open spec fn comma_joined(all: Seq<Seq<char>>) -> Seq<char>
    decreases all.len(),
{
    if all.len() == 0 {
        seq![]
    } else if all.len() == 1 {
        all[0]
    } else {
        comma_joined(all.drop_last()) + ", "@ + all.last()
    }
}

/// Texts with a comma and a space between them.
fn join_with_commas(list: &Vec<String>) -> (r: String)
    ensures
        r@ == comma_joined(texts(list@)),
{
    let n: usize = list.len();
    let ghost all = texts(list@);
    let mut r = String::new();
    let mut i: usize = 0;
    while i < n
        invariant
            i <= n,
            n == list@.len(),
            all == texts(list@),
            r@ == comma_joined(all.take(i as int)),
        decreases n - i,
    {
        proof {
            assert(all.take(i + 1).drop_last() =~= all.take(i as int));
            assert(all.take(i + 1).last() == list@[i as int]@);
        }
        if i > 0 {
            r.append(", ");
            r.append(list[i].as_str());
        } else {
            r.append(list[i].as_str());
            proof {
                assert(r@ =~= list@[0]@);
            }
        }
        i = i + 1;
    }
    proof {
        assert(all.take(n as int) =~= all);
    }
    r
}

/// The text of a style sheet: that of the open document, or else the one on disk. `sources` holds
/// the style sheets that can be read.
pub open spec fn current_content(
    uri: Seq<char>,
    path: Seq<char>,
    documents: Seq<(Seq<char>, Seq<char>)>,
    sources: Seq<(Seq<char>, Seq<char>)>,
) -> Option<Seq<char>> {
    match lookup(documents, uri) {
        Some(text) => Some(text),
        None => lookup(sources, path),
    }
}

/// The offer to remove a block, given the address and the text of its file.
pub open spec fn removal(block: UnusedBlockView, uri: Seq<char>, content: Seq<char>) -> Option<
    CodeActionView,
> {
    match removal_edit(content, block.line, block.selector) {
        Some(edit) => Some(
            CodeActionView {
                title: "Remove unused rule '"@ + comma_joined(block.selectors) + "' from "@
                    + shown_file_name(block.path),
                diagnostic: None,
                preferred: false,
                uri,
                edit,
            },
        ),
        None => None,
    }
}

/// The offer to remove a block, if its file has an address and can be read.
pub open spec fn removal_offer(
    documents: Seq<(Seq<char>, Seq<char>)>,
    sources: Seq<(Seq<char>, Seq<char>)>,
) -> spec_fn(UnusedBlockView) -> Option<CodeActionView> {
    |block: UnusedBlockView|
        match file_to_uri(block.path) {
            Some(uri) => match current_content(uri, block.path, documents, sources) {
                Some(content) => removal(block, uri, content),
                None => None,
            },
            None => None,
        }
}

/// The offer to remove a block, given the address and the text of its file.
pub fn remove_block(block: &UnusedBlock, uri: String, content: &str) -> (r: Option<CodeAction>)
    ensures
        r is Some == (removal(block.deep_view(), uri@, content@) is Some),
        r is Some ==> (r->0).deep_view() == removal(block.deep_view(), uri@, content@)->0,
{
    let edit = match edit_out_rule(content, block.line, block.selector.as_str()) {
        Some(edit) => edit,
        None => {
            return None;
        },
    };
    let mut title = "Remove unused rule '".to_owned();
    title.append(join_with_commas(&block.selectors).as_str());
    title.append("' from ");
    title.append(show_file_name(block.path.as_str()).as_str());
    Some(CodeAction { title, diagnostic: None, preferred: false, uri, edit })
}

/// The offers to remove blocks.
pub fn remove_actions(
    blocks: &Vec<UnusedBlock>,
    documents: &DocumentMap,
    sources: &DocumentMap,
) -> (r: Vec<CodeAction>)
    ensures
        r.deep_view() == collect(blocks.deep_view(), removal_offer(documents@, sources@)),
{
    let n: usize = blocks.len();
    let ghost all = blocks.deep_view();
    let ghost f = removal_offer(documents@, sources@);
    let mut actions: Vec<CodeAction> = Vec::new();
    let mut i: usize = 0;
    proof {
        assert(all.take(0) =~= seq![]);
        assert(actions.deep_view() =~= seq![]);
    }
    while i < n
        invariant
            i <= n,
            n == blocks@.len(),
            all == blocks.deep_view(),
            f == removal_offer(documents@, sources@),
            actions.deep_view() == collect(all.take(i as int), f),
        decreases n - i,
    {
        let block = &blocks[i];
        let ghost before = actions.deep_view();
        proof {
            lemma_collect_step(all, i as int, f);
            assert(all[i as int] == block.deep_view());
        }
        if let Some(uri) = uri_of_file(block.path.as_str()) {
            let content = match documents.get(uri.as_str()) {
                Some(text) => Some(text),
                None => sources.get(block.path.as_str()),
            };
            if let Some(content) = content {
                if let Some(action) = remove_block(block, uri, content.as_str()) {
                    actions.push(action);
                    proof {
                        assert(actions.deep_view() =~= before.push(action.deep_view()));
                    }
                }
            }
        }
        i = i + 1;
    }
    proof {
        assert(all.take(n as int) =~= all);
    }
    actions
}

/// The quick fixes for a list of diagnostics: rules to create in the target style sheet, then
/// blocks to remove.
pub fn code_action_handler(
    diags: &Vec<Diagnostic>,
    target: &Option<CssTarget>,
    class_map: &ClassMap,
    documents: &DocumentMap,
    sources: &DocumentMap,
) -> (r: Vec<CodeAction>)
    ensures
        r.deep_view() == creations(diags.deep_view(), opt_target(*target)) + collect(
            removable_blocks(diags.deep_view(), class_map@),
            removal_offer(documents@, sources@),
        ),
{
    let mut actions = create_actions(diags, target);
    let blocks = unused_blocks(diags, class_map);
    let mut more = remove_actions(&blocks, documents, sources);
    let ghost a = actions.deep_view();
    let ghost b = more.deep_view();
    actions.append(&mut more);
    proof {
        assert(actions.deep_view() =~= a + b);
    }
    actions
}

/// A block is offered for removal only if every name that it defines is called unused by one of the
/// diagnostics, and if every selector of its list names a class or an identifier.
pub proof fn law_removal_spares_used_names(diags: Seq<DiagnosticView>, rows: ClassRows, j: int)
    requires
        0 <= j < removable_blocks(diags, rows).len(),
    ensures
        ({
            let block = removable_blocks(diags, rows)[j];
            let key = BlockKey { path: block.path, line: block.line, selector: block.selector };
            &&& forall|i: int|
                0 <= i < rows.len() && makes_block((#[trigger] rows[i]).1, key) ==> collect(
                    diags,
                    unused_name(),
                ).contains(rows[i].0)
            &&& names_throughout(block.selector)
        }),
{
    let names = unused_names(diags);
    let candidates = first_occurrences(
        blocks_upto(names, rows, unused_lines(diags), names.len() as int),
    );
    let f = removable(names, rows);
    lemma_collect(candidates, f);
    let block = removable_blocks(diags, rows)[j];
    let key = BlockKey { path: block.path, line: block.line, selector: block.selector };
    let c = choose|c: int|
        0 <= c < candidates.len() && f(#[trigger] candidates[c]) == Some(
            collect(candidates, f)[j],
        );
    assert(candidates[c] == key);
    assert(all_among(rows, names, key));
    assert forall|i: int|
        0 <= i < rows.len() && makes_block((#[trigger] rows[i]).1, key) implies collect(
        diags,
        unused_name(),
    ).contains(rows[i].0) by {
        lemma_first_occurrences_within(collect(diags, unused_name()), rows[i].0);
    }
}

/// A removal takes the rule out and nothing else but white space: what it covers before the
/// selector and behind the closing brace of the rule is blank. `rule` is where the rule stands.
pub proof fn law_removal_takes_one_rule(content: Seq<char>, line: u32, selector: Seq<char>)
    requires
        removal_span(content, line, selector) is Some,
    ensures
        ({
            let s = without_comments(content);
            let rule = rule_span(s, line, selector)->0;
            let span = removal_span(content, line, selector)->0;
            &&& 0 <= span.0 <= rule.0 < rule.0 + selector.len() < rule.1 <= span.1 <= content.len()
            &&& line_number(newlines(content.take(rule.0)) as int) == line
            &&& s.subrange(rule.0, rule.0 + selector.len()) == selector
            &&& block_end(s, index_from(s, '{', rule.0 + selector.len()) + 1, 1) == Some(
                rule.1 - 1,
            )
            &&& is_blank(content.subrange(span.0, rule.0))
            &&& is_blank(content.subrange(rule.1, span.1))
        }),
{
    let s = without_comments(content);
    let heads = heads_from(s, 0, 0);
    let h = first_head(s, heads, line, selector, 0)->0;
    law_comments_keep_positions(content);
    lemma_first_head(s, heads, line, selector, 0);
    let k = choose|k: int| 0 <= k < heads.len() && #[trigger] heads[k] == h;
    lemma_heads(s, 0, 0);
    assert(is_span(s, heads[k]));
    lemma_heads_open(s, 0, 0, k);
    law_comments_keep_line_numbers(content, h.0);
    let open = index_from(s, '{', h.1);
    lemma_block_end(s, open + 1, 1);
    let rule = rule_span(s, line, selector)->0;
    let begin = line_begin(content, rule.0);
    let end = index_from(content, '\n', rule.1);
    lemma_line_begin(content, rule.0);
    lemma_index_from(content, '\n', rule.1);
    let span = removal_span(content, line, selector)->0;
    if span != rule {
        let behind = content.subrange(rule.1, span.1);
        assert forall|i: int| 0 <= i < behind.len() implies is_white(#[trigger] behind[i]) by {
            if rule.1 + i < end {
                assert(content.subrange(rule.1, end)[i] == behind[i]);
            } else {
                assert(behind[i] == '\n');
            }
        }
    }
}

/// Every rule of a style sheet is found again by its line and its selector.
pub proof fn law_every_rule_is_found(content: Seq<char>, rule: RuleView)
    requires
        css_rules(content, 0) is Some,
        css_rules(content, 0)->0.contains(rule),
    ensures
        first_head(
            without_comments(content),
            heads_from(without_comments(content), 0, 0),
            rule.line,
            rule.selector,
            0,
        ) is Some,
{
    let s = without_comments(content);
    let heads = heads_from(s, 0, 0);
    let rules = css_rules(content, 0)->0;
    let i = choose|i: int| 0 <= i < rules.len() && rules[i] == rule;
    law_every_rule_has_its_selector(content);
    assert(has_head(s, 0, 0, 0, rules[i]));
    let h = choose|h: (int, int)| heads.contains(h) && #[trigger] is_head_of(s, 0, rule, h);
    let j = choose|j: int| 0 <= j < heads.len() && heads[j] == h;
    lemma_some_head(s, heads, rule.line, rule.selector, 0, j);
}

proof fn lemma_some_head(
    s: Seq<char>,
    heads: Seq<(int, int)>,
    line: u32,
    selector: Seq<char>,
    k: int,
    j: int,
)
    requires
        0 <= k <= j < heads.len(),
        is_rule_head(s, line, selector, heads[j]),
    ensures
        first_head(s, heads, line, selector, k) is Some,
    decreases j - k,
{
    if k < j && !is_rule_head(s, line, selector, heads[k]) {
        lemma_some_head(s, heads, line, selector, k + 1, j);
    }
}

proof fn lemma_first_head(
    s: Seq<char>,
    heads: Seq<(int, int)>,
    line: u32,
    selector: Seq<char>,
    k: int,
)
    requires
        0 <= k,
    ensures
        first_head(s, heads, line, selector, k) is Some ==> heads.contains(
            first_head(s, heads, line, selector, k)->0,
        ) && is_rule_head(s, line, selector, first_head(s, heads, line, selector, k)->0),
    decreases heads.len() - k,
{
    if k < heads.len() && !is_rule_head(s, line, selector, heads[k]) {
        lemma_first_head(s, heads, line, selector, k + 1);
    }
}

/// The name in a message about an unknown name is found again, if it is not empty and holds no
/// quote.
pub proof fn law_unknown_name_is_found_again(r: RefView)
    requires
        r.name.len() > 0,
        !r.name.contains('\''),
    ensures
        quoted(unknown_message(r)) == Some(r.name),
{
    let lead = if r.is_id {
        "Unknown CSS id '"@
    } else {
        "Unknown CSS class '"@
    };
    reveal_strlit("Unknown CSS id '");
    reveal_strlit("Unknown CSS class '");
    reveal_strlit("'");
    lemma_quoted_between(lead, r.name, "'"@);
}

/// The name in a message about an unused name is found again, under the name it is filed by, if it
/// is not empty, holds no quote and does not begin with a dot.
pub proof fn law_unused_name_is_found_again(name: Seq<char>, line: u32)
    requires
        name.len() > 0,
        !name.contains('\''),
        name[0] != '.',
    ensures
        unused_name()(unused_remark(name, line)) == Some(name),
{
    reveal_strlit("'");
    reveal_strlit("' is not used in any open HTML file");
    reveal_strlit(".");
    reveal_strlit("#");
    let shown = display_name(name);
    assert(!shown.contains('\'')) by {
        if shown.contains('\'') {
            let i = choose|i: int| 0 <= i < shown.len() && shown[i] == '\'';
            if "#"@.is_prefix_of(name) {
                assert(name[i] == '\'');
            } else {
                assert(shown[i] == (if i == 0 {
                    '.'
                } else {
                    name[i - 1]
                }));
            }
        }
    }
    lemma_quoted_between("'"@, shown, "' is not used in any open HTML file"@);
    assert(quoted(unused_remark(name, line).message) == Some(shown));
    if "#"@.is_prefix_of(name) {
        assert(name[0] == name.subrange(0, 1)[0]);
        if "."@.is_prefix_of(name) {
            assert(name.subrange(0, 1)[0] == '.');
        }
    } else {
        assert("."@.is_prefix_of(shown)) by {
            assert(shown.subrange(0, 1) =~= "."@);
        }
        assert(shown.skip(1) =~= name);
    }
}

/// The name of a class or an identifier of a style sheet is found again in a message that it is
/// unused.
pub proof fn law_filed_names_are_found_again(name: Seq<char>, line: u32)
    requires
        is_filed_name(name),
    ensures
        unused_name()(unused_remark(name, line)) == Some(name),
{
    assert(!name.contains('\'')) by {
        if name.contains('\'') {
            let i = choose|i: int| 0 <= i < name.len() && name[i] == '\'';
            if i > 0 || is_name_start(name[0]) {
                assert(is_name_char(name[i]));
            }
        }
    }
    law_unused_name_is_found_again(name, line);
}

/// A text that holds no quote, between one that ends with its only quote and one that begins with a
/// quote, is the first text between quotes.
proof fn lemma_quoted_between(lead: Seq<char>, name: Seq<char>, tail: Seq<char>)
    requires
        lead.len() > 0,
        lead.last() == '\'',
        forall|i: int| 0 <= i < lead.len() - 1 ==> lead[i] != '\'',
        name.len() > 0,
        !name.contains('\''),
        tail.len() > 0,
        tail[0] == '\'',
    ensures
        quoted(lead + name + tail) == Some(name),
{
    let msg = lead + name + tail;
    let a = lead.len() - 1;
    let b = lead.len() + name.len();
    assert(msg[a] == '\'');
    assert forall|j: int| 0 <= j < a implies msg[j] != '\'' by {
        assert(msg[j] == lead[j]);
    }
    lemma_index_from_is(msg, '\'', 0, a);
    assert forall|j: int| a + 1 <= j < b implies msg[j] != '\'' by {
        assert(msg[j] == name[j - lead.len()]);
        assert(name.contains(name[j - lead.len()]));
    }
    assert(msg[b as int] == tail[0]);
    lemma_index_from_is(msg, '\'', a + 1, b as int);
    assert(msg.subrange(a + 1, b as int) =~= name);
}

/// The paths of the style sheets that a class map knows, in order of appearance, up to the first
/// `k` names.
pub open spec fn known_files_upto(rows: ClassRows, k: int) -> Seq<Seq<char>>
    decreases k,
{
    if k <= 0 {
        seq![]
    } else {
        known_files_upto(rows, k - 1) + rows[k - 1].1.map_values(
            |i: ClassInfoView| i.source_path,
        )
    }
}

/// The paths of the style sheets that a class map knows, each once.
pub open spec fn known_files(rows: ClassRows) -> Seq<Seq<char>> {
    first_occurrences(known_files_upto(rows, rows.len() as int))
}

/// The paths of the style sheets that a class map knows, each once.
pub fn css_files(class_map: &ClassMap) -> (r: Vec<String>)
    ensures
        texts(r@) == known_files(class_map@),
{
    let n: usize = class_map.len();
    let mut r: Vec<String> = Vec::new();
    let mut k: usize = 0;
    proof {
        assert(texts(r@) =~= seq![]);
    }
    while k < n
        invariant
            k <= n,
            n == class_map@.len(),
            texts(r@) == first_occurrences(known_files_upto(class_map@, k as int)),
        decreases n - k,
    {
        let infos = class_map.value_at(k);
        let m: usize = infos.len();
        let ghost start = known_files_upto(class_map@, k as int);
        let ghost all = infos.deep_view().map_values(|i: ClassInfoView| i.source_path);
        let mut i: usize = 0;
        proof {
            assert(start + all.take(0) =~= start);
        }
        while i < m
            invariant
                i <= m,
                m == infos@.len(),
                all == infos.deep_view().map_values(|i: ClassInfoView| i.source_path),
                texts(r@) == first_occurrences(start + all.take(i as int)),
            decreases m - i,
        {
            let path = infos[i].source_path.as_str();
            let ghost before = texts(r@);
            proof {
                assert(all[i as int] == path@);
                lemma_first_occurrences_push(start + all.take(i as int), path@);
                assert((start + all.take(i as int)).push(path@) =~= start + all.take(i + 1));
            }
            if !contains_text(&r, path) {
                r.push(path.to_owned());
                proof {
                    assert(texts(r@) =~= before.push(path@));
                }
            }
            i = i + 1;
        }
        proof {
            assert(all.take(m as int) =~= all);
        }
        k = k + 1;
    }
    r
}

/// Whether a path names a file in a directory.
pub open spec fn lies_in(path: Seq<char>, dir: Seq<char>) -> bool {
    path_parent(path) is Some && paths_equal(path_parent(path)->0, dir)
}

/// Which of a file's qualities matter for where a new rule goes: whether it lies in the document's
/// directory, and whether the document links to it.
pub open spec fn target_rank(nearby: bool, linked: bool) -> int {
    if nearby && linked {
        0
    } else if linked {
        1
    } else if nearby {
        2
    } else {
        3
    }
}

/// The rank of a style sheet as the place for a new rule.
pub open spec fn file_rank(path: Seq<char>, dir: Seq<char>, linked: Seq<Seq<char>>) -> int {
    target_rank(lies_in(path, dir), linked.contains(path))
}

/// The index of the first file of the least rank among the first `k`.
pub open spec fn best_index(ranks: Seq<int>, k: int) -> int
    decreases k,
{
    if k <= 1 {
        0
    } else {
        let before = best_index(ranks, k - 1);
        if ranks[k - 1] < ranks[before] {
            k - 1
        } else {
            before
        }
    }
}

/// The best index is that of a least rank, and of the first such.
pub proof fn lemma_best_index_is_least(ranks: Seq<int>, k: int)
    requires
        0 < k <= ranks.len(),
    ensures
        0 <= best_index(ranks, k) < k,
        forall|i: int| 0 <= i < k ==> ranks[best_index(ranks, k)] <= #[trigger] ranks[i],
        forall|i: int| 0 <= i < best_index(ranks, k) ==> ranks[best_index(ranks, k)]
            < #[trigger] ranks[i],
    decreases k,
{
    if k > 1 {
        lemma_best_index_is_least(ranks, k - 1);
    }
}

/// The ranks of a list of style sheets.
pub open spec fn file_ranks(files: Seq<Seq<char>>, dir: Seq<char>, linked: Seq<Seq<char>>) -> Seq<
    int,
> {
    files.map_values(|path: Seq<char>| file_rank(path, dir, linked))
}

/// The style sheet that a new rule goes to: the first of those that are linked and in the
/// document's directory, or else of those that are linked, or else of those in the directory, or
/// else of all.
pub open spec fn best_file(files: Seq<Seq<char>>, dir: Seq<char>, linked: Seq<Seq<char>>) -> Option<
    Seq<char>,
> {
    if files.len() == 0 {
        None
    } else {
        Some(files[best_index(file_ranks(files, dir, linked), files.len() as int)])
    }
}

/// A new rule goes to a style sheet of the least rank: one that is linked and in the document's
/// directory if there is one, or else one that is linked, or else one in the directory.
pub proof fn law_new_rules_go_to_the_nearest_file(
    files: Seq<Seq<char>>,
    dir: Seq<char>,
    linked: Seq<Seq<char>>,
    i: int,
)
    requires
        0 <= i < files.len(),
    ensures
        best_file(files, dir, linked) is Some,
        files.contains(best_file(files, dir, linked)->0),
        file_rank(best_file(files, dir, linked)->0, dir, linked) <= file_rank(
            files[i],
            dir,
            linked,
        ),
{
    let ranks = file_ranks(files, dir, linked);
    lemma_best_index_is_least(ranks, files.len() as int);
    assert(ranks[i] == file_rank(files[i], dir, linked));
}

/// Whether a path names a file in a directory.
fn is_in(path: &str, dir: &str) -> (r: bool)
    ensures
        r == lies_in(path@, dir@),
{
    match parent_of(path) {
        Some(parent) => same_path(parent.as_str(), dir),
        None => false,
    }
}

/// The style sheet that a new rule goes to. `linked` lists the style sheets that the document
/// reaches through its links.
pub fn find_target_css_file(files: &Vec<String>, dir: &str, linked: &Vec<String>) -> (r: Option<
    String,
>)
    ensures
        opt_text(r) == best_file(texts(files@), dir@, texts(linked@)),
{
    let n: usize = files.len();
    if n == 0 {
        return None;
    }
    let ghost ranks = file_ranks(texts(files@), dir@, texts(linked@));
    let mut best: usize = 0;
    let mut best_rank: u8 = 4;
    let mut k: usize = 0;
    while k < n
        invariant
            k <= n,
            n == files@.len(),
            n > 0,
            ranks == file_ranks(texts(files@), dir@, texts(linked@)),
            best < n,
            k == 0 ==> best_rank == 4,
            best == best_index(ranks, k as int),
            k > 0 ==> best_rank == ranks[best as int],
        decreases n - k,
    {
        let path = files[k].as_str();
        let nearby = is_in(path, dir);
        let reached = contains_text(linked, path);
        let rank: u8 = if nearby && reached {
            0
        } else if reached {
            1
        } else if nearby {
            2
        } else {
            3
        };
        proof {
            assert(ranks[k as int] == rank as int) by {
                assert(texts(files@)[k as int] == path@);
            }
        }
        if rank < best_rank {
            best = k;
            best_rank = rank;
        }
        k = k + 1;
    }
    proof {
        assert(texts(files@)[best as int] == files@[best as int]@);
    }
    Some(files[best].clone())
}

} // verus!
