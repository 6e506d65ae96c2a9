//! What happens when style sheets change on disk.

use crate::collect::{collect, lemma_collect, lemma_collect_step};
use crate::css::{
    blocks_closed, css_definitions, css_rule_infos, css_rules, is_filed_name, only_names,
    parse_css_content,
};
use crate::model::{
    class_map_inv, definitions, opt_text, ClassInfoView, ClassMap, ClassRows, KeyframeInfoView,
    KeyframesMap,
};
use crate::pattern::Patterns;
use crate::scope::{
    forget_keyframes, forget_source, keyframes_not_from, law_definitions_name_their_source,
    law_forgetting_spares_other_files, law_update_replaces_one_file, lemma_collect_concat,
    lemma_items_come_from, not_from, row_kept, scan_keyframes_content, source_name, source_name_of,
    updated, with_animations, without_source, StyleSheet,
};
use crate::symbols::{css_file, css_file_of};
use crate::table::items_for;
use vstd::prelude::*;

verus! {

/// What happened to a file on disk.
#[derive(Clone, Copy, Debug, PartialEq, Eq, Structural)]
pub enum FileChange {
    Created,
    Changed,
    Deleted,
    Unknown,
}

/// Whether a file is read anew after a change.
pub fn is_read_anew(change: FileChange) -> (r: bool)
    ensures
        r == (change is Created || change is Changed),
{
    change == FileChange::Created || change == FileChange::Changed
}

/// A style sheet that changed on disk.
#[derive(Debug)]
pub struct CssChange {
    pub path: String,
    pub deleted: bool,
}

impl DeepView for CssChange {
    type V = (Seq<char>, bool);

    open spec fn deep_view(&self) -> (Seq<char>, bool) {
        (self.path@, self.deleted)
    }
}

/// The style sheet that a change at an address is about; none if it is about another file.
pub fn css_change(uri: &str, change: FileChange) -> (r: Option<CssChange>)
    ensures
        r is Some == (css_file(uri@) is Some),
        r is Some ==> (r->0).deep_view() == (css_file(uri@)->0, change is Deleted),
{
    match css_file_of(uri) {
        Some(path) => Some(CssChange { path, deleted: change == FileChange::Deleted }),
        None => None,
    }
}

/// A change of a file on disk, with what the file holds now if it could be read, and the style
/// sheets that it reaches through imports.
#[derive(Debug)]
pub struct FileUpdate {
    pub uri: String,
    pub change: FileChange,
    pub content: Option<String>,
    pub imported: Vec<StyleSheet>,
}

/// What a `FileUpdate` says.
#[verifier::ext_equal]
pub ghost struct FileUpdateView {
    pub uri: Seq<char>,
    pub change: FileChange,
    pub content: Option<Seq<char>>,
    pub imported: Seq<(Seq<char>, Seq<char>)>,
}

impl DeepView for FileUpdate {
    type V = FileUpdateView;

    open spec fn deep_view(&self) -> FileUpdateView {
        FileUpdateView {
            uri: self.uri@,
            change: self.change,
            content: opt_text(self.content),
            imported: self.imported.deep_view(),
        }
    }
}

/// What a file holds after a change, as far as it counts: nothing unless it was created or changed.
pub open spec fn new_content(u: FileUpdateView) -> Option<Seq<char>> {
    if u.change is Created || u.change is Changed {
        u.content
    } else {
        None
    }
}

/// A style sheet that changed: what it holds now, if anything, and what it imports.
#[verifier::ext_equal]
pub ghost struct SheetUpdate {
    pub path: Seq<char>,
    pub content: Option<Seq<char>>,
    pub imported: Seq<(Seq<char>, Seq<char>)>,
}

/// The style sheet that a change is about, and what it holds now; none if it is about another file.
pub open spec fn css_update() -> spec_fn(FileUpdateView) -> Option<SheetUpdate> {
    |u: FileUpdateView|
        match css_file(u.uri) {
            Some(path) => Some(
                SheetUpdate { path, content: new_content(u), imported: u.imported },
            ),
            None => None,
        }
}

/// The style sheets that changed, and what they hold now.
pub open spec fn css_updates(updates: Seq<FileUpdateView>) -> Seq<SheetUpdate> {
    collect(updates, css_update())
}

/// The style sheet that a change is about, and whether it was deleted.
pub open spec fn changed_sheet() -> spec_fn(FileUpdateView) -> Option<(Seq<char>, bool)> {
    |u: FileUpdateView|
        match css_file(u.uri) {
            Some(path) => Some((path, u.change is Deleted)),
            None => None,
        }
}

/// Whether what the changed style sheets hold can be read.
pub open spec fn all_readable(updates: Seq<FileUpdateView>) -> bool {
    forall|i: int| 0 <= i < updates.len() ==> update_readable(#[trigger] updates[i])
}

/// Whether what a changed style sheet holds can be read; of other files nothing is read.
pub open spec fn update_readable(u: FileUpdateView) -> bool {
    css_file(u.uri) is Some && new_content(u) is Some ==> css_rules(new_content(u)->0, 0) is Some
}

/// The class map after style sheets have changed, one after another: what a style sheet defined
/// before is dropped, and what it holds now is read. No other file is read.
pub open spec fn rows_after(
    rows: ClassRows,
    updates: Seq<SheetUpdate>,
) -> ClassRows
    decreases updates.len(),
{
    if updates.len() == 0 {
        rows
    } else {
        let before = rows_after(rows, updates.drop_last());
        let SheetUpdate { path, content, .. } = updates.last();
        match content {
            Some(text) => updated(
                before,
                path,
                css_definitions(text, 0, source_name(path), path),
            ),
            None => without_source(before, path),
        }
    }
}

/// The rules after style sheets have changed.
pub open spec fn rules_after(
    rules: Seq<ClassInfoView>,
    updates: Seq<SheetUpdate>,
) -> Seq<ClassInfoView>
    decreases updates.len(),
{
    if updates.len() == 0 {
        rules
    } else {
        let SheetUpdate { path, content, .. } = updates.last();
        let kept = collect(rules_after(rules, updates.drop_last()), not_from(path));
        match content {
            Some(text) => kept + css_rule_infos(text, 0, source_name(path), path),
            None => kept,
        }
    }
}

/// The table with the animations added that several style sheets define, one after another.
pub open spec fn with_sheets(
    rows: Seq<(Seq<char>, KeyframeInfoView)>,
    sheets: Seq<(Seq<char>, Seq<char>)>,
) -> Seq<(Seq<char>, KeyframeInfoView)>
    decreases sheets.len(),
{
    if sheets.len() == 0 {
        rows
    } else {
        with_animations(
            with_sheets(rows, sheets.drop_last()),
            sheets.last().0,
            sheets.last().1,
        )
    }
}

/// The animations after style sheets have changed, one after another: those that a style sheet
/// defined before are dropped, and those that it and its imports define now are added.
pub open spec fn keyframes_after(
    rows: Seq<(Seq<char>, KeyframeInfoView)>,
    updates: Seq<SheetUpdate>,
) -> Seq<(Seq<char>, KeyframeInfoView)>
    decreases updates.len(),
{
    if updates.len() == 0 {
        rows
    } else {
        let SheetUpdate { path, content, imported } = updates.last();
        let kept = collect(keyframes_after(rows, updates.drop_last()), keyframes_not_from(path));
        match content {
            Some(text) => with_sheets(with_animations(kept, path, text), imported),
            None => kept,
        }
    }
}

/// Forgetting a file adds no name.
proof fn lemma_only_names_stay(rows: ClassRows, path: Seq<char>)
    ensures
        only_names(rows) ==> only_names(without_source(rows, path)),
{
    let left = without_source(rows, path);
    lemma_collect(rows, row_kept(not_from(path)));
    if only_names(rows) {
        assert forall|i: int| 0 <= i < left.len() implies is_filed_name((#[trigger] left[i]).0) by {
            let f = row_kept(not_from(path));
            let k = choose|k: int|
                0 <= k < rows.len() && f(#[trigger] rows[k]) == Some(collect(rows, f)[i]);
            assert(rows[k].0 == left[i].0);
        }
    }
}

/// Reads one style sheet anew: what it defined before is dropped, and what it defines now is added.
/// What it imports is not read. Nothing happens if a string inside a block is not closed.
pub fn update_source(
    class_map: &mut ClassMap,
    patterns: &Patterns,
    path: &str,
    content: &str,
) -> (r: bool)
    ensures
        r == (css_rules(content@, 0) is Some),
        only_names(old(class_map)@) ==> only_names(final(class_map)@),
        r ==> final(class_map)@ == updated(
            old(class_map)@,
            path@,
            css_definitions(content@, 0, source_name(path@), path@),
        ),
        r ==> final(class_map).rules() == collect(old(class_map).rules(), not_from(path@))
            + css_rule_infos(content@, 0, source_name(path@), path@),
        !r ==> *final(class_map) == *old(class_map),
{
    if !blocks_closed(content) {
        return false;
    }
    proof {
        lemma_only_names_stay(class_map@, path@);
    }
    forget_source(class_map, path);
    let name = source_name_of(path);
    parse_css_content(patterns, content, 0, name.as_str(), path, class_map);
    true
}

/// Whether what the changed style sheets hold can be read.
fn can_read_all(updates: &Vec<FileUpdate>) -> (r: bool)
    ensures
        r == all_readable(updates.deep_view()),
{
    let n: usize = updates.len();
    let ghost all = updates.deep_view();
    let mut i: usize = 0;
    while i < n
        invariant
            i <= n,
            n == updates@.len(),
            all == updates.deep_view(),
            forall|j: int| 0 <= j < i ==> update_readable(#[trigger] all[j]),
        decreases n - i,
    {
        proof {
            assert(all[i as int] == updates@[i as int].deep_view());
        }
        if is_read_anew(updates[i].change) && css_file_of(updates[i].uri.as_str()).is_some() {
            if let Some(content) = &updates[i].content {
                if !blocks_closed(content.as_str()) {
                    proof {
                        assert(!update_readable(all[i as int]));
                    }
                    return false;
                }
            }
        }
        i = i + 1;
    }
    true
}

/// Style sheets have changed on disk: each of them is read anew, in order. Nothing happens if a
/// string inside a block of one of them is not closed.
pub fn update_css_map(
    class_map: &mut ClassMap,
    patterns: &Patterns,
    updates: &Vec<FileUpdate>,
) -> (r: bool)
    ensures
        r == all_readable(updates.deep_view()),
        only_names(old(class_map)@) ==> only_names(final(class_map)@),
        r ==> final(class_map)@ == rows_after(
            old(class_map)@,
            css_updates(updates.deep_view()),
        ),
        r ==> final(class_map).rules() == rules_after(
            old(class_map).rules(),
            css_updates(updates.deep_view()),
        ),
        !r ==> *final(class_map) == *old(class_map),
{
    if !can_read_all(updates) {
        return false;
    }
    let n: usize = updates.len();
    let ghost all = updates.deep_view();
    let ghost f = css_update();
    let ghost rows = class_map@;
    let ghost rules = class_map.rules();
    let mut i: usize = 0;
    proof {
        assert(all.take(0) =~= seq![]);
    }
    while i < n
        invariant
            i <= n,
            n == updates@.len(),
            all == updates.deep_view(),
            all_readable(all),
            f == css_update(),
            only_names(rows) ==> only_names(class_map@),
            class_map@ == rows_after(rows, collect(all.take(i as int), f)),
            class_map.rules() == rules_after(rules, collect(all.take(i as int), f)),
        decreases n - i,
    {
        let update = &updates[i];
        let ghost done = collect(all.take(i as int), f);
        proof {
            lemma_collect_step(all, i as int, f);
            assert(all[i as int] == update.deep_view());
            assert(update_readable(all[i as int]));
        }
        if let Some(path) = css_file_of(update.uri.as_str()) {
            let ghost entry = SheetUpdate {
                path: path@,
                content: new_content(all[i as int]),
                imported: all[i as int].imported,
            };
            proof {
                assert(f(all[i as int]) == Some(entry));
                assert(done.push(entry).drop_last() =~= done);
            }
            if is_read_anew(update.change) && update.content.is_some() {
                if let Some(content) = &update.content {
                    update_source(class_map, patterns, path.as_str(), content.as_str());
                }
            } else {
                proof {
                    lemma_only_names_stay(class_map@, path@);
                }
                forget_source(class_map, path.as_str());
            }
        }
        i = i + 1;
    }
    proof {
        assert(all.take(n as int) =~= all);
    }
    true
}

/// Adds the animations that several style sheets define.
fn scan_sheets(patterns: &Patterns, sheets: &Vec<StyleSheet>, keyframes: &mut KeyframesMap)
    ensures
        final(keyframes)@ == with_sheets(old(keyframes)@, sheets.deep_view()),
{
    let n: usize = sheets.len();
    let ghost all = sheets.deep_view();
    let ghost rows = keyframes@;
    let mut i: usize = 0;
    proof {
        assert(all.take(0) =~= seq![]);
    }
    while i < n
        invariant
            i <= n,
            n == sheets@.len(),
            all == sheets.deep_view(),
            keyframes@ == with_sheets(rows, all.take(i as int)),
        decreases n - i,
    {
        let sheet = &sheets[i];
        proof {
            assert(all[i as int] == sheet.deep_view());
            assert(all.take(i + 1).drop_last() =~= all.take(i as int));
            assert(all.take(i + 1).last() == all[i as int]);
        }
        scan_keyframes_content(patterns, sheet.content.as_str(), sheet.path.as_str(), keyframes);
        i = i + 1;
    }
    proof {
        assert(all.take(n as int) =~= all);
    }
}

/// Style sheets have changed on disk: the animations in each of them and in its imports are read
/// anew, in order.
pub fn update_keyframes_map(
    keyframes: &mut KeyframesMap,
    patterns: &Patterns,
    updates: &Vec<FileUpdate>,
)
    ensures
        final(keyframes)@ == keyframes_after(
            old(keyframes)@,
            css_updates(updates.deep_view()),
        ),
{
    let n: usize = updates.len();
    let ghost all = updates.deep_view();
    let ghost f = css_update();
    let ghost rows = keyframes@;
    let mut i: usize = 0;
    proof {
        assert(all.take(0) =~= seq![]);
    }
    while i < n
        invariant
            i <= n,
            n == updates@.len(),
            all == updates.deep_view(),
            f == css_update(),
            keyframes@ == keyframes_after(rows, collect(all.take(i as int), f)),
        decreases n - i,
    {
        let update = &updates[i];
        let ghost done = collect(all.take(i as int), f);
        proof {
            lemma_collect_step(all, i as int, f);
            assert(all[i as int] == update.deep_view());
        }
        if let Some(path) = css_file_of(update.uri.as_str()) {
            let ghost entry = SheetUpdate {
                path: path@,
                content: new_content(all[i as int]),
                imported: all[i as int].imported,
            };
            proof {
                assert(f(all[i as int]) == Some(entry));
                assert(done.push(entry).drop_last() =~= done);
            }
            forget_keyframes(keyframes, path.as_str());
            if is_read_anew(update.change) {
                if let Some(content) = &update.content {
                    scan_keyframes_content(patterns, content.as_str(), path.as_str(), keyframes);
                    scan_sheets(patterns, &update.imported, keyframes);
                }
            }
        }
        i = i + 1;
    }
    proof {
        assert(all.take(n as int) =~= all);
    }
}

/// The style sheets that changed, and whether they were deleted.
pub fn changed_sheets(updates: &Vec<FileUpdate>) -> (r: Vec<CssChange>)
    ensures
        r.deep_view() == collect(updates.deep_view(), changed_sheet()),
{
    let n: usize = updates.len();
    let ghost all = updates.deep_view();
    let ghost f = changed_sheet();
    let mut r: Vec<CssChange> = Vec::new();
    let mut i: usize = 0;
    proof {
        assert(all.take(0) =~= seq![]);
        assert(r.deep_view() =~= seq![]);
    }
    while i < n
        invariant
            i <= n,
            n == updates@.len(),
            all == updates.deep_view(),
            f == changed_sheet(),
            r.deep_view() == collect(all.take(i as int), f),
        decreases n - i,
    {
        let ghost before = r.deep_view();
        proof {
            lemma_collect_step(all, i as int, f);
            assert(all[i as int] == updates@[i as int].deep_view());
        }
        if let Some(change) = css_change(updates[i].uri.as_str(), updates[i].change) {
            r.push(change);
            proof {
                assert(r.deep_view() =~= before.push(change.deep_view()));
            }
        }
        i = i + 1;
    }
    proof {
        assert(all.take(n as int) =~= all);
    }
    r
}

/// The paths of changed style sheets.
pub open spec fn changed_paths(updates: Seq<SheetUpdate>) -> Seq<Seq<char>> {
    updates.map_values(|u: SheetUpdate| u.path)
}

/// A definition that stands in none of several files.
pub open spec fn from_none_of(paths: Seq<Seq<char>>) -> spec_fn(ClassInfoView) -> Option<
    ClassInfoView,
> {
    |info: ClassInfoView|
        if !paths.contains(info.source_path) {
            Some(info)
        } else {
            None
        }
}

/// Leaving one more file out.
proof fn lemma_leave_one_more_out(
    infos: Seq<ClassInfoView>,
    paths: Seq<Seq<char>>,
    path: Seq<char>,
)
    ensures
        collect(collect(infos, from_none_of(paths)), not_from(path)) == collect(
            infos,
            from_none_of(paths.push(path)),
        ),
    decreases infos.len(),
{
    if infos.len() > 0 {
        lemma_leave_one_more_out(infos.drop_last(), paths, path);
        let before = collect(infos.drop_last(), from_none_of(paths));
        let last = infos.last();
        lemma_contains_push(paths, path, last.source_path);
        if !paths.contains(last.source_path) {
            assert(before.push(last).drop_last() =~= before);
        }
    }
}

proof fn lemma_contains_push(paths: Seq<Seq<char>>, path: Seq<char>, x: Seq<char>)
    ensures
        paths.push(path).contains(x) == (paths.contains(x) || x == path),
{
    let more = paths.push(path);
    if paths.contains(x) {
        let i = choose|i: int| 0 <= i < paths.len() && paths[i] == x;
        assert(more[i] == x);
    }
    assert(more[paths.len() as int] == path);
    if more.contains(x) {
        let i = choose|i: int| 0 <= i < more.len() && more[i] == x;
        if i < paths.len() {
            assert(paths[i] == x);
        }
    }
}

/// Leaving a file out first makes no difference where it is left out anyway.
proof fn lemma_left_out_anyway(
    infos: Seq<ClassInfoView>,
    paths: Seq<Seq<char>>,
    path: Seq<char>,
)
    requires
        paths.contains(path),
    ensures
        collect(collect(infos, not_from(path)), from_none_of(paths)) == collect(
            infos,
            from_none_of(paths),
        ),
    decreases infos.len(),
{
    if infos.len() > 0 {
        lemma_left_out_anyway(infos.drop_last(), paths, path);
        let before = collect(infos.drop_last(), not_from(path));
        let last = infos.last();
        if last.source_path != path {
            assert(before.push(last).drop_last() =~= before);
        }
    }
}

/// Leaving files out twice is leaving them out once.
proof fn lemma_left_out_again(infos: Seq<ClassInfoView>, paths: Seq<Seq<char>>)
    ensures
        collect(collect(infos, from_none_of(paths)), from_none_of(paths)) == collect(
            infos,
            from_none_of(paths),
        ),
    decreases infos.len(),
{
    if infos.len() > 0 {
        lemma_left_out_again(infos.drop_last(), paths);
        let before = collect(infos.drop_last(), from_none_of(paths));
        let last = infos.last();
        if !paths.contains(last.source_path) {
            assert(before.push(last).drop_last() =~= before);
        }
    }
}

/// Of definitions that all stand in one file none is left where it is left out.
proof fn lemma_all_left_out(infos: Seq<ClassInfoView>, paths: Seq<Seq<char>>, path: Seq<char>)
    requires
        paths.contains(path),
        forall|i: int| 0 <= i < infos.len() ==> (#[trigger] infos[i]).source_path == path,
    ensures
        collect(infos, from_none_of(paths)) == Seq::<ClassInfoView>::empty(),
    decreases infos.len(),
{
    if infos.len() > 0 {
        let head = infos.drop_last();
        assert forall|i: int| 0 <= i < head.len() implies (#[trigger] head[i]).source_path
            == path by {
            assert(infos[i] == head[i]);
        }
        lemma_all_left_out(head, paths, path);
        assert(infos[infos.len() - 1].source_path == path);
    }
}

/// A change of style sheets touches no other file: of every name the definitions that stand
/// elsewhere stay, in their order. The map keeps its invariant, so no name is left without a
/// definition.
pub proof fn law_changes_spare_other_files(
    rows: ClassRows,
    updates: Seq<SheetUpdate>,
    paths: Seq<Seq<char>>,
    name: Seq<char>,
)
    requires
        class_map_inv(rows),
        forall|i: int| 0 <= i < updates.len() ==> paths.contains((#[trigger] updates[i]).path),
    ensures
        class_map_inv(rows_after(rows, updates)),
        collect(definitions(rows_after(rows, updates), name), from_none_of(paths)) == collect(
            definitions(rows, name),
            from_none_of(paths),
        ),
    decreases updates.len(),
{
    if updates.len() > 0 {
        let head = updates.drop_last();
        assert forall|i: int| 0 <= i < head.len() implies paths.contains((#[trigger] head[i]).path) by {
            assert(head[i] == updates[i]);
        }
        law_changes_spare_other_files(rows, head, paths, name);
        let before = rows_after(rows, head);
        let SheetUpdate { path, content, .. } = updates.last();
        assert(paths.contains(updates[updates.len() - 1].path));
        law_forgetting_spares_other_files(before, path, name);
        lemma_left_out_anyway(definitions(before, name), paths, path);
        if let Some(text) = content {
            let added = css_definitions(text, 0, source_name(path), path);
            law_definitions_name_their_source(
                css_rules(text, 0)->0,
                source_name(path),
                path,
            );
            law_update_replaces_one_file(before, path, added, name);
            let others = collect(definitions(before, name), not_from(path));
            let own = items_for(added, name);
            lemma_items_come_from(added, name, path);
            lemma_all_left_out(own, paths, path);
            lemma_collect_concat(others, own, from_none_of(paths));
            let left = collect(others, from_none_of(paths));
            assert(left + Seq::<ClassInfoView>::empty() =~= left);
        }
    }
}

/// A list of deletions: no style sheet holds anything now.
pub open spec fn nothing_is_left(updates: Seq<SheetUpdate>) -> bool {
    forall|i: int| 0 <= i < updates.len() ==> (#[trigger] updates[i]).content is None
}

proof fn lemma_rows_after_deletions(
    rows: ClassRows,
    rules: Seq<ClassInfoView>,
    updates: Seq<SheetUpdate>,
    name: Seq<char>,
)
    requires
        class_map_inv(rows),
        nothing_is_left(updates),
    ensures
        class_map_inv(rows_after(rows, updates)),
        definitions(rows_after(rows, updates), name) == collect(
            definitions(rows, name),
            from_none_of(changed_paths(updates)),
        ),
        rules_after(rules, updates) == collect(rules, from_none_of(changed_paths(updates))),
    decreases updates.len(),
{
    let paths = changed_paths(updates);
    if updates.len() == 0 {
        assert(paths.len() == 0);
        lemma_none_left_out(definitions(rows, name), paths);
        lemma_none_left_out(rules, paths);
    } else {
        let head = updates.drop_last();
        let SheetUpdate { path, content, .. } = updates.last();
        assert forall|i: int| 0 <= i < head.len() implies (#[trigger] head[i]).content is None by {
            assert(head[i] == updates[i]);
        }
        lemma_rows_after_deletions(rows, rules, head, name);
        assert(updates[updates.len() - 1].content is None);
        assert(changed_paths(head).push(path) =~= paths);
        law_forgetting_spares_other_files(rows_after(rows, head), path, name);
        lemma_leave_one_more_out(definitions(rows, name), changed_paths(head), path);
        lemma_leave_one_more_out(rules, changed_paths(head), path);
    }
}

proof fn lemma_none_left_out(infos: Seq<ClassInfoView>, paths: Seq<Seq<char>>)
    requires
        paths.len() == 0,
    ensures
        collect(infos, from_none_of(paths)) == infos,
    decreases infos.len(),
{
    if infos.len() > 0 {
        lemma_none_left_out(infos.drop_last(), paths);
        assert(infos.drop_last().push(infos.last()) =~= infos);
    } else {
        assert(collect(infos, from_none_of(paths)) =~= infos);
    }
}

/// A list of deletions leaves exactly what stands in none of the deleted style sheets: of every name
/// the other definitions, in their order, and of the rules the others. The map keeps its invariant,
/// so no name is left without a definition. Hearing of the same deletions again changes nothing.
/// Deletions of files that are no style sheets have no part in it.
pub proof fn law_deletions_drop_their_files(
    rows: ClassRows,
    rules: Seq<ClassInfoView>,
    updates: Seq<FileUpdateView>,
    name: Seq<char>,
)
    requires
        class_map_inv(rows),
        forall|i: int| 0 <= i < updates.len() ==> (#[trigger] updates[i]).change is Deleted,
    ensures
        ({
            let gone = css_updates(updates);
            let paths = changed_paths(gone);
            &&& class_map_inv(rows_after(rows, gone))
            &&& definitions(rows_after(rows, gone), name) == collect(
                definitions(rows, name),
                from_none_of(paths),
            )
            &&& rules_after(rules, gone) == collect(rules, from_none_of(paths))
            &&& definitions(rows_after(rows_after(rows, gone), gone), name) == definitions(
                rows_after(rows, gone),
                name,
            )
            &&& rules_after(rules_after(rules, gone), gone) == rules_after(rules, gone)
        }),
{
    let gone = css_updates(updates);
    let paths = changed_paths(gone);
    lemma_deletions_leave_nothing(updates);
    lemma_rows_after_deletions(rows, rules, gone, name);
    lemma_rows_after_deletions(rows_after(rows, gone), rules_after(rules, gone), gone, name);
    lemma_left_out_again(definitions(rows, name), paths);
    lemma_left_out_again(rules, paths);
}

proof fn lemma_deletions_leave_nothing(updates: Seq<FileUpdateView>)
    requires
        forall|i: int| 0 <= i < updates.len() ==> (#[trigger] updates[i]).change is Deleted,
    ensures
        nothing_is_left(css_updates(updates)),
    decreases updates.len(),
{
    if updates.len() > 0 {
        let head = updates.drop_last();
        assert forall|i: int| 0 <= i < head.len() implies (#[trigger] head[i]).change is Deleted by {
            assert(head[i] == updates[i]);
        }
        lemma_deletions_leave_nothing(head);
        let before = css_updates(head);
        let all = css_updates(updates);
        assert(updates[updates.len() - 1].change is Deleted);
        assert forall|i: int| 0 <= i < all.len() implies (#[trigger] all[i]).content is None by {
            if i < before.len() {
                assert(all[i] == before[i]);
            }
        }
    }
}

/// An animation that is defined in none of several files.
pub open spec fn keyframes_from_none_of(paths: Seq<Seq<char>>) -> spec_fn(
    (Seq<char>, KeyframeInfoView),
) -> Option<(Seq<char>, KeyframeInfoView)> {
    |row: (Seq<char>, KeyframeInfoView)|
        if !paths.contains(row.1.source_path) {
            Some(row)
        } else {
            None
        }
}

/// A list of deletions leaves exactly the animations that are defined in none of the deleted style
/// sheets.
pub proof fn law_deletions_drop_their_animations(
    rows: Seq<(Seq<char>, KeyframeInfoView)>,
    updates: Seq<FileUpdateView>,
)
    requires
        forall|i: int| 0 <= i < updates.len() ==> (#[trigger] updates[i]).change is Deleted,
    ensures
        keyframes_after(rows, css_updates(updates)) == collect(
            rows,
            keyframes_from_none_of(changed_paths(css_updates(updates))),
        ),
{
    lemma_deletions_leave_nothing(updates);
    lemma_keyframes_after_deletions(rows, css_updates(updates));
}

proof fn lemma_keyframes_after_deletions(
    rows: Seq<(Seq<char>, KeyframeInfoView)>,
    updates: Seq<SheetUpdate>,
)
    requires
        nothing_is_left(updates),
    ensures
        keyframes_after(rows, updates) == collect(
            rows,
            keyframes_from_none_of(changed_paths(updates)),
        ),
    decreases updates.len(),
{
    let paths = changed_paths(updates);
    if updates.len() == 0 {
        lemma_all_animations_stay(rows, paths);
    } else {
        let head = updates.drop_last();
        assert forall|i: int| 0 <= i < head.len() implies (#[trigger] head[i]).content is None by {
            assert(head[i] == updates[i]);
        }
        lemma_keyframes_after_deletions(rows, head);
        assert(updates[updates.len() - 1].content is None);
        assert(changed_paths(head).push(updates.last().path) =~= paths);
        lemma_one_more_file_of_animations(rows, changed_paths(head), updates.last().path);
    }
}

proof fn lemma_all_animations_stay(
    rows: Seq<(Seq<char>, KeyframeInfoView)>,
    paths: Seq<Seq<char>>,
)
    requires
        paths.len() == 0,
    ensures
        collect(rows, keyframes_from_none_of(paths)) == rows,
    decreases rows.len(),
{
    if rows.len() > 0 {
        lemma_all_animations_stay(rows.drop_last(), paths);
        assert(rows.drop_last().push(rows.last()) =~= rows);
    } else {
        assert(collect(rows, keyframes_from_none_of(paths)) =~= rows);
    }
}

proof fn lemma_one_more_file_of_animations(
    rows: Seq<(Seq<char>, KeyframeInfoView)>,
    paths: Seq<Seq<char>>,
    path: Seq<char>,
)
    ensures
        collect(collect(rows, keyframes_from_none_of(paths)), keyframes_not_from(path)) == collect(
            rows,
            keyframes_from_none_of(paths.push(path)),
        ),
    decreases rows.len(),
{
    if rows.len() > 0 {
        lemma_one_more_file_of_animations(rows.drop_last(), paths, path);
        let before = collect(rows.drop_last(), keyframes_from_none_of(paths));
        let last = rows.last();
        lemma_contains_push(paths, path, last.1.source_path);
        if !paths.contains(last.1.source_path) {
            assert(before.push(last).drop_last() =~= before);
        }
    }
}

} // verus!
