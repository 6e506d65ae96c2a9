//! Which style sheets are read, and which of them a document sees.

use crate::bytes::{lemma_boundary_ends, slice, slice_text};
use crate::collect::{collect, first_occurrences, lemma_collect_step, lemma_first_occurrences_push};
use crate::css::{rule_definitions, RuleView};
use crate::html::{Groups, Matches};
use crate::links::{extract_imports, imports};
use crate::model::{
    add_definitions, class_map_inv, clone_infos, definitions, law_adding_keeps_invariant,
    law_all_definitions_kept, opt_text, ClassInfo, ClassInfoView, ClassMap, ClassRows, KeyframeInfo,
    KeyframeInfoView, KeyframesMap,
};
use crate::paths::{
    file_name_of, file_of_uri, join, parent_of, path_file_name, path_join, path_parent, uri_to_file,
};
use crate::pattern::{
    all_groups, group_lists, has_groups, is_groups, is_match_list, regex_captures, whole, Patterns,
    KEYFRAMES_RE,
};
use crate::style::{
    all_blocks_closed, block_views, blocks_readable, extract_style_blocks, parse_style_blocks,
    style_blocks, with_block_rules, with_blocks,
};
use crate::table::{
    distinct_names, has_name, items_for, lemma_row_of, lemma_row_of_is, lookup, put, row_of, Table,
};
use crate::text::{
    chars_of, contains_text, count_newlines, line_number, newlines, same_text, texts, to_line,
};
use vstd::prelude::*;

verus! {

/// Style sheets larger than this are not read: they are minified bundles.
pub const MAX_CSS_BYTES: u64 = 512000;

/// A walk through style sheets and what they import. `pending` holds the paths still to be looked
/// at, the next one last; `visited` holds the resolved paths that were taken up.
pub struct Crawl {
    pending: Vec<String>,
    visited: Vec<String>,
}

impl Crawl {
    /// The paths still to be looked at, the next one last.
    pub closed spec fn pending(&self) -> Seq<Seq<char>> {
        texts(self.pending@)
    }

    /// The resolved paths that were taken up, in order.
    pub closed spec fn visited(&self) -> Seq<Seq<char>> {
        texts(self.visited@)
    }

    /// No file was taken up twice.
    pub open spec fn wf(&self) -> bool {
        self.visited().no_duplicates()
    }

    /// A walk that has not begun.
    pub fn new() -> (r: Crawl)
        ensures
            r.pending() == Seq::<Seq<char>>::empty(),
            r.visited() == Seq::<Seq<char>>::empty(),
            r.wf(),
    {
        let r = Crawl { pending: Vec::new(), visited: Vec::new() };
        proof {
            assert(r.pending() =~= Seq::<Seq<char>>::empty());
            assert(r.visited() =~= Seq::<Seq<char>>::empty());
        }
        r
    }

    /// Adds a path to look at next.
    pub fn start(&mut self, path: String)
        ensures
            final(self).pending() == old(self).pending().push(path@),
            final(self).visited() == old(self).visited(),
    {
        let ghost before = self.pending();
        self.pending.push(path);
        proof {
            assert(self.pending() =~= before.push(path@));
        }
    }

    /// The next path to look at.
    pub fn next(&mut self) -> (r: Option<String>)
        ensures
            r is Some == (old(self).pending().len() > 0),
            r is Some ==> (r->0)@ == old(self).pending().last() && final(self).pending() == old(
                self,
            ).pending().drop_last(),
            r is None ==> final(self).pending() == old(self).pending(),
            final(self).visited() == old(self).visited(),
    {
        let ghost before = self.pending();
        proof {
            assert(before.len() == self.pending@.len());
        }
        let r = self.pending.pop();
        proof {
            if r is Some {
                assert(self.pending() =~= before.drop_last());
            }
        }
        r
    }

    /// Takes up the file at a path, given its size and its resolved path as far as they could be
    /// found out: not if it is too large, nor if it does not resolve, nor if it was taken up
    /// before.
    pub fn take_up(&mut self, size: Option<u64>, resolved: &Option<String>) -> (r: bool)
        ensures
            r == may_take_up(size, opt_text(*resolved), old(self).visited()),
            final(self).pending() == old(self).pending(),
            r ==> final(self).visited() == old(self).visited().push(opt_text(*resolved)->0),
            !r ==> final(self).visited() == old(self).visited(),
            old(self).wf() ==> final(self).wf(),
    {
        let bytes: u64 = match size {
            Some(n) => n,
            None => 0,
        };
        if bytes > MAX_CSS_BYTES {
            return false;
        }
        let path = match resolved {
            Some(path) => path,
            None => {
                return false;
            },
        };
        if contains_text(&self.visited, path.as_str()) {
            return false;
        }
        let ghost before = self.visited();
        self.visited.push(path.clone());
        proof {
            assert(self.visited() =~= before.push(path@));
        }
        true
    }

    /// The resolved paths that were taken up, in order.
    pub fn into_visited(self) -> (r: Vec<String>)
        ensures
            texts(r@) == self.visited(),
    {
        self.visited
    }

    /// Adds the files that a style sheet imports, the first of them to be looked at first.
    pub fn follow(&mut self, patterns: &Patterns, path: &str, content: &str)
        ensures
            final(self).pending() == old(self).pending() + import_paths(
                path@,
                imports(content@),
            ).reverse(),
            final(self).visited() == old(self).visited(),
    {
        let files = extract_imports(patterns, content);
        self.follow_files(path, &files);
    }

    /// Adds the files that the style sheet at a path names, the first of them to be looked at
    /// first.
    pub fn follow_files(&mut self, path: &str, files: &Vec<String>)
        ensures
            final(self).pending() == old(self).pending() + import_paths(
                path@,
                texts(files@),
            ).reverse(),
            final(self).visited() == old(self).visited(),
    {
        let dir = match parent_of(path) {
            Some(dir) => dir,
            None => ".".to_owned(),
        };
        let n: usize = files.len();
        let ghost all = import_paths(path@, texts(files@));
        let ghost start = self.pending();
        let mut i: usize = 0;
        proof {
            assert(start + all.reverse().take(0) =~= start);
        }
        while i < n
            invariant
                i <= n,
                n == files@.len(),
                dir@ == base_dir(path@),
                all == import_paths(path@, texts(files@)),
                self.pending() == start + all.reverse().take(i as int),
                self.visited() == old(self).visited(),
            decreases n - i,
        {
            let ghost before = self.pending();
            let k: usize = n - 1 - i;
            self.start(join(dir.as_str(), files[k].as_str()));
            proof {
                assert(all[k as int] == path_join(dir@, files@[k as int]@));
                assert(all.reverse()[i as int] == all[k as int]);
                assert(self.pending() =~= start + all.reverse().take(i + 1));
            }
            i = i + 1;
        }
        proof {
            assert(all.reverse().take(n as int) =~= all.reverse());
        }
    }
}

/// A style sheet that was read: its path and its content.
#[derive(Debug)]
pub struct StyleSheet {
    pub path: String,
    pub content: String,
}

impl DeepView for StyleSheet {
    type V = (Seq<char>, Seq<char>);

    open spec fn deep_view(&self) -> (Seq<char>, Seq<char>) {
        (self.path@, self.content@)
    }
}

/// Keeps a style sheet that a walk has read; what it imports is to be looked at next.
pub fn keep_sheet(
    patterns: &Patterns,
    path: String,
    content: String,
    sheets: &mut Vec<StyleSheet>,
    crawl: &mut Crawl,
)
    ensures
        final(sheets).deep_view() == old(sheets).deep_view().push((path@, content@)),
        final(crawl).pending() == old(crawl).pending() + import_paths(
            path@,
            imports(content@),
        ).reverse(),
        final(crawl).visited() == old(crawl).visited(),
{
    crawl.follow(patterns, path.as_str(), content.as_str());
    let ghost before = sheets.deep_view();
    sheets.push(StyleSheet { path, content });
    proof {
        assert(sheets.deep_view() =~= before.push((path@, content@)));
    }
}

/// Whether a file may be taken up: it is not too large, it resolves to a path, and it was not taken
/// up before. A file whose size is not known counts as empty.
pub open spec fn may_take_up(
    size: Option<u64>,
    resolved: Option<Seq<char>>,
    visited: Seq<Seq<char>>,
) -> bool {
    &&& size is Some ==> size->0 <= MAX_CSS_BYTES
    &&& resolved is Some
    &&& !visited.contains(resolved->0)
}

/// The directory that a style sheet's imports are relative to.
pub open spec fn base_dir(path: Seq<char>) -> Seq<char> {
    match path_parent(path) {
        Some(dir) => dir,
        None => "."@,
    }
}

/// The paths of the files that a style sheet imports.
pub open spec fn import_paths(path: Seq<char>, files: Seq<Seq<char>>) -> Seq<Seq<char>> {
    files.map_values(|file: Seq<char>| path_join(base_dir(path), file))
}

/// Imports are followed before what was pending: the first file that a style sheet imports is the
/// next to be looked at, and the others come in order behind it.
pub proof fn law_imports_come_next(pending: Seq<Seq<char>>, paths: Seq<Seq<char>>)
    requires
        paths.len() > 0,
    ensures
        (pending + paths.reverse()).last() == paths[0],
        (pending + paths.reverse()).drop_last() == pending + paths.skip(1).reverse(),
{
    assert((pending + paths.reverse()).drop_last() =~= pending + paths.skip(1).reverse());
}

/// A chain of imports that leads back to a file taken up before ends there: the file is not taken
/// up again, and each file that is taken up is a new one. So of finitely many files no more are
/// taken up than there are.
pub proof fn law_cycles_end(
    files: Set<Seq<char>>,
    visited: Seq<Seq<char>>,
    size: Option<u64>,
    resolved: Option<Seq<char>>,
)
    requires
        files.finite(),
        visited.no_duplicates(),
        forall|i: int| 0 <= i < visited.len() ==> files.contains(#[trigger] visited[i]),
        may_take_up(size, resolved, visited),
        files.contains(resolved->0),
    ensures
        visited.push(resolved->0).no_duplicates(),
        visited.len() + 1 <= files.len(),
        !may_take_up(size, resolved, visited.push(resolved->0)),
{
    let after = visited.push(resolved->0);
    assert(after.no_duplicates());
    after.unique_seq_to_set();
    assert(after.to_set().subset_of(files)) by {
        assert forall|p: Seq<char>| after.to_set().contains(p) implies files.contains(p) by {
            let i = choose|i: int| 0 <= i < after.len() && after[i] == p;
            if i < visited.len() {
                assert(visited[i] == p);
            }
        }
    }
    vstd::set_lib::lemma_len_subset(after.to_set(), files);
    assert(after[after.len() - 1] == resolved->0);
}

/// The name of the file at a path; empty if it has none.
pub open spec fn source_name(path: Seq<char>) -> Seq<char> {
    match path_file_name(path) {
        Some(name) => name,
        None => ""@,
    }
}

/// The name of the file at a path.
pub fn source_name_of(path: &str) -> (r: String)
    ensures
        r@ == source_name(path@),
{
    match file_name_of(path) {
        Some(name) => name,
        None => "".to_owned(),
    }
}

/// The directory of the document at an address.
pub open spec fn document_dir(uri: Seq<char>) -> Option<Seq<char>> {
    match uri_to_file(uri) {
        Some(path) => path_parent(path),
        None => None,
    }
}

/// The directory of the document at an address.
pub fn directory_of_document(uri: &str) -> (r: Option<String>)
    ensures
        opt_text(r) == document_dir(uri@),
{
    match file_of_uri(uri) {
        Some(path) => parent_of(path.as_str()),
        None => None,
    }
}

/// Adds the paths of the style sheets that a document links to, the first of them to be looked at
/// first.
pub fn start_links(crawl: &mut Crawl, dir: &str, links: &Vec<String>)
    ensures
        final(crawl).pending() == old(crawl).pending() + links_in(dir@, texts(links@)).reverse(),
        final(crawl).visited() == old(crawl).visited(),
{
    let n: usize = links.len();
    let ghost all = links_in(dir@, texts(links@));
    let ghost start = crawl.pending();
    let mut i: usize = 0;
    proof {
        assert(start + all.reverse().take(0) =~= start);
    }
    while i < n
        invariant
            i <= n,
            n == links@.len(),
            all == links_in(dir@, texts(links@)),
            crawl.pending() == start + all.reverse().take(i as int),
            crawl.visited() == old(crawl).visited(),
        decreases n - i,
    {
        let k: usize = n - 1 - i;
        crawl.start(join(dir, links[k].as_str()));
        proof {
            assert(all[k as int] == path_join(dir@, links@[k as int]@));
            assert(all.reverse()[i as int] == all[k as int]);
            assert(crawl.pending() =~= start + all.reverse().take(i + 1));
        }
        i = i + 1;
    }
    proof {
        assert(all.reverse().take(n as int) =~= all.reverse());
    }
}

/// The paths of linked files.
pub open spec fn links_in(dir: Seq<char>, links: Seq<Seq<char>>) -> Seq<Seq<char>> {
    links.map_values(|link: Seq<char>| path_join(dir, link))
}

/// A definition that does not stand in a file.
pub open spec fn not_from(path: Seq<char>) -> spec_fn(ClassInfoView) -> Option<ClassInfoView> {
    |info: ClassInfoView|
        if info.source_path != path {
            Some(info)
        } else {
            None
        }
}

/// A name with its definitions that are kept, if there are any.
pub open spec fn row_kept(keep: spec_fn(ClassInfoView) -> Option<ClassInfoView>) -> spec_fn(
    (Seq<char>, Seq<ClassInfoView>),
) -> Option<(Seq<char>, Seq<ClassInfoView>)> {
    |row: (Seq<char>, Seq<ClassInfoView>)|
        {
            let left = collect(row.1, keep);
            if left.len() > 0 {
                Some((row.0, left))
            } else {
                None
            }
        }
}

/// A class map with only the definitions that are kept.
pub open spec fn kept_rows(
    rows: ClassRows,
    keep: spec_fn(ClassInfoView) -> Option<ClassInfoView>,
) -> ClassRows {
    collect(rows, row_kept(keep))
}

/// A class map without the definitions that stand in a file.
pub open spec fn without_source(rows: ClassRows, path: Seq<char>) -> ClassRows {
    kept_rows(rows, not_from(path))
}

/// The definitions of a list that do not stand in a file.
fn infos_without(infos: &Vec<ClassInfo>, path: &str) -> (r: Vec<ClassInfo>)
    ensures
        r.deep_view() == collect(infos.deep_view(), not_from(path@)),
{
    let n: usize = infos.len();
    let ghost all = infos.deep_view();
    let ghost f = not_from(path@);
    let mut r: Vec<ClassInfo> = Vec::new();
    let mut i: usize = 0;
    proof {
        assert(all.take(0) =~= seq![]);
        assert(r.deep_view() =~= seq![]);
    }
    while i < n
        invariant
            i <= n,
            n == infos@.len(),
            all == infos.deep_view(),
            f == not_from(path@),
            r.deep_view() == collect(all.take(i as int), f),
        decreases n - i,
    {
        let ghost before = r.deep_view();
        proof {
            lemma_collect_step(all, i as int, f);
            assert(all[i as int] == infos@[i as int].deep_view());
        }
        if !same_text(infos[i].source_path.as_str(), path) {
            r.push(infos[i].clone());
            proof {
                assert(r.deep_view() =~= before.push(all[i as int]));
            }
        }
        i = i + 1;
    }
    proof {
        assert(all.take(n as int) =~= all);
    }
    r
}

/// Drops the definitions and rules that stand in a file, and the names that are left without any.
pub fn forget_source(class_map: &mut ClassMap, path: &str)
    ensures
        final(class_map)@ == without_source(old(class_map)@, path@),
        final(class_map).rules() == collect(old(class_map).rules(), not_from(path@)),
{
    let n: usize = class_map.len();
    let ghost rows = class_map@;
    let ghost f = row_kept(not_from(path@));
    let mut kept: ClassMap = ClassMap::new();
    let mut k: usize = 0;
    proof {
        assert(rows.take(0) =~= seq![]);
        assert(kept@ =~= seq![]);
    }
    while k < n
        invariant
            k <= n,
            n == class_map@.len(),
            rows == class_map@,
            f == row_kept(not_from(path@)),
            kept@ == collect(rows.take(k as int), f),
        decreases n - k,
    {
        proof {
            lemma_collect_step(rows, k as int, f);
        }
        let left = infos_without(class_map.value_at(k), path);
        proof {
            assert(left.deep_view().len() == left@.len());
        }
        if left.len() > 0 {
            kept.push_row(class_map.name_at(k).clone(), left);
        }
        k = k + 1;
    }
    proof {
        assert(rows.take(n as int) =~= rows);
    }
    kept.set_rules(infos_without(class_map.all_rules(), path));
    *class_map = kept;
}

/// Keeping some definitions drops exactly the others: of each name those remain that are kept, in
/// their order. A map with its invariant keeps it.
pub proof fn lemma_kept_rows(
    rows: ClassRows,
    keep: spec_fn(ClassInfoView) -> Option<ClassInfoView>,
    name: Seq<char>,
)
    requires
        class_map_inv(rows),
    ensures
        definitions(kept_rows(rows, keep), name) == collect(
            definitions(rows, name),
            keep,
        ),
        class_map_inv(kept_rows(rows, keep)),
        !has_name(rows, name) ==> !has_name(kept_rows(rows, keep), name),
    decreases rows.len(),
{
    let f = row_kept(keep);
    if rows.len() == 0 {
        assert(collect(definitions(rows, name), keep) =~= seq![]);
        assert(kept_rows(rows, keep) =~= seq![]);
    } else {
        let head = rows.drop_last();
        let last = rows.last();
        assert(class_map_inv(head)) by {
            assert forall|i: int, j: int| 0 <= i < j < head.len() implies (#[trigger] head[i]).0
                != (#[trigger] head[j]).0 by {
                assert(rows[i] == head[i] && rows[j] == head[j]);
            }
            assert forall|i: int| 0 <= i < head.len() implies (#[trigger] head[i]).1.len() > 0 by {
                assert(rows[i] == head[i]);
            }
        }
        lemma_kept_rows(head, keep, name);
        lemma_kept_rows(head, keep, last.0);
        let before = kept_rows(head, keep);
        let after = kept_rows(rows, keep);
        let left = collect(last.1, keep);
        assert(!has_name(head, last.0)) by {
            if has_name(head, last.0) {
                let i = choose|i: int| 0 <= i < head.len() && (#[trigger] head[i]).0 == last.0;
                assert(rows[i].0 == rows[rows.len() - 1].0);
            }
        }
        lemma_row_of(head, name);
        lemma_row_of(rows, name);
        lemma_row_of(before, name);
        lemma_row_of(before, last.0);
        lemma_row_of(after, name);
        if left.len() > 0 {
            assert(after =~= before.push((last.0, left)));
            assert(distinct_names(after)) by {
                assert forall|i: int, j: int| 0 <= i < j < after.len() implies (
                #[trigger] after[i]).0 != (#[trigger] after[j]).0 by {
                    assert(after[i] == before[i]);
                    if j < before.len() {
                        assert(after[j] == before[j]);
                    }
                }
            }
            assert forall|i: int| 0 <= i < after.len() implies (#[trigger] after[i]).1.len() > 0 by {
                if i < before.len() {
                    assert(after[i] == before[i]);
                }
            }
        } else {
            assert(after =~= before);
        }
        if name == last.0 {
            assert forall|j: int| 0 <= j < rows.len() - 1 implies (#[trigger] rows[j]).0
                != name by {
                assert(head[j] == rows[j]);
            }
            lemma_row_of_is(rows, name, rows.len() - 1);
            if left.len() > 0 {
                assert forall|j: int| 0 <= j < before.len() implies (#[trigger] after[j]).0
                    != name by {
                    assert(before[j] == after[j]);
                }
                lemma_row_of_is(after, name, before.len() as int);
            } else {
                assert(left =~= seq![]);
            }
        } else {
            let r = row_of(head, name);
            if r < head.len() {
                assert(rows[r] == head[r]);
                assert forall|j: int| 0 <= j < r implies (#[trigger] rows[j]).0 != name by {
                    assert(head[j] == rows[j]);
                }
                lemma_row_of_is(rows, name, r);
            } else {
                assert forall|j: int| 0 <= j < rows.len() implies (#[trigger] rows[j]).0
                    != name by {
                    if j < head.len() {
                        assert(head[j] == rows[j]);
                    }
                }
                lemma_row_of_is(rows, name, rows.len() as int);
            }
            let b = row_of(before, name);
            if b < before.len() {
                assert(after[b] == before[b]);
                assert forall|j: int| 0 <= j < b implies (#[trigger] after[j]).0 != name by {
                    assert(before[j] == after[j]);
                }
                lemma_row_of_is(after, name, b);
            } else {
                assert forall|j: int| 0 <= j < after.len() implies (#[trigger] after[j]).0
                    != name by {
                    if j < before.len() {
                        assert(before[j] == after[j]);
                    }
                }
                lemma_row_of_is(after, name, after.len() as int);
            }
        }
    }
}

/// Forgetting a file drops exactly its definitions: of each name those remain that stand elsewhere,
/// in their order. A map with its invariant keeps it.
pub proof fn law_forgetting_spares_other_files(rows: ClassRows, path: Seq<char>, name: Seq<char>)
    requires
        class_map_inv(rows),
    ensures
        definitions(without_source(rows, path), name) == collect(
            definitions(rows, name),
            not_from(path),
        ),
        class_map_inv(without_source(rows, path)),
{
    lemma_kept_rows(rows, not_from(path), name);
}

/// Collecting from two lists in a row.
pub proof fn lemma_collect_concat<A, B>(s: Seq<A>, t: Seq<A>, f: spec_fn(A) -> Option<B>)
    ensures
        collect(s + t, f) == collect(s, f) + collect(t, f),
    decreases t.len(),
{
    if t.len() == 0 {
        assert(s + t =~= s);
        assert(collect(s, f) + collect(t, f) =~= collect(s, f));
    } else {
        lemma_collect_concat(s, t.drop_last(), f);
        assert((s + t).drop_last() =~= s + t.drop_last());
        assert((s + t).last() == t.last());
        assert(collect(s + t, f) =~= collect(s, f) + collect(t, f));
    }
}

/// Of definitions that all stand in a file none remains without it.
proof fn lemma_none_remains(infos: Seq<ClassInfoView>, path: Seq<char>)
    requires
        forall|i: int| 0 <= i < infos.len() ==> (#[trigger] infos[i]).source_path == path,
    ensures
        collect(infos, not_from(path)) == Seq::<ClassInfoView>::empty(),
    decreases infos.len(),
{
    if infos.len() > 0 {
        assert forall|i: int| 0 <= i < infos.drop_last().len() implies (
        #[trigger] infos.drop_last()[i]).source_path == path by {
            assert(infos[i] == infos.drop_last()[i]);
        }
        lemma_none_remains(infos.drop_last(), path);
        assert(infos[infos.len() - 1].source_path == path);
    }
}

/// What is left without a file stays as it is when the file is left out again.
proof fn lemma_left_out_twice(infos: Seq<ClassInfoView>, path: Seq<char>)
    ensures
        collect(collect(infos, not_from(path)), not_from(path)) == collect(infos, not_from(path)),
    decreases infos.len(),
{
    if infos.len() > 0 {
        lemma_left_out_twice(infos.drop_last(), path);
        let before = collect(infos.drop_last(), not_from(path));
        if infos.last().source_path != path {
            assert(before.push(infos.last()).drop_last() =~= before);
        }
    }
}

/// The definitions that a list adds to a name come from the list.
pub proof fn lemma_items_come_from(
    added: Seq<(Seq<char>, ClassInfoView)>,
    name: Seq<char>,
    path: Seq<char>,
)
    requires
        forall|i: int| 0 <= i < added.len() ==> (#[trigger] added[i]).1.source_path == path,
    ensures
        forall|i: int|
            0 <= i < items_for(added, name).len() ==> (#[trigger] items_for(added, name)[i]).source_path
                == path,
    decreases added.len(),
{
    if added.len() > 0 {
        let head = added.drop_last();
        assert forall|i: int| 0 <= i < head.len() implies (#[trigger] head[i]).1.source_path
            == path by {
            assert(added[i] == head[i]);
        }
        lemma_items_come_from(head, name, path);
        assert(added[added.len() - 1].1.source_path == path);
        let all = items_for(added, name);
        assert forall|i: int| 0 <= i < all.len() implies (#[trigger] all[i]).source_path == path by {
            if i < items_for(head, name).len() {
                assert(all[i] == items_for(head, name)[i]);
            }
        }
    }
}

/// A class map after a file was read anew: what it defined before is dropped, and what it defines
/// now is added.
pub open spec fn updated(
    rows: ClassRows,
    path: Seq<char>,
    added: Seq<(Seq<char>, ClassInfoView)>,
) -> ClassRows {
    add_definitions(without_source(rows, path), added)
}

/// Reading a file anew replaces its definitions and no others: a name has the definitions that
/// stand elsewhere, followed by those that the file makes now. Reading it once more changes nothing.
pub proof fn law_update_replaces_one_file(
    rows: ClassRows,
    path: Seq<char>,
    added: Seq<(Seq<char>, ClassInfoView)>,
    name: Seq<char>,
)
    requires
        class_map_inv(rows),
        forall|i: int| 0 <= i < added.len() ==> (#[trigger] added[i]).1.source_path == path,
    ensures
        class_map_inv(updated(rows, path, added)),
        definitions(updated(rows, path, added), name) == collect(
            definitions(rows, name),
            not_from(path),
        ) + items_for(added, name),
        definitions(updated(updated(rows, path, added), path, added), name) == definitions(
            updated(rows, path, added),
            name,
        ),
{
    law_forgetting_spares_other_files(rows, path, name);
    law_adding_keeps_invariant(without_source(rows, path), added);
    law_all_definitions_kept(without_source(rows, path), added, name);
    let once = updated(rows, path, added);
    law_forgetting_spares_other_files(once, path, name);
    law_all_definitions_kept(without_source(once, path), added, name);
    let others = collect(definitions(rows, name), not_from(path));
    let own = items_for(added, name);
    lemma_items_come_from(added, name, path);
    lemma_none_remains(own, path);
    lemma_left_out_twice(definitions(rows, name), path);
    lemma_collect_concat(others, own, not_from(path));
    assert(others + Seq::<ClassInfoView>::empty() =~= others);
}

/// Every definition that a style sheet makes names the style sheet as its source.
pub proof fn law_definitions_name_their_source(
    rules: Seq<RuleView>,
    source_file: Seq<char>,
    source_path: Seq<char>,
)
    ensures
        forall|i: int|
            0 <= i < rule_definitions(rules, source_file, source_path).len() ==> (
            #[trigger] rule_definitions(rules, source_file, source_path)[i]).1.source_path
                == source_path,
    decreases rules.len(),
{
    if rules.len() > 0 {
        law_definitions_name_their_source(rules.drop_last(), source_file, source_path);
        let head = rule_definitions(rules.drop_last(), source_file, source_path);
        let all = rule_definitions(rules, source_file, source_path);
        assert forall|i: int| 0 <= i < all.len() implies (#[trigger] all[i]).1.source_path
            == source_path by {
            if i < head.len() {
                assert(all[i] == head[i]);
            }
        }
    }
}

/// The paths of the style sheets that the rules of a class map stand in, each once.
pub open spec fn rule_files(rules: Seq<ClassInfoView>) -> Seq<Seq<char>> {
    first_occurrences(rules.map_values(|i: ClassInfoView| i.source_path))
}

/// The paths of the style sheets that the rules of a class map stand in, each once.
pub fn source_files(class_map: &ClassMap) -> (r: Vec<String>)
    ensures
        texts(r@) == rule_files(class_map.rules()),
{
    let rules = class_map.all_rules();
    let n: usize = rules.len();
    let ghost all = rules.deep_view().map_values(|i: ClassInfoView| i.source_path);
    let mut r: Vec<String> = Vec::new();
    let mut i: usize = 0;
    proof {
        assert(all.take(0) =~= seq![]);
        assert(texts(r@) =~= seq![]);
    }
    while i < n
        invariant
            i <= n,
            n == rules@.len(),
            all == rules.deep_view().map_values(|i: ClassInfoView| i.source_path),
            texts(r@) == first_occurrences(all.take(i as int)),
        decreases n - i,
    {
        let path = rules[i].source_path.as_str();
        let ghost before = texts(r@);
        proof {
            assert(all[i as int] == path@);
            lemma_first_occurrences_push(all.take(i as int), path@);
            assert(all.take(i as int).push(path@) =~= all.take(i + 1));
        }
        if !contains_text(&r, path) {
            r.push(path.to_owned());
            proof {
                assert(texts(r@) =~= before.push(path@));
            }
        }
        i = i + 1;
    }
    proof {
        assert(all.take(n as int) =~= all);
    }
    r
}

/// Whether the file that a path stands for is among those reached. `resolved` holds the paths that
/// could be resolved.
pub open spec fn reaches(
    path: Seq<char>,
    resolved: Seq<(Seq<char>, Seq<char>)>,
    reachable: Seq<Seq<char>>,
) -> bool {
    match lookup(resolved, path) {
        Some(file) => reachable.contains(file),
        None => false,
    }
}

/// Whether the file that a path stands for is among those reached.
pub fn is_reachable(path: &str, resolved: &Table<String>, reachable: &Vec<String>) -> (r: bool)
    ensures
        r == reaches(path@, resolved@, texts(reachable@)),
{
    match resolved.get(path) {
        Some(file) => contains_text(reachable, file.as_str()),
        None => false,
    }
}

/// A path whose file is among those reached.
pub open spec fn path_in_scope(
    resolved: Seq<(Seq<char>, Seq<char>)>,
    reachable: Seq<Seq<char>>,
) -> spec_fn(Seq<char>) -> Option<Seq<char>> {
    |path: Seq<char>|
        if reaches(path, resolved, reachable) {
            Some(path)
        } else {
            None
        }
}

/// The paths of a list whose files are among those reached.
pub fn linked_files(files: &Vec<String>, resolved: &Table<String>, reachable: &Vec<String>) -> (r: Vec<
    String,
>)
    ensures
        texts(r@) == collect(texts(files@), path_in_scope(resolved@, texts(reachable@))),
{
    let n: usize = files.len();
    let ghost all = texts(files@);
    let ghost f = path_in_scope(resolved@, texts(reachable@));
    let mut r: Vec<String> = Vec::new();
    let mut i: usize = 0;
    proof {
        assert(all.take(0) =~= seq![]);
        assert(texts(r@) =~= seq![]);
    }
    while i < n
        invariant
            i <= n,
            n == files@.len(),
            all == texts(files@),
            f == path_in_scope(resolved@, texts(reachable@)),
            texts(r@) == collect(all.take(i as int), f),
        decreases n - i,
    {
        let ghost before = texts(r@);
        proof {
            lemma_collect_step(all, i as int, f);
            assert(all[i as int] == files@[i as int]@);
        }
        if is_reachable(files[i].as_str(), resolved, reachable) {
            r.push(files[i].clone());
            proof {
                assert(texts(r@) =~= before.push(files@[i as int]@));
            }
        }
        i = i + 1;
    }
    proof {
        assert(all.take(n as int) =~= all);
    }
    r
}

/// A definition that stands in a file that is reached.
pub open spec fn in_scope(
    resolved: Seq<(Seq<char>, Seq<char>)>,
    reachable: Seq<Seq<char>>,
) -> spec_fn(ClassInfoView) -> Option<ClassInfoView> {
    |info: ClassInfoView|
        if reaches(info.source_path, resolved, reachable) {
            Some(info)
        } else {
            None
        }
}

/// A class map with only the definitions that stand in files that are reached.
pub open spec fn scoped_rows(
    rows: ClassRows,
    resolved: Seq<(Seq<char>, Seq<char>)>,
    reachable: Seq<Seq<char>>,
) -> ClassRows {
    kept_rows(rows, in_scope(resolved, reachable))
}

/// A document sees of each name exactly the definitions in the files it reaches.
pub proof fn law_scope_keeps_reached_files(
    rows: ClassRows,
    resolved: Seq<(Seq<char>, Seq<char>)>,
    reachable: Seq<Seq<char>>,
    name: Seq<char>,
)
    requires
        class_map_inv(rows),
    ensures
        definitions(scoped_rows(rows, resolved, reachable), name) == collect(
            definitions(rows, name),
            in_scope(resolved, reachable),
        ),
        class_map_inv(scoped_rows(rows, resolved, reachable)),
{
    lemma_kept_rows(rows, in_scope(resolved, reachable), name);
}

/// The definitions of a list that stand in files that are reached.
fn infos_in_scope(
    infos: &Vec<ClassInfo>,
    resolved: &Table<String>,
    reachable: &Vec<String>,
) -> (r: Vec<ClassInfo>)
    ensures
        r.deep_view() == collect(infos.deep_view(), in_scope(resolved@, texts(reachable@))),
{
    let n: usize = infos.len();
    let ghost all = infos.deep_view();
    let ghost f = in_scope(resolved@, texts(reachable@));
    let mut r: Vec<ClassInfo> = Vec::new();
    let mut i: usize = 0;
    proof {
        assert(all.take(0) =~= seq![]);
        assert(r.deep_view() =~= seq![]);
    }
    while i < n
        invariant
            i <= n,
            n == infos@.len(),
            all == infos.deep_view(),
            f == in_scope(resolved@, texts(reachable@)),
            r.deep_view() == collect(all.take(i as int), f),
        decreases n - i,
    {
        let ghost before = r.deep_view();
        proof {
            lemma_collect_step(all, i as int, f);
            assert(all[i as int] == infos@[i as int].deep_view());
        }
        if is_reachable(infos[i].source_path.as_str(), resolved, reachable) {
            r.push(infos[i].clone());
            proof {
                assert(r.deep_view() =~= before.push(all[i as int]));
            }
        }
        i = i + 1;
    }
    proof {
        assert(all.take(n as int) =~= all);
    }
    r
}

/// The class map with only the definitions that stand in files that are reached. There is none if
/// no file is reached: the whole map counts then.
pub fn build_scoped_class_map(
    class_map: &ClassMap,
    resolved: &Table<String>,
    reachable: &Vec<String>,
) -> (r: Option<ClassMap>)
    ensures
        r is Some == (reachable@.len() > 0),
        r is Some ==> (r->0)@ == scoped_rows(class_map@, resolved@, texts(reachable@)),
        r is Some ==> (r->0).rules() == collect(
            class_map.rules(),
            in_scope(resolved@, texts(reachable@)),
        ),
{
    if reachable.len() == 0 {
        return None;
    }
    let n: usize = class_map.len();
    let ghost rows = class_map@;
    let ghost f = row_kept(in_scope(resolved@, texts(reachable@)));
    let mut scoped: ClassMap = ClassMap::new();
    let mut k: usize = 0;
    proof {
        assert(rows.take(0) =~= seq![]);
        assert(scoped@ =~= seq![]);
    }
    while k < n
        invariant
            k <= n,
            n == class_map@.len(),
            rows == class_map@,
            f == row_kept(in_scope(resolved@, texts(reachable@))),
            scoped@ == collect(rows.take(k as int), f),
        decreases n - k,
    {
        proof {
            lemma_collect_step(rows, k as int, f);
        }
        let left = infos_in_scope(class_map.value_at(k), resolved, reachable);
        proof {
            assert(left.deep_view().len() == left@.len());
        }
        if left.len() > 0 {
            scoped.push_row(class_map.name_at(k).clone(), left);
        }
        k = k + 1;
    }
    proof {
        assert(rows.take(n as int) =~= rows);
    }
    scoped.set_rules(infos_in_scope(class_map.all_rules(), resolved, reachable));
    Some(scoped)
}

/// A copy of a class map.
pub fn copy_map(class_map: &ClassMap) -> (r: ClassMap)
    ensures
        r@ == class_map@,
        r.rules() == class_map.rules(),
{
    let n: usize = class_map.len();
    let mut r: ClassMap = ClassMap::new();
    let mut k: usize = 0;
    proof {
        assert(r@ =~= class_map@.take(0));
    }
    while k < n
        invariant
            k <= n,
            n == class_map@.len(),
            r@ == class_map@.take(k as int),
        decreases n - k,
    {
        r.push_row(class_map.name_at(k).clone(), clone_infos(class_map.value_at(k)));
        proof {
            assert(r@ =~= class_map@.take(k + 1));
        }
        k = k + 1;
    }
    proof {
        assert(r@ =~= class_map@);
    }
    r.set_rules(clone_infos(class_map.all_rules()));
    r
}

/// The rules that a document sees: those of the style sheets it reaches, or of all if it reaches
/// none, and those of its own `<style>` blocks.
pub open spec fn document_rules(
    rules: Seq<ClassInfoView>,
    resolved: Seq<(Seq<char>, Seq<char>)>,
    reachable: Seq<Seq<char>>,
    blocks: Seq<(u32, Seq<char>)>,
    path: Seq<char>,
) -> Seq<ClassInfoView> {
    with_block_rules(
        if reachable.len() == 0 {
            rules
        } else {
            collect(rules, in_scope(resolved, reachable))
        },
        blocks,
        source_name(path),
        path,
        blocks.len() as int,
    )
}

/// What a document sees: the style sheets it reaches through its links, or all of them if it
/// reaches none, and its own `<style>` blocks. There is nothing of its own if it reaches no style
/// sheet and has no block.
pub open spec fn document_rows(
    rows: ClassRows,
    resolved: Seq<(Seq<char>, Seq<char>)>,
    reachable: Seq<Seq<char>>,
    blocks: Seq<(u32, Seq<char>)>,
    path: Seq<char>,
) -> Option<ClassRows> {
    if reachable.len() == 0 && blocks.len() == 0 {
        None
    } else {
        Some(
            with_blocks(
                if reachable.len() == 0 {
                    rows
                } else {
                    scoped_rows(rows, resolved, reachable)
                },
                blocks,
                source_name(path),
                path,
                blocks.len() as int,
            ),
        )
    }
}

/// What a document sees, given its `<style>` blocks.
pub fn scope_with_blocks(
    patterns: &Patterns,
    class_map: &ClassMap,
    resolved: &Table<String>,
    reachable: &Vec<String>,
    blocks: &Vec<(u32, String)>,
    path: &str,
) -> (r: Option<ClassMap>)
    requires
        blocks_readable(block_views(blocks@)),
    ensures
        r is Some == (document_rows(
            class_map@,
            resolved@,
            texts(reachable@),
            block_views(blocks@),
            path@,
        ) is Some),
        r is Some ==> (r->0)@ == document_rows(
            class_map@,
            resolved@,
            texts(reachable@),
            block_views(blocks@),
            path@,
        )->0,
        r is Some ==> (r->0).rules() == document_rules(
            class_map.rules(),
            resolved@,
            texts(reachable@),
            block_views(blocks@),
            path@,
        ),
{
    proof {
        assert(texts(reachable@).len() == reachable@.len());
        assert(block_views(blocks@).len() == blocks@.len());
    }
    if reachable.len() == 0 && blocks.len() == 0 {
        return None;
    }
    let mut map = match build_scoped_class_map(class_map, resolved, reachable) {
        Some(map) => map,
        None => copy_map(class_map),
    };
    let name = source_name_of(path);
    parse_style_blocks(patterns, blocks, name.as_str(), path, &mut map);
    Some(map)
}

/// The class map of a document.
pub enum DocumentScope {
    /// The document has nothing of its own: the map of the workspace counts.
    Workspace,
    /// The document's own map.
    Own(ClassMap),
    /// A `<style>` block of the document holds a string inside a block that is not closed.
    Unreadable,
}

/// Builds the class map of the document at a path. `reachable` lists the resolved paths of the
/// style sheets it reaches through its links.
pub fn build_document_class_map(
    patterns: &Patterns,
    class_map: &ClassMap,
    resolved: &Table<String>,
    reachable: &Vec<String>,
    text: &str,
    path: &str,
) -> (r: DocumentScope)
    ensures
        r is Unreadable == !blocks_readable(style_blocks(text@)),
        blocks_readable(style_blocks(text@)) ==> {
            let own = document_rows(
                class_map@,
                resolved@,
                texts(reachable@),
                style_blocks(text@),
                path@,
            );
            match r {
                DocumentScope::Own(map) => own == Some(map@) && map.rules() == document_rules(
                    class_map.rules(),
                    resolved@,
                    texts(reachable@),
                    style_blocks(text@),
                    path@,
                ),
                _ => own is None,
            }
        },
{
    let blocks = extract_style_blocks(patterns, text);
    if !all_blocks_closed(&blocks) {
        return DocumentScope::Unreadable;
    }
    match scope_with_blocks(patterns, class_map, resolved, reachable, &blocks, path) {
        Some(map) => DocumentScope::Own(map),
        None => DocumentScope::Workspace,
    }
}

/// The animation that a match in a style sheet defines: its name, and where.
pub open spec fn keyframes_entry(
    content: Seq<char>,
    groups: Groups,
    source_file: Seq<char>,
    source_path: Seq<char>,
) -> (Seq<char>, KeyframeInfoView) {
    (
        slice(content, (groups[1]->0).0 as int, (groups[1]->0).1 as int),
        KeyframeInfoView {
            source_file,
            source_path,
            definition_line: line_number(
                newlines(slice(content, 0, whole(groups).0 as int)) as int,
            ),
        },
    )
}

/// The table with the animations added that the first `k` matches define; the last definition of a
/// name counts.
pub open spec fn with_keyframes(
    rows: Seq<(Seq<char>, KeyframeInfoView)>,
    content: Seq<char>,
    matches: Seq<Groups>,
    source_file: Seq<char>,
    source_path: Seq<char>,
    k: int,
) -> Seq<(Seq<char>, KeyframeInfoView)>
    decreases k,
{
    if k <= 0 {
        rows
    } else {
        let before = with_keyframes(rows, content, matches, source_file, source_path, k - 1);
        let entry = keyframes_entry(content, matches[k - 1], source_file, source_path);
        put(before, entry.0, entry.1)
    }
}

/// The table with the animations added that a style sheet defines.
pub open spec fn with_animations(
    rows: Seq<(Seq<char>, KeyframeInfoView)>,
    path: Seq<char>,
    content: Seq<char>,
) -> Seq<(Seq<char>, KeyframeInfoView)> {
    with_keyframes(
        rows,
        content,
        regex_captures(KEYFRAMES_RE@, content),
        source_name(path),
        path,
        regex_captures(KEYFRAMES_RE@, content).len() as int,
    )
}

/// Adds the animations that the matches in a style sheet define.
pub fn add_keyframes(
    content: &str,
    matches: &Matches,
    source_file: &str,
    source_path: &str,
    keyframes: &mut KeyframesMap,
)
    requires
        is_match_list(content@, group_lists(matches@)),
        forall|i: int| 0 <= i < matches@.len() ==> all_groups((#[trigger] matches@[i])@, 1),
    ensures
        final(keyframes)@ == with_keyframes(
            old(keyframes)@,
            content@,
            group_lists(matches@),
            source_file@,
            source_path@,
            matches@.len() as int,
        ),
{
    let n: usize = matches.len();
    let mut k: usize = 0;
    while k < n
        invariant
            k <= n,
            n == matches@.len(),
            is_match_list(content@, group_lists(matches@)),
            forall|i: int| 0 <= i < matches@.len() ==> all_groups((#[trigger] matches@[i])@, 1),
            keyframes@ == with_keyframes(
                old(keyframes)@,
                content@,
                group_lists(matches@),
                source_file@,
                source_path@,
                k as int,
            ),
        decreases n - k,
    {
        let ghost groups = matches@[k as int]@;
        proof {
            assert(group_lists(matches@)[k as int] == groups);
            assert(is_groups(content@, groups));
            assert(groups[0] is Some);
            assert(groups[1] is Some);
            lemma_boundary_ends(content@);
        }
        let start: usize = match matches[k][0] {
            Some(span) => span.0,
            None => 0,
        };
        let (from, to): (usize, usize) = match matches[k][1] {
            Some(span) => span,
            None => (0, 0),
        };
        let name = slice_text(content, from, to);
        let head = slice_text(content, 0, start);
        let head_chars = chars_of(head.as_str());
        let line: u32 = to_line(count_newlines(head_chars.as_slice()) as u128);
        let info = KeyframeInfo {
            source_file: source_file.to_owned(),
            source_path: source_path.to_owned(),
            definition_line: line,
        };
        keyframes.insert(name, info);
        k = k + 1;
    }
}

/// Adds the animations that the style sheet at a path defines.
pub fn scan_keyframes_content(
    patterns: &Patterns,
    content: &str,
    path: &str,
    keyframes: &mut KeyframesMap,
)
    ensures
        final(keyframes)@ == with_animations(old(keyframes)@, path@, content@),
{
    let matches = patterns.keyframes_re().captures_all(content);
    proof {
        assert(has_groups(KEYFRAMES_RE@, 1));
        assert forall|i: int| 0 <= i < matches@.len() implies all_groups(
            (#[trigger] matches@[i])@,
            1,
        ) by {
        }
        assert(group_lists(matches@).len() == matches@.len());
    }
    let name = source_name_of(path);
    add_keyframes(content, &matches, name.as_str(), path, keyframes);
}

/// Reads the animations of a style sheet during a walk; what it imports is to be looked at next.
pub fn read_animations(
    patterns: &Patterns,
    path: &str,
    content: &str,
    keyframes: &mut KeyframesMap,
    crawl: &mut Crawl,
)
    ensures
        final(keyframes)@ == with_animations(old(keyframes)@, path@, content@),
        final(crawl).pending() == old(crawl).pending() + import_paths(
            path@,
            imports(content@),
        ).reverse(),
        final(crawl).visited() == old(crawl).visited(),
{
    scan_keyframes_content(patterns, content, path, keyframes);
    crawl.follow(patterns, path, content);
}

/// An animation that is not defined in a file.
pub open spec fn keyframes_not_from(path: Seq<char>) -> spec_fn((Seq<char>, KeyframeInfoView)) -> Option<
    (Seq<char>, KeyframeInfoView),
> {
    |row: (Seq<char>, KeyframeInfoView)|
        if row.1.source_path != path {
            Some(row)
        } else {
            None
        }
}

/// Drops the animations that are defined in a file.
pub fn forget_keyframes(keyframes: &mut KeyframesMap, path: &str)
    ensures
        final(keyframes)@ == collect(old(keyframes)@, keyframes_not_from(path@)),
{
    let n: usize = keyframes.len();
    let ghost rows = keyframes@;
    let ghost f = keyframes_not_from(path@);
    let mut kept: KeyframesMap = Table::new();
    let mut k: usize = 0;
    proof {
        assert(rows.take(0) =~= seq![]);
        assert(kept@ =~= seq![]);
    }
    while k < n
        invariant
            k <= n,
            n == keyframes@.len(),
            rows == keyframes@,
            f == keyframes_not_from(path@),
            kept@ == collect(rows.take(k as int), f),
        decreases n - k,
    {
        proof {
            lemma_collect_step(rows, k as int, f);
        }
        let info = keyframes.value_at(k);
        if !same_text(info.source_path.as_str(), path) {
            kept.push_row(keyframes.name_at(k).clone(), info.clone());
        }
        k = k + 1;
    }
    proof {
        assert(rows.take(n as int) =~= rows);
    }
    *keyframes = kept;
}

} // verus!
