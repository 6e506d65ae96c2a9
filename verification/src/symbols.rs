//! Outlines, symbol search and usage counts.

use crate::collect::{collect, lemma_collect, lemma_collect_step};
use crate::html::{html_refs, html_selector_refs, RefView, SelectorRef};
use crate::model::{opt_text, ClassInfo, ClassInfoView, ClassMap, ClassRows, DocumentMap};
use crate::order::{at_most, is_sorting, law_text_order_is_linear, sort, text_at_most, Ranked};
use crate::paths::{
    file_of_uri, file_to_uri, is_css_extension, is_css_path, path_extension, uri_of_file,
    uri_to_file,
};
use crate::pattern::Patterns;
use crate::references::{key_of_ref, ref_key};
use crate::table::{lemma_put, lookup, put, Table};
use crate::text::{
    concat3, contains_sub, decimal, decimal_text, lowercase, occurs, same_text, starts_with, texts,
};
use vstd::prelude::*;
use vstd::string::StringExecFns;

verus! {

/// A filed name as a selector writes it.
pub open spec fn display_name(name: Seq<char>) -> Seq<char> {
    if "#"@.is_prefix_of(name) {
        name
    } else {
        "."@ + name
    }
}

/// A filed name as a selector writes it.
pub fn show_name(name: &str) -> (r: String)
    ensures
        r@ == display_name(name@),
{
    if starts_with(name, "#") {
        name.to_owned()
    } else {
        let mut r = ".".to_owned();
        r.append(name);
        r
    }
}

/// A selector in the outline of a style sheet.
#[derive(Debug)]
pub struct OutlineSymbol {
    pub name: String,
    pub line: u32,
    pub container: Option<String>,
}

/// What an `OutlineSymbol` says.
#[verifier::ext_equal]
pub ghost struct OutlineSymbolView {
    pub name: Seq<char>,
    pub line: u32,
    pub container: Option<Seq<char>>,
}

impl DeepView for OutlineSymbol {
    type V = OutlineSymbolView;

    open spec fn deep_view(&self) -> OutlineSymbolView {
        OutlineSymbolView {
            name: self.name@,
            line: self.line,
            container: opt_text(self.container),
        }
    }
}

impl Ranked for OutlineSymbol {
    open spec fn ranked(a: OutlineSymbolView, b: OutlineSymbolView) -> bool {
        a.line <= b.line
    }

    proof fn ranked_total(a: OutlineSymbolView, b: OutlineSymbolView) {
    }

    proof fn ranked_transitive(a: OutlineSymbolView, b: OutlineSymbolView, c: OutlineSymbolView) {
    }

    fn may_precede(&self, other: &Self) -> (r: bool) {
        self.line <= other.line
    }
}

/// What a definition stands in: its conditional group and its layer.
pub open spec fn container(info: ClassInfoView) -> Option<Seq<char>> {
    match (info.media_query, info.layer) {
        (Some(mq), Some(l)) => Some(mq + " • @layer "@ + l),
        (Some(mq), None) => Some(mq),
        (None, Some(l)) => Some("@layer "@ + l),
        (None, None) => None,
    }
}

/// What a definition stands in.
fn show_container(info: &ClassInfo) -> (r: Option<String>)
    ensures
        opt_text(r) == container(info.deep_view()),
{
    match (&info.media_query, &info.layer) {
        (Some(mq), Some(l)) => Some(concat3(mq.as_str(), " • @layer ", l.as_str())),
        (Some(mq), None) => Some(mq.clone()),
        (None, Some(l)) => {
            let mut r = "@layer ".to_owned();
            r.append(l.as_str());
            Some(r)
        },
        (None, None) => None,
    }
}

/// The outline entry of a definition, if it stands in the file.
pub open spec fn outline_entry(name: Seq<char>, path: Seq<char>) -> spec_fn(ClassInfoView) -> Option<
    OutlineSymbolView,
> {
    |info: ClassInfoView|
        if info.source_path == path {
            Some(
                OutlineSymbolView {
                    name: display_name(name),
                    line: info.definition_line,
                    container: container(info),
                },
            )
        } else {
            None
        }
}

/// The outline entries of the first `k` names of a class map, name by name.
pub open spec fn outline_upto(rows: ClassRows, path: Seq<char>, k: int) -> Seq<OutlineSymbolView>
    decreases k,
{
    if k <= 0 {
        seq![]
    } else {
        outline_upto(rows, path, k - 1) + collect(
            rows[k - 1].1,
            outline_entry(rows[k - 1].0, path),
        )
    }
}

/// The style sheet that an address stands for.
pub open spec fn css_file(uri: Seq<char>) -> Option<Seq<char>> {
    match uri_to_file(uri) {
        Some(path) => if is_css_extension(path_extension(path)) {
            Some(path)
        } else {
            None
        },
        None => None,
    }
}

/// The style sheet that an address stands for.
pub fn css_file_of(uri: &str) -> (r: Option<String>)
    ensures
        opt_text(r) == css_file(uri@),
{
    match file_of_uri(uri) {
        Some(path) => if is_css_path(path.as_str()) {
            Some(path)
        } else {
            None
        },
        None => None,
    }
}

/// The outline of a style sheet: its selectors, sorted by line.
pub fn outline(path: &str, class_map: &ClassMap) -> (r: Vec<OutlineSymbol>)
    ensures
        is_sorting::<OutlineSymbol>(
            outline_upto(class_map@, path@, class_map@.len() as int),
            r.deep_view(),
        ),
{
    let n: usize = class_map.len();
    let mut symbols: Vec<OutlineSymbol> = Vec::new();
    let mut k: usize = 0;
    proof {
        assert(symbols.deep_view() =~= seq![]);
    }
    while k < n
        invariant
            k <= n,
            n == class_map@.len(),
            symbols.deep_view() == outline_upto(class_map@, path@, k as int),
        decreases n - k,
    {
        let name = class_map.name_at(k);
        let infos = class_map.value_at(k);
        let m: usize = infos.len();
        let ghost f = outline_entry(name@, path@);
        let ghost all = infos.deep_view();
        let ghost start = symbols.deep_view();
        let mut i: usize = 0;
        proof {
            assert(all.take(0) =~= seq![]);
            assert(start + Seq::<OutlineSymbolView>::empty() =~= start);
        }
        while i < m
            invariant
                i <= m,
                m == infos@.len(),
                all == infos.deep_view(),
                f == outline_entry(name@, path@),
                symbols.deep_view() == start + collect(all.take(i as int), f),
            decreases m - i,
        {
            let info = &infos[i];
            let ghost before = symbols.deep_view();
            proof {
                lemma_collect_step(all, i as int, f);
            }
            if same_text(info.source_path.as_str(), path) {
                let symbol = OutlineSymbol {
                    name: show_name(name.as_str()),
                    line: info.definition_line,
                    container: show_container(info),
                };
                symbols.push(symbol);
                proof {
                    assert(f(all[i as int]) == Some(symbol.deep_view()));
                    assert(symbols.deep_view() =~= before.push(symbol.deep_view()));
                    assert(symbols.deep_view() =~= start + collect(all.take(i as int), f).push(
                        symbol.deep_view(),
                    ));
                }
            }
            i = i + 1;
        }
        proof {
            assert(all.take(m as int) =~= all);
        }
        k = k + 1;
    }
    sort(symbols)
}

/// The outline of the style sheet at an address; empty for other files.
pub fn document_symbol_handler(uri: &str, class_map: &ClassMap) -> (r: Vec<OutlineSymbol>)
    ensures
        match css_file(uri@) {
            Some(path) => is_sorting::<OutlineSymbol>(
                outline_upto(class_map@, path, class_map@.len() as int),
                r.deep_view(),
            ),
            None => r@.len() == 0,
        },
{
    match css_file_of(uri) {
        Some(path) => outline(path.as_str(), class_map),
        None => Vec::new(),
    }
}

/// A selector found by name anywhere in the workspace.
#[derive(Debug)]
pub struct WorkspaceSymbol {
    pub name: String,
    pub uri: String,
    pub line: u32,
    pub source_file: String,
}

/// What a `WorkspaceSymbol` says.
#[verifier::ext_equal]
pub ghost struct WorkspaceSymbolView {
    pub name: Seq<char>,
    pub uri: Seq<char>,
    pub line: u32,
    pub source_file: Seq<char>,
}

impl DeepView for WorkspaceSymbol {
    type V = WorkspaceSymbolView;

    open spec fn deep_view(&self) -> WorkspaceSymbolView {
        WorkspaceSymbolView {
            name: self.name@,
            uri: self.uri@,
            line: self.line,
            source_file: self.source_file@,
        }
    }
}

impl Ranked for WorkspaceSymbol {
    /// By name, then by file, then by line.
    open spec fn ranked(a: WorkspaceSymbolView, b: WorkspaceSymbolView) -> bool {
        if a.name != b.name {
            text_at_most(a.name, b.name)
        } else if a.source_file != b.source_file {
            text_at_most(a.source_file, b.source_file)
        } else {
            a.line <= b.line
        }
    }

    proof fn ranked_total(a: WorkspaceSymbolView, b: WorkspaceSymbolView) {
        law_text_order_is_linear();
        assert(text_at_most(a.name, b.name) || text_at_most(b.name, a.name));
        assert(text_at_most(a.source_file, b.source_file) || text_at_most(
            b.source_file,
            a.source_file,
        ));
    }

    proof fn ranked_transitive(
        a: WorkspaceSymbolView,
        b: WorkspaceSymbolView,
        c: WorkspaceSymbolView,
    ) {
        law_text_order_is_linear();
        if a.name != b.name && b.name != c.name {
            assert(text_at_most(a.name, b.name) && text_at_most(b.name, c.name));
            if a.name == c.name {
                assert(text_at_most(a.name, b.name) && text_at_most(b.name, a.name));
            }
        }
        if a.source_file != b.source_file && b.source_file != c.source_file && a.name == b.name
            && b.name == c.name {
            assert(text_at_most(a.source_file, b.source_file) && text_at_most(
                b.source_file,
                c.source_file,
            ));
            if a.source_file == c.source_file {
                assert(text_at_most(a.source_file, b.source_file) && text_at_most(
                    b.source_file,
                    a.source_file,
                ));
            }
        }
    }

    fn may_precede(&self, other: &Self) -> (r: bool) {
        if !same_text(self.name.as_str(), other.name.as_str()) {
            at_most(self.name.as_str(), other.name.as_str())
        } else if !same_text(self.source_file.as_str(), other.source_file.as_str()) {
            at_most(self.source_file.as_str(), other.source_file.as_str())
        } else {
            self.line <= other.line
        }
    }
}

/// Whether a filed name answers a query: letter case does not count, and an empty query takes all.
pub open spec fn answers(name: Seq<char>, query: Seq<char>) -> bool {
    query.len() == 0 || occurs(lowercase(display_name(name)), query)
}

/// The entry of a definition in a symbol search, if its file has an address.
pub open spec fn search_entry(name: Seq<char>) -> spec_fn(ClassInfoView) -> Option<
    WorkspaceSymbolView,
> {
    |info: ClassInfoView|
        match file_to_uri(info.source_path) {
            Some(uri) => Some(
                WorkspaceSymbolView {
                    name: display_name(name),
                    uri,
                    line: info.definition_line,
                    source_file: info.source_file,
                },
            ),
            None => None,
        }
}

/// What a symbol search finds among the first `k` names of a class map.
pub open spec fn search_upto(rows: ClassRows, query: Seq<char>, k: int) -> Seq<WorkspaceSymbolView>
    decreases k,
{
    if k <= 0 {
        seq![]
    } else if answers(rows[k - 1].0, query) {
        search_upto(rows, query, k - 1) + collect(rows[k - 1].1, search_entry(rows[k - 1].0))
    } else {
        search_upto(rows, query, k - 1)
    }
}

/// Searches the selectors of the workspace by name.
pub fn workspace_symbol_handler(query: &str, class_map: &ClassMap) -> (r: Vec<WorkspaceSymbol>)
    ensures
        is_sorting::<WorkspaceSymbol>(
            search_upto(class_map@, lowercase(query@), class_map@.len() as int),
            r.deep_view(),
        ),
{
    let query_lower = query.to_lowercase();
    let n: usize = class_map.len();
    let mut symbols: Vec<WorkspaceSymbol> = Vec::new();
    let mut k: usize = 0;
    proof {
        assert(symbols.deep_view() =~= seq![]);
    }
    while k < n
        invariant
            k <= n,
            n == class_map@.len(),
            query_lower@ == lowercase(query@),
            symbols.deep_view() == search_upto(class_map@, lowercase(query@), k as int),
        decreases n - k,
    {
        let name = class_map.name_at(k);
        let display = show_name(name.as_str());
        if query_lower.as_str().is_empty() || contains_sub(
            display.as_str().to_lowercase().as_str(),
            query_lower.as_str(),
        ) {
            let infos = class_map.value_at(k);
            let m: usize = infos.len();
            let ghost f = search_entry(name@);
            let ghost all = infos.deep_view();
            let ghost start = symbols.deep_view();
            let mut i: usize = 0;
            proof {
                assert(all.take(0) =~= seq![]);
                assert(start + Seq::<WorkspaceSymbolView>::empty() =~= start);
            }
            while i < m
                invariant
                    i <= m,
                    m == infos@.len(),
                    all == infos.deep_view(),
                    f == search_entry(name@),
                    display@ == display_name(name@),
                    symbols.deep_view() == start + collect(all.take(i as int), f),
                decreases m - i,
            {
                let info = &infos[i];
                let ghost before = symbols.deep_view();
                proof {
                    lemma_collect_step(all, i as int, f);
                }
                if let Some(uri) = uri_of_file(info.source_path.as_str()) {
                    let symbol = WorkspaceSymbol {
                        name: display.clone(),
                        uri,
                        line: info.definition_line,
                        source_file: info.source_file.clone(),
                    };
                    symbols.push(symbol);
                    proof {
                        assert(f(all[i as int]) == Some(symbol.deep_view()));
                        assert(symbols.deep_view() =~= before.push(symbol.deep_view()));
                        assert(symbols.deep_view() =~= start + collect(all.take(i as int), f).push(
                            symbol.deep_view(),
                        ));
                    }
                }
                i = i + 1;
            }
            proof {
                assert(all.take(m as int) =~= all);
            }
        }
        k = k + 1;
    }
    sort(symbols)
}

/// How often each name is used.
pub type UsageCounts = Table<usize>;

/// The filed names that the references of a document use.
pub open spec fn used_keys(refs: Seq<RefView>) -> Seq<Seq<char>> {
    refs.map_values(|r: RefView| ref_key(r))
}

/// The filed names that the first `k` documents of a list use.
pub open spec fn keys_upto(files: Seq<(Seq<char>, Seq<char>)>, k: int) -> Seq<Seq<char>>
    decreases k,
{
    if k <= 0 {
        seq![]
    } else {
        keys_upto(files, k - 1) + used_keys(html_refs(files[k - 1].1))
    }
}

/// How often a text occurs in a list.
pub open spec fn occurrences(keys: Seq<Seq<char>>, key: Seq<char>) -> nat
    decreases keys.len(),
{
    if keys.len() == 0 {
        0
    } else if keys.last() == key {
        occurrences(keys.drop_last(), key) + 1
    } else {
        occurrences(keys.drop_last(), key)
    }
}

/// The count stored under a name; 0 if there is none.
pub open spec fn count_of(rows: Seq<(Seq<char>, usize)>, key: Seq<char>) -> usize {
    match lookup(rows, key) {
        Some(n) => n,
        None => 0,
    }
}

/// The counts of a list of names.
pub open spec fn tally(keys: Seq<Seq<char>>) -> Seq<(Seq<char>, usize)>
    decreases keys.len(),
{
    if keys.len() == 0 {
        seq![]
    } else {
        let before = tally(keys.drop_last());
        put(before, keys.last(), (count_of(before, keys.last()) + 1) as usize)
    }
}

/// Every name is counted as often as it occurs.
pub proof fn law_tally_counts(keys: Seq<Seq<char>>, key: Seq<char>)
    requires
        keys.len() <= usize::MAX,
    ensures
        count_of(tally(keys), key) == occurrences(keys, key),
        occurrences(keys, key) <= keys.len(),
    decreases keys.len(),
{
    if keys.len() > 0 {
        law_tally_counts(keys.drop_last(), key);
        law_tally_counts(keys.drop_last(), keys.last());
        let before = tally(keys.drop_last());
        lemma_put(before, keys.last(), (count_of(before, keys.last()) + 1) as usize);
    }
}

/// Adds the filed names that the references of a document use.
pub fn add_used_keys(refs: &Vec<SelectorRef>, keys: &mut Vec<String>)
    ensures
        texts(final(keys)@) == texts(old(keys)@) + used_keys(refs.deep_view()),
{
    let n: usize = refs.len();
    let ghost all = used_keys(refs.deep_view());
    let ghost start = texts(keys@);
    let mut i: usize = 0;
    proof {
        assert(start + all.take(0) =~= start);
    }
    while i < n
        invariant
            i <= n,
            n == refs@.len(),
            all == used_keys(refs.deep_view()),
            texts(keys@) == start + all.take(i as int),
        decreases n - i,
    {
        let ghost before = texts(keys@);
        let key = key_of_ref(&refs[i]);
        keys.push(key);
        proof {
            assert(all[i as int] == key@);
            assert(texts(keys@) =~= before.push(key@));
            assert(texts(keys@) =~= start + all.take(i + 1));
        }
        i = i + 1;
    }
    proof {
        assert(all.take(n as int) =~= all);
    }
}

/// The filed names that a list of documents uses.
pub fn workspace_keys(patterns: &Patterns, files: &DocumentMap) -> (r: Vec<String>)
    ensures
        texts(r@) == keys_upto(files@, files@.len() as int),
{
    let n: usize = files.len();
    let mut keys: Vec<String> = Vec::new();
    let mut k: usize = 0;
    proof {
        assert(texts(keys@) =~= seq![]);
    }
    while k < n
        invariant
            k <= n,
            n == files@.len(),
            texts(keys@) == keys_upto(files@, k as int),
        decreases n - k,
    {
        let refs = html_selector_refs(patterns, files.value_at(k).as_str());
        add_used_keys(&refs, &mut keys);
        k = k + 1;
    }
    keys
}

/// Counts how often each name of a list occurs.
pub fn count_keys(keys: &Vec<String>) -> (r: UsageCounts)
    ensures
        r@ == tally(texts(keys@)),
{
    let n: usize = keys.len();
    let mut counts: UsageCounts = Table::new();
    let ghost all = texts(keys@);
    let mut i: usize = 0;
    proof {
        assert(all.take(0) =~= seq![]);
        assert(counts@ =~= seq![]);
    }
    while i < n
        invariant
            i <= n,
            n == keys@.len(),
            all == texts(keys@),
            counts@ == tally(all.take(i as int)),
        decreases n - i,
    {
        let count: usize = match counts.get(keys[i].as_str()) {
            Some(c) => *c,
            None => 0,
        };
        proof {
            law_tally_counts(all.take(i as int), keys@[i as int]@);
            assert(count == count_of(counts@, keys@[i as int]@));
            assert(all.take(i + 1).drop_last() =~= all.take(i as int));
            assert(all.take(i + 1).last() == keys@[i as int]@);
        }
        counts.insert(keys[i].clone(), count + 1);
        i = i + 1;
    }
    proof {
        assert(all.take(n as int) =~= all);
    }
    counts
}

/// Counts how often the HTML documents of a workspace use each name.
pub fn build_usage_counts(patterns: &Patterns, files: &DocumentMap) -> (r: UsageCounts)
    ensures
        r@ == tally(keys_upto(files@, files@.len() as int)),
{
    let keys = workspace_keys(patterns, files);
    count_keys(&keys)
}

/// A remark above a rule on how often its selector is used.
#[derive(Debug)]
pub struct CodeLens {
    pub line: u32,
    pub title: String,
}

/// What a `CodeLens` says.
#[verifier::ext_equal]
pub ghost struct CodeLensView {
    pub line: u32,
    pub title: Seq<char>,
}

impl DeepView for CodeLens {
    type V = CodeLensView;

    open spec fn deep_view(&self) -> CodeLensView {
        CodeLensView { line: self.line, title: self.title@ }
    }
}

impl Ranked for CodeLens {
    open spec fn ranked(a: CodeLensView, b: CodeLensView) -> bool {
        a.line <= b.line
    }

    proof fn ranked_total(a: CodeLensView, b: CodeLensView) {
    }

    proof fn ranked_transitive(a: CodeLensView, b: CodeLensView, c: CodeLensView) {
    }

    fn may_precede(&self, other: &Self) -> (r: bool) {
        self.line <= other.line
    }
}

/// How a usage count is put.
pub open spec fn usage_title(count: usize) -> Seq<char> {
    if count == 0 {
        "unused"@
    } else if count == 1 {
        "used 1 time"@
    } else {
        "used "@ + decimal(count as nat) + " times"@
    }
}

/// How a usage count is put.
pub fn show_usage(count: usize) -> (r: String)
    ensures
        r@ == usage_title(count),
{
    if count == 0 {
        "unused".to_owned()
    } else if count == 1 {
        "used 1 time".to_owned()
    } else {
        concat3("used ", decimal_text(count as u64).as_str(), " times")
    }
}

/// The remark above a definition, if it stands in the file.
pub open spec fn lens_entry(path: Seq<char>, count: usize) -> spec_fn(ClassInfoView) -> Option<
    CodeLensView,
> {
    |info: ClassInfoView|
        if info.source_path == path {
            Some(CodeLensView { line: info.definition_line, title: usage_title(count) })
        } else {
            None
        }
}

/// The remarks above the definitions of the first `k` names of a class map, name by name.
pub open spec fn lenses_upto(
    rows: ClassRows,
    counts: Seq<(Seq<char>, usize)>,
    path: Seq<char>,
    k: int,
) -> Seq<CodeLensView>
    decreases k,
{
    if k <= 0 {
        seq![]
    } else {
        lenses_upto(rows, counts, path, k - 1) + collect(
            rows[k - 1].1,
            lens_entry(path, count_of(counts, rows[k - 1].0)),
        )
    }
}

/// The remarks above the rules of a style sheet, sorted by line.
pub fn code_lenses(path: &str, class_map: &ClassMap, counts: &UsageCounts) -> (r: Vec<CodeLens>)
    ensures
        is_sorting::<CodeLens>(
            lenses_upto(class_map@, counts@, path@, class_map@.len() as int),
            r.deep_view(),
        ),
{
    let n: usize = class_map.len();
    let mut lenses: Vec<CodeLens> = Vec::new();
    let mut k: usize = 0;
    proof {
        assert(lenses.deep_view() =~= seq![]);
    }
    while k < n
        invariant
            k <= n,
            n == class_map@.len(),
            lenses.deep_view() == lenses_upto(class_map@, counts@, path@, k as int),
        decreases n - k,
    {
        let name = class_map.name_at(k);
        let count: usize = match counts.get(name.as_str()) {
            Some(c) => *c,
            None => 0,
        };
        let infos = class_map.value_at(k);
        let m: usize = infos.len();
        let ghost f = lens_entry(path@, count);
        let ghost all = infos.deep_view();
        let ghost start = lenses.deep_view();
        let mut i: usize = 0;
        proof {
            assert(count == count_of(counts@, name@));
            assert(all.take(0) =~= seq![]);
            assert(start + Seq::<CodeLensView>::empty() =~= start);
        }
        while i < m
            invariant
                i <= m,
                m == infos@.len(),
                all == infos.deep_view(),
                f == lens_entry(path@, count),
                lenses.deep_view() == start + collect(all.take(i as int), f),
            decreases m - i,
        {
            let info = &infos[i];
            let ghost before = lenses.deep_view();
            proof {
                lemma_collect_step(all, i as int, f);
            }
            if same_text(info.source_path.as_str(), path) {
                let lens = CodeLens { line: info.definition_line, title: show_usage(count) };
                lenses.push(lens);
                proof {
                    assert(f(all[i as int]) == Some(lens.deep_view()));
                    assert(lenses.deep_view() =~= before.push(lens.deep_view()));
                    assert(lenses.deep_view() =~= start + collect(all.take(i as int), f).push(
                        lens.deep_view(),
                    ));
                }
            }
            i = i + 1;
        }
        proof {
            assert(all.take(m as int) =~= all);
        }
        k = k + 1;
    }
    sort(lenses)
}

/// The remarks above the rules of the style sheet at an address; none for other files.
pub fn code_lens_handler(uri: &str, class_map: &ClassMap, counts: &UsageCounts) -> (r: Vec<CodeLens>)
    ensures
        match css_file(uri@) {
            Some(path) => is_sorting::<CodeLens>(
                lenses_upto(class_map@, counts@, path, class_map@.len() as int),
                r.deep_view(),
            ),
            None => r@.len() == 0,
        },
{
    match css_file_of(uri) {
        Some(path) => code_lenses(path.as_str(), class_map, counts),
        None => Vec::new(),
    }
}

/// The outline entry of definition `j` of name `k`.
pub open spec fn outlined(
    rows: ClassRows,
    path: Seq<char>,
    entry: OutlineSymbolView,
    k: int,
    j: int,
) -> bool {
    &&& 0 <= k < rows.len()
    &&& 0 <= j < rows[k].1.len()
    &&& outline_entry(rows[k].0, path)(rows[k].1[j]) == Some(entry)
}

/// The outline entry of a definition.
pub open spec fn is_outlined(rows: ClassRows, path: Seq<char>, entry: OutlineSymbolView) -> bool {
    exists|k: int, j: int| #[trigger] outlined(rows, path, entry, k, j)
}

/// The outline of a style sheet lists every definition that stands in it and nothing else.
pub proof fn law_outline_lists_the_definitions(rows: ClassRows, path: Seq<char>, k: int)
    requires
        0 <= k <= rows.len(),
    ensures
        forall|i: int|
            0 <= i < outline_upto(rows, path, k).len() ==> is_outlined(
                rows,
                path,
                #[trigger] outline_upto(rows, path, k)[i],
            ),
        forall|a: int, b: int, entry: OutlineSymbolView|
            0 <= a < k && #[trigger] outlined(rows, path, entry, a, b) ==> outline_upto(
                rows,
                path,
                k,
            ).contains(entry),
    decreases k,
{
    if k > 0 {
        law_outline_lists_the_definitions(rows, path, k - 1);
        let before = outline_upto(rows, path, k - 1);
        let all = outline_upto(rows, path, k);
        let f = outline_entry(rows[k - 1].0, path);
        let here = collect(rows[k - 1].1, f);
        lemma_collect(rows[k - 1].1, f);
        assert forall|i: int| 0 <= i < all.len() implies is_outlined(
            rows,
            path,
            #[trigger] all[i],
        ) by {
            if i < before.len() {
                assert(all[i] == before[i]);
            } else {
                assert(all[i] == here[i - before.len()]);
                let j = choose|j: int|
                    0 <= j < rows[k - 1].1.len() && f(#[trigger] rows[k - 1].1[j]) == Some(
                        here[i - before.len()],
                    );
                assert(outlined(rows, path, all[i], k - 1, j));
            }
        }
        assert forall|a: int, b: int, entry: OutlineSymbolView|
            0 <= a < k && #[trigger] outlined(rows, path, entry, a, b) implies all.contains(
            entry,
        ) by {
            if a < k - 1 {
                assert(before.contains(entry));
                let i = choose|i: int| 0 <= i < before.len() && before[i] == entry;
                assert(all[i] == entry);
            } else {
                assert(f(rows[k - 1].1[b]) is Some);
                assert(here.contains(entry));
                let i = choose|i: int| 0 <= i < here.len() && here[i] == entry;
                assert(all[before.len() + i] == entry);
            }
        }
    }
}

} // verus!
