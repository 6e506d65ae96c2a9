//! Remarks on documents and style sheets.

use crate::collect::{collect, lemma_collect, lemma_collect_step};
use crate::duplicates::{diagnostics_for_duplicate_classes, duplicate_classes};
use crate::html::{html_refs, html_selector_refs, RefView, SelectorRef};
use crate::model::{add_definitions, ClassInfoView, ClassMap, ClassRows, DocumentMap};
use crate::paths::{file_to_uri, is_html, is_html_uri, uri_of_file, uri_path};
use crate::pattern::Patterns;
use crate::protocol::{
    make_remark, range_on_line, remark, span_on_line, Diagnostic, DiagnosticView, Severity,
};
use crate::references::{key_of_ref, ref_key, ref_range};
use crate::style::{
    all_blocks_closed, blocks_readable, extract_style_blocks, parse_style_blocks, style_blocks,
    with_blocks,
};
use crate::symbols::{add_used_keys, display_name, show_name, used_keys};
use crate::table::{append_all, has_name, lemma_row_of, row_of, Table};
use crate::text::{concat3, contains_text, same_text, texts};
use vstd::prelude::*;

verus! {

/// The error about a name that no style sheet defines.
pub open spec fn unknown_message(r: RefView) -> Seq<char> {
    if r.is_id {
        "Unknown CSS id '"@ + r.name + "'"@
    } else {
        "Unknown CSS class '"@ + r.name + "'"@
    }
}

/// The error about a reference, if neither map defines what it names.
pub open spec fn unknown_remark(rows: ClassRows, inline: ClassRows) -> spec_fn(RefView) -> Option<
    DiagnosticView,
> {
    |r: RefView|
        if has_name(rows, ref_key(r)) || has_name(inline, ref_key(r)) {
            None
        } else {
            Some(remark(ref_range(r), Severity::Error, unknown_message(r)))
        }
}

/// The errors about references to names that neither map defines.
pub fn unknown_names(refs: &Vec<SelectorRef>, class_map: &ClassMap, inline: &ClassMap) -> (r: Vec<
    Diagnostic,
>)
    ensures
        r.deep_view() == collect(refs.deep_view(), unknown_remark(class_map@, inline@)),
{
    let n: usize = refs.len();
    let ghost all = refs.deep_view();
    let ghost f = unknown_remark(class_map@, inline@);
    let mut diags: Vec<Diagnostic> = Vec::new();
    let mut i: usize = 0;
    proof {
        assert(all.take(0) =~= seq![]);
        assert(diags.deep_view() =~= seq![]);
    }
    while i < n
        invariant
            i <= n,
            n == refs@.len(),
            all == refs.deep_view(),
            f == unknown_remark(class_map@, inline@),
            diags.deep_view() == collect(all.take(i as int), f),
        decreases n - i,
    {
        let r = &refs[i];
        let ghost before = diags.deep_view();
        proof {
            lemma_collect_step(all, i as int, f);
        }
        let key = key_of_ref(r);
        if !class_map.contains(key.as_str()) && !inline.contains(key.as_str()) {
            let message = if r.is_id {
                concat3("Unknown CSS id '", r.name.as_str(), "'")
            } else {
                concat3("Unknown CSS class '", r.name.as_str(), "'")
            };
            let d = make_remark(
                range_on_line(r.line, r.col_start, r.col_end),
                Severity::Error,
                message,
            );
            diags.push(d);
            proof {
                assert(f(all[i as int]) == Some(d.deep_view()));
                assert(diags.deep_view() =~= before.push(d.deep_view()));
            }
        }
        i = i + 1;
    }
    proof {
        assert(all.take(n as int) =~= all);
    }
    diags
}

/// The definitions in the `<style>` blocks of a document.
pub open spec fn inline_rows(text: Seq<char>) -> ClassRows {
    with_blocks(
        seq![],
        style_blocks(text),
        ""@,
        ""@,
        style_blocks(text).len() as int,
    )
}

/// The errors of a document: one for each reference to a name that neither the class map nor a
/// `<style>` block of the document defines.
pub open spec fn unknown_in(text: Seq<char>, rows: ClassRows) -> Seq<DiagnosticView> {
    collect(html_refs(text), unknown_remark(rows, inline_rows(text)))
}

/// The errors of a document. There is no answer if a `<style>` block holds a string inside a block
/// that is not closed.
pub fn diagnostics_for_html(patterns: &Patterns, text: &str, class_map: &ClassMap) -> (r: Option<
    Vec<Diagnostic>,
>)
    ensures
        r is Some == blocks_readable(style_blocks(text@)),
        r is Some ==> (r->0).deep_view() == unknown_in(text@, class_map@),
{
    let blocks = extract_style_blocks(patterns, text);
    if !all_blocks_closed(&blocks) {
        return None;
    }
    let mut inline: ClassMap = ClassMap::new();
    proof {
        assert(inline@ =~= seq![]);
    }
    parse_style_blocks(patterns, &blocks, "", "", &mut inline);
    let refs = html_selector_refs(patterns, text);
    Some(unknown_names(&refs, class_map, &inline))
}

/// All remarks on a document: the errors about unknown names, then the warnings about classes that
/// an attribute lists twice.
pub fn all_html_diagnostics(patterns: &Patterns, text: &str, class_map: &ClassMap) -> (r: Option<
    Vec<Diagnostic>,
>)
    ensures
        r is Some == blocks_readable(style_blocks(text@)),
        r is Some ==> (r->0).deep_view() == unknown_in(text@, class_map@) + duplicate_classes(
            text@,
        ),
{
    let mut diags = match diagnostics_for_html(patterns, text, class_map) {
        Some(diags) => diags,
        None => {
            return None;
        },
    };
    let mut more = diagnostics_for_duplicate_classes(patterns, text);
    let ghost a = diags.deep_view();
    let ghost b = more.deep_view();
    diags.append(&mut more);
    proof {
        assert(diags.deep_view() =~= a + b);
    }
    Some(diags)
}

/// The definitions of a list that stand in a file.
pub open spec fn in_file(path: Seq<char>) -> spec_fn(ClassInfoView) -> Option<ClassInfoView> {
    |info: ClassInfoView|
        if info.source_path == path {
            Some(info)
        } else {
            None
        }
}

/// The warning about a definition of a name that the file defines before.
pub open spec fn redefined_remark(name: Seq<char>, line: u32) -> DiagnosticView {
    remark(
        span_on_line(line, 0, 0),
        Severity::Warning,
        "'"@ + display_name(name) + "' is already defined earlier in this file"@,
    )
}

/// The warnings about one name: one for each of its definitions in the file after the first.
pub open spec fn redefinitions(
    name: Seq<char>,
    infos: Seq<ClassInfoView>,
    path: Seq<char>,
) -> Seq<DiagnosticView> {
    let here = collect(infos, in_file(path));
    Seq::new(
        if here.len() == 0 {
            0
        } else {
            (here.len() - 1) as nat
        },
        |i: int| redefined_remark(name, here[i + 1].definition_line),
    )
}

/// The warnings about the first `k` names of a class map.
pub open spec fn redefinitions_upto(rows: ClassRows, path: Seq<char>, k: int) -> Seq<DiagnosticView>
    decreases k,
{
    if k <= 0 {
        seq![]
    } else {
        redefinitions_upto(rows, path, k - 1) + redefinitions(rows[k - 1].0, rows[k - 1].1, path)
    }
}

/// The warnings about names that a style sheet defines more than once: every definition after the
/// first is flagged.
pub fn diagnostics_for_css_duplicates(class_map: &ClassMap, source_path: &str) -> (r: Vec<
    Diagnostic,
>)
    ensures
        r.deep_view() == redefinitions_upto(class_map@, source_path@, class_map@.len() as int),
{
    let n: usize = class_map.len();
    let mut diags: Vec<Diagnostic> = Vec::new();
    let mut k: usize = 0;
    proof {
        assert(diags.deep_view() =~= seq![]);
    }
    while k < n
        invariant
            k <= n,
            n == class_map@.len(),
            diags.deep_view() == redefinitions_upto(class_map@, source_path@, k as int),
        decreases n - k,
    {
        let name = class_map.name_at(k);
        let infos = class_map.value_at(k);
        let m: usize = infos.len();
        let ghost all = infos.deep_view();
        let ghost f = in_file(source_path@);
        let ghost start = diags.deep_view();
        let mut seen = false;
        let mut i: usize = 0;
        proof {
            assert(all.take(0) =~= seq![]);
            assert(start + redefinitions(name@, all.take(0), source_path@) =~= start);
        }
        while i < m
            invariant
                i <= m,
                m == infos@.len(),
                all == infos.deep_view(),
                f == in_file(source_path@),
                seen == (collect(all.take(i as int), f).len() > 0),
                diags.deep_view() == start + redefinitions(
                    name@,
                    all.take(i as int),
                    source_path@,
                ),
            decreases m - i,
        {
            let info = &infos[i];
            let ghost before = diags.deep_view();
            let ghost here = collect(all.take(i as int), f);
            proof {
                lemma_collect_step(all, i as int, f);
                assert(all[i as int] == info.deep_view());
            }
            if same_text(info.source_path.as_str(), source_path) {
                if seen {
                    let d = make_remark(
                        range_on_line(info.definition_line, 0, 0),
                        Severity::Warning,
                        concat3(
                            "'",
                            show_name(name.as_str()).as_str(),
                            "' is already defined earlier in this file",
                        ),
                    );
                    diags.push(d);
                    proof {
                        assert(diags.deep_view() =~= before.push(d.deep_view()));
                        assert(redefinitions(name@, all.take(i + 1), source_path@)
                            =~= redefinitions(name@, all.take(i as int), source_path@).push(
                            d.deep_view(),
                        ));
                        assert(diags.deep_view() =~= start + redefinitions(
                            name@,
                            all.take(i + 1),
                            source_path@,
                        ));
                    }
                } else {
                    proof {
                        assert(redefinitions(name@, all.take(i + 1), source_path@)
                            =~= redefinitions(name@, all.take(i as int), source_path@));
                    }
                }
                seen = true;
            } else {
                proof {
                    assert(redefinitions(name@, all.take(i + 1), source_path@) =~= redefinitions(
                        name@,
                        all.take(i as int),
                        source_path@,
                    ));
                }
            }
            i = i + 1;
        }
        proof {
            assert(all.take(m as int) =~= all);
        }
        k = k + 1;
    }
    diags
}

/// The filed names that the open HTML documents among the first `k` use.
pub open spec fn open_keys_upto(documents: Seq<(Seq<char>, Seq<char>)>, k: int) -> Seq<Seq<char>>
    decreases k,
{
    if k <= 0 {
        seq![]
    } else if is_html(uri_path(documents[k - 1].0)) {
        open_keys_upto(documents, k - 1) + used_keys(html_refs(documents[k - 1].1))
    } else {
        open_keys_upto(documents, k - 1)
    }
}

/// The filed names that the open HTML documents use.
pub open spec fn open_keys(documents: Seq<(Seq<char>, Seq<char>)>) -> Seq<Seq<char>> {
    open_keys_upto(documents, documents.len() as int)
}

/// Whether an HTML document is open.
pub open spec fn html_open(documents: Seq<(Seq<char>, Seq<char>)>) -> bool {
    exists|i: int| 0 <= i < documents.len() && is_html(uri_path((#[trigger] documents[i]).0))
}

/// Whether an HTML document is open.
pub fn any_html_open(documents: &DocumentMap) -> (r: bool)
    ensures
        r == html_open(documents@),
{
    let n: usize = documents.len();
    let mut k: usize = 0;
    while k < n
        invariant
            k <= n,
            n == documents@.len(),
            forall|i: int| 0 <= i < k ==> !is_html(uri_path((#[trigger] documents@[i]).0)),
        decreases n - k,
    {
        if is_html_uri(documents.name_at(k).as_str()) {
            return true;
        }
        k = k + 1;
    }
    false
}

/// The filed names that the open HTML documents use.
pub fn used_in_open_html(patterns: &Patterns, documents: &DocumentMap) -> (r: Vec<String>)
    ensures
        texts(r@) == open_keys(documents@),
{
    let n: usize = documents.len();
    let mut keys: Vec<String> = Vec::new();
    let mut k: usize = 0;
    proof {
        assert(texts(keys@) =~= seq![]);
    }
    while k < n
        invariant
            k <= n,
            n == documents@.len(),
            texts(keys@) == open_keys_upto(documents@, k as int),
        decreases n - k,
    {
        if is_html_uri(documents.name_at(k).as_str()) {
            let refs = html_selector_refs(patterns, documents.value_at(k).as_str());
            add_used_keys(&refs, &mut keys);
        }
        k = k + 1;
    }
    keys
}

/// The hint at a definition of an unused name.
pub open spec fn unused_remark(name: Seq<char>, line: u32) -> DiagnosticView {
    remark(
        span_on_line(line, 0, 0),
        Severity::Hint,
        "'"@ + display_name(name) + "' is not used in any open HTML file"@,
    )
}

/// The hint at a definition, with the address of its file.
pub open spec fn unused_entry(name: Seq<char>) -> spec_fn(ClassInfoView) -> Option<
    (Seq<char>, DiagnosticView),
> {
    |info: ClassInfoView|
        match file_to_uri(info.source_path) {
            Some(uri) => Some((uri, unused_remark(name, info.definition_line))),
            None => None,
        }
}

/// The hints at the definitions of the unused names among the first `k` of a class map.
pub open spec fn unused_upto(rows: ClassRows, used: Seq<Seq<char>>, k: int) -> Seq<
    (Seq<char>, DiagnosticView),
>
    decreases k,
{
    if k <= 0 {
        seq![]
    } else if used.contains(rows[k - 1].0) {
        unused_upto(rows, used, k - 1)
    } else {
        unused_upto(rows, used, k - 1) + collect(rows[k - 1].1, unused_entry(rows[k - 1].0))
    }
}

/// The hints at the definitions of names that are not in `used`, file by file.
pub fn unused_hints(class_map: &ClassMap, used: &Vec<String>) -> (r: Table<Vec<Diagnostic>>)
    ensures
        r@ == append_all(
            seq![],
            unused_upto(class_map@, texts(used@), class_map@.len() as int),
        ),
{
    let n: usize = class_map.len();
    let mut out: Table<Vec<Diagnostic>> = Table::new();
    let mut k: usize = 0;
    proof {
        assert(out@ =~= seq![]);
    }
    while k < n
        invariant
            k <= n,
            n == class_map@.len(),
            out@ == append_all(seq![], unused_upto(class_map@, texts(used@), k as int)),
        decreases n - k,
    {
        let name = class_map.name_at(k);
        if !contains_text(used, name.as_str()) {
            let infos = class_map.value_at(k);
            let m: usize = infos.len();
            let ghost all = infos.deep_view();
            let ghost f = unused_entry(name@);
            let ghost start = unused_upto(class_map@, texts(used@), k as int);
            let mut i: usize = 0;
            proof {
                assert(all.take(0) =~= seq![]);
                assert(start + Seq::<(Seq<char>, DiagnosticView)>::empty() =~= start);
            }
            while i < m
                invariant
                    i <= m,
                    m == infos@.len(),
                    all == infos.deep_view(),
                    f == unused_entry(name@),
                    out@ == append_all(seq![], start + collect(all.take(i as int), f)),
                decreases m - i,
            {
                let info = &infos[i];
                proof {
                    lemma_collect_step(all, i as int, f);
                    assert(all[i as int] == info.deep_view());
                }
                if let Some(uri) = uri_of_file(info.source_path.as_str()) {
                    let d = make_remark(
                        range_on_line(info.definition_line, 0, 0),
                        Severity::Hint,
                        concat3(
                            "'",
                            show_name(name.as_str()).as_str(),
                            "' is not used in any open HTML file",
                        ),
                    );
                    let ghost entry = (uri@, d.deep_view());
                    out.append(uri, d);
                    proof {
                        assert(f(all[i as int]) == Some(entry));
                        let list = start + collect(all.take(i as int), f);
                        let longer = start + collect(all.take(i as int), f).push(entry);
                        assert(longer.drop_last() =~= list);
                        assert(longer.last() == entry);
                    }
                }
                i = i + 1;
            }
            proof {
                assert(all.take(m as int) =~= all);
            }
        }
        k = k + 1;
    }
    out
}

/// The hints at selectors that neither an open HTML document nor a script uses, file by file; none
/// if no HTML document is open. `in_scripts` lists the names that scripts use.
pub fn diagnostics_for_unused(
    patterns: &Patterns,
    class_map: &ClassMap,
    documents: &DocumentMap,
    in_scripts: &Vec<String>,
) -> (r: Table<Vec<Diagnostic>>)
    ensures
        !html_open(documents@) ==> r@.len() == 0,
        html_open(documents@) ==> r@ == append_all(
            seq![],
            unused_upto(
                class_map@,
                open_keys(documents@) + texts(in_scripts@),
                class_map@.len() as int,
            ),
        ),
{
    if !any_html_open(documents) {
        return Table::new();
    }
    let mut used = used_in_open_html(patterns, documents);
    let n: usize = in_scripts.len();
    let ghost start = texts(used@);
    let ghost more = texts(in_scripts@);
    let mut i: usize = 0;
    proof {
        assert(start + more.take(0) =~= start);
    }
    while i < n
        invariant
            i <= n,
            n == in_scripts@.len(),
            more == texts(in_scripts@),
            texts(used@) == start + more.take(i as int),
        decreases n - i,
    {
        let ghost before = texts(used@);
        used.push(in_scripts[i].clone());
        proof {
            assert(texts(used@) =~= before.push(more[i as int]));
            assert(texts(used@) =~= start + more.take(i + 1));
        }
        i = i + 1;
    }
    proof {
        assert(more.take(n as int) =~= more);
    }
    unused_hints(class_map, &used)
}

/// A document's errors are exactly those about names that nothing defines: a reference whose name
/// the class map holds is never flagged, and one whose name neither the map nor the document
/// defines always is.
pub proof fn law_unknown_iff_undefined(
    refs: Seq<RefView>,
    rows: ClassRows,
    inline: ClassRows,
    i: int,
)
    requires
        0 <= i < refs.len(),
    ensures
        unknown_remark(rows, inline)(refs[i]) is Some == !(has_name(rows, ref_key(refs[i])) || has_name(
            inline,
            ref_key(refs[i]),
        )),
        unknown_remark(rows, inline)(refs[i]) is Some ==> collect(
            refs,
            unknown_remark(rows, inline),
        ).contains(remark(ref_range(refs[i]), Severity::Error, unknown_message(refs[i]))),
{
    lemma_collect(refs, unknown_remark(rows, inline));
}

/// What a style sheet defines is known: once its definitions are added, a reference to one of their
/// names is not flagged.
pub proof fn law_defined_names_are_known(
    rows: ClassRows,
    added: Seq<(Seq<char>, ClassInfoView)>,
    inline: ClassRows,
    r: RefView,
    i: int,
)
    requires
        0 <= i < added.len(),
        added[i].0 == ref_key(r),
    ensures
        unknown_remark(add_definitions(rows, added), inline)(r) is None,
{
    lemma_added_is_there(rows, added, i);
}

proof fn lemma_added_is_there(rows: ClassRows, added: Seq<(Seq<char>, ClassInfoView)>, i: int)
    requires
        0 <= i < added.len(),
    ensures
        has_name(add_definitions(rows, added), added[i].0),
    decreases added.len(),
{
    let name = added[i].0;
    let last = added.last().0;
    let before = add_definitions(rows, added.drop_last());
    let after = add_definitions(rows, added);
    lemma_row_of(before, last);
    let k = row_of(before, last);
    if i == added.len() - 1 {
        assert(after[k].0 == name);
    } else {
        assert(added.drop_last()[i] == added[i]);
        lemma_added_is_there(rows, added.drop_last(), i);
        let j = choose|j: int| 0 <= j < before.len() && (#[trigger] before[j]).0 == name;
        if j == k {
            assert(after[j].0 == name);
        } else {
            assert(after[j] == before[j]);
        }
    }
}

/// A hint at an unused name: the name is in the map, nothing uses it, and the hint stands at one of
/// its definitions.
pub open spec fn is_unused_hint(
    rows: ClassRows,
    used: Seq<Seq<char>>,
    entry: (Seq<char>, DiagnosticView),
) -> bool {
    exists|k: int, j: int| #[trigger] hint_from(rows, used, entry, k, j)
}

/// A hint at definition `j` of name `k`, which nothing uses.
pub open spec fn hint_from(
    rows: ClassRows,
    used: Seq<Seq<char>>,
    entry: (Seq<char>, DiagnosticView),
    k: int,
    j: int,
) -> bool {
    &&& 0 <= k < rows.len()
    &&& 0 <= j < rows[k].1.len()
    &&& !used.contains(rows[k].0)
    &&& unused_entry(rows[k].0)(rows[k].1[j]) == Some(entry)
}

/// Only unused names get a hint, and every definition of an unused name gets one, if its file has
/// an address.
pub proof fn law_hints_are_at_unused_names(rows: ClassRows, used: Seq<Seq<char>>, k: int)
    requires
        0 <= k <= rows.len(),
    ensures
        forall|i: int|
            0 <= i < unused_upto(rows, used, k).len() ==> is_unused_hint(
                rows,
                used,
                #[trigger] unused_upto(rows, used, k)[i],
            ),
        forall|a: int, b: int, entry: (Seq<char>, DiagnosticView)|
            0 <= a < k && #[trigger] hint_from(rows, used, entry, a, b) ==> unused_upto(
                rows,
                used,
                k,
            ).contains(entry),
    decreases k,
{
    if k > 0 {
        law_hints_are_at_unused_names(rows, used, k - 1);
        let before = unused_upto(rows, used, k - 1);
        let all = unused_upto(rows, used, k);
        let name = rows[k - 1].0;
        let f = unused_entry(name);
        let here = collect(rows[k - 1].1, f);
        lemma_collect(rows[k - 1].1, f);
        assert forall|i: int| 0 <= i < all.len() implies is_unused_hint(
            rows,
            used,
            #[trigger] all[i],
        ) by {
            if i < before.len() {
                assert(all[i] == before[i]);
            } else {
                assert(all[i] == here[i - before.len()]);
                let j = choose|j: int|
                    0 <= j < rows[k - 1].1.len() && f(#[trigger] rows[k - 1].1[j]) == Some(
                        here[i - before.len()],
                    );
                assert(hint_from(rows, used, all[i], k - 1, j));
            }
        }
        assert forall|a: int, b: int, entry: (Seq<char>, DiagnosticView)|
            0 <= a < k && #[trigger] hint_from(rows, used, entry, a, b) implies all.contains(
            entry,
        ) by {
            if a < k - 1 {
                assert(before.contains(entry));
                let i = choose|i: int| 0 <= i < before.len() && before[i] == entry;
                assert(all[i] == entry);
            } else {
                assert(f(rows[k - 1].1[b]) is Some);
                assert(here.contains(entry));
                let i = choose|i: int| 0 <= i < here.len() && here[i] == entry;
                assert(all[before.len() + i] == entry);
            }
        }
    }
}

/// Of several definitions of a name in one style sheet all but the first are flagged.
pub proof fn law_all_but_the_first_are_flagged(
    name: Seq<char>,
    infos: Seq<ClassInfoView>,
    path: Seq<char>,
)
    ensures
        ({
            let here = collect(infos, in_file(path));
            let flagged = redefinitions(name, infos, path);
            &&& here.len() <= 1 ==> flagged.len() == 0
            &&& here.len() >= 1 ==> flagged.len() == here.len() - 1
            &&& forall|i: int|
                1 <= i < here.len() ==> flagged[i - 1] == redefined_remark(
                    name,
                    (#[trigger] here[i]).definition_line,
                )
        }),
{
}

} // verus!
