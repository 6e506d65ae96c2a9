//! Quick fixes: rules to create and rules to remove.

use crate::actions::{
    all_among, best_file, block_of, block_on, blocks_upto, comma_joined, creation, creations,
    creations_upto, is_blank, known_files, known_files_upto, law_new_rules_go_to_the_nearest_file,
    law_unknown_name_is_found_again, makes_block, missing_name, removable, removable_blocks,
    removal_edit, removal_offer, removal_span, removed_span, selector_of_block, target_at,
    unused_line, unused_lines, unused_name, unused_names, BlockKey, CodeActionView, CssTargetView,
    UnusedBlockView,
};
use crate::collect::{collect, first_occurrences, lemma_collect, lemma_first_occurrences_within};
use crate::css::{
    css_rules, is_plain, is_quote, law_rules_are_read_one_by_one, lemma_string_end,
    lemma_string_end_behind, selector_names, string_end,
};
use crate::cursor::valid_css_ident;
use crate::diagnostics::unknown_message;
use crate::heads::{line_begin, position_in};
use crate::html::RefView;
use crate::laws::blocks::{
    has_pair, law_comments_are_blanked, law_statements_are_passed_over, law_trimming,
};
use crate::laws::completion::lemma_collected;
use crate::laws::navigation::{as_selector, lemma_as_selector, lemma_concat_contains};
use crate::laws::parsing::{is_longest_name, law_names_of_a_selector, names_at};
use crate::laws::remarks::ours;
use crate::model::{definitions, ClassInfoView, ClassRows};
use crate::naming::{asks_for_match, each_is_named, group_end, name_begin, names_throughout};
use crate::order::sorted_texts;
use crate::paths::{file_to_uri, path_file_name, path_parent, paths_equal};
use crate::pattern::{is_name_char, is_name_start};
use crate::protocol::{DiagnosticView, Position, Range, Severity, TextEditView};
use crate::table::lookup;
use crate::text::{is_white, lemma_index_from_is, lines, newlines, occurs_at, trim, trim_start};
use vstd::prelude::*;

verus! {

/// The message about an unknown class or identifier.
pub open spec fn unknown(name: Seq<char>, is_id: bool) -> Seq<char> {
    (if is_id {
        "Unknown CSS id '"@
    } else {
        "Unknown CSS class '"@
    }) + name + "'"@
}

/// The error about an unknown class or identifier says which one is missing, if a rule for it can
/// be written.
pub proof fn law_errors_name_what_is_missing(range: Range, name: Seq<char>, is_id: bool)
    requires
        valid_css_ident(name),
    ensures
        missing_name(ours(range, Severity::Error, unknown(name, is_id))) == Some((name, is_id)),
{
    let r = RefView { line: 0, col_start: 0, col_end: 0, name, is_id };
    let msg = unknown(name, is_id);
    assert(msg == unknown_message(r));
    assert(!name.contains('\'')) by {
        if name.contains('\'') {
            let i = choose|i: int| 0 <= i < name.len() && name[i] == '\'';
            assert(is_name_char(name[i]));
        }
    }
    law_unknown_name_is_found_again(r);
    reveal_strlit("Unknown CSS id '");
    reveal_strlit("Unknown CSS class '");
    reveal_strlit("Unknown CSS id");
    reveal_strlit("'");
    let sub = "Unknown CSS id"@;
    if is_id {
        assert(msg.subrange(0, 14) =~= sub);
        assert(occurs_at(msg, sub, 0));
    } else {
        assert forall|k: int| !#[trigger] occurs_at(msg, sub, k) by {
            if occurs_at(msg, sub, k) {
                assert(msg.subrange(k, k + 14)[0] == msg[k]);
                assert(msg.subrange(k, k + 14)[7] == msg[k + 7]);
                assert(msg.subrange(k, k + 14)[12] == msg[k + 12]);
                assert(msg[k] == 'U' && msg[k + 7] == ' ' && msg[k + 12] == 'i');
                let lead = "Unknown CSS class '"@;
                if k == 0 {
                    assert(msg[12] == lead[12]);
                } else if k < 19 {
                    assert(msg[k] == lead[k]);
                } else {
                    assert(k + 7 < msg.len() - 1);
                    assert(msg[k + 7] == name[k + 7 - 19]);
                    assert(is_name_char(name[k + 7 - 19]));
                }
            }
        }
    }
}

/// Only the library's own errors with a name that a rule can be written for lead to an offer.
pub proof fn law_other_diagnostics_offer_nothing(d: DiagnosticView)
    ensures
        d.source != Some("css-lens"@) || d.severity != Some(Severity::Error) ==> missing_name(d)
            is None,
        missing_name(d) is Some ==> valid_css_ident((missing_name(d)->0).0),
{
}

/// What is offered for a missing name: to append an empty rule for it to the style sheet, on a line
/// of its own.
pub open spec fn creates(
    action: CodeActionView,
    name: Seq<char>,
    is_id: bool,
    target: CssTargetView,
    i: int,
) -> bool {
    let mark = if is_id {
        seq!['#']
    } else {
        seq!['.']
    };
    let at = Position { line: lines(target.content).len() as u32, character: 0 };
    &&& action.title == (if is_id {
        "Create CSS id "@
    } else {
        "Create CSS class "@
    }) + mark + name + " in "@ + target.file_name
    &&& action.diagnostic == Some(i as usize)
    &&& action.preferred
    &&& action.uri == target.uri
    &&& action.edit.range == (Range { start: at, end: at })
    &&& action.edit.new_text == (if target.content.len() > 0 && target.content.last() == '\n' {
        Seq::<char>::empty()
    } else {
        seq!['\n']
    }) + mark + name + " {\n  \n}\n"@
}

/// A rule is offered for each diagnostic that names what is missing, and for nothing else; none
/// without a style sheet to write to.
pub proof fn law_missing_rules_are_offered(
    diags: Seq<DiagnosticView>,
    target: CssTargetView,
    n: int,
    action: CodeActionView,
)
    requires
        0 <= n <= diags.len(),
    ensures
        creations_upto(diags, target, n).contains(action) == exists|i: int|
            0 <= i < n && missing_name(#[trigger] diags[i]) is Some && creates(
                action,
                (missing_name(diags[i])->0).0,
                (missing_name(diags[i])->0).1,
                target,
                i,
            ),
        creations(diags, Some(target)) == creations_upto(diags, target, diags.len() as int),
        creations(diags, None).len() == 0,
    decreases n,
{
    if n > 0 {
        law_missing_rules_are_offered(diags, target, n - 1, action);
        let before = creations_upto(diags, target, n - 1);
        if missing_name(diags[n - 1]) is Some {
            let (name, is_id) = missing_name(diags[n - 1])->0;
            let own = creation(name, is_id, target, (n - 1) as usize);
            lemma_creation(action, name, is_id, target, n - 1);
            lemma_concat_contains(before, seq![own], action);
            assert(before + seq![own] =~= before.push(own));
            assert(seq![own].contains(action) == (own == action)) by {
                assert(seq![own][0] == own);
            }
            if own == action {
                assert(creates(
                    action,
                    (missing_name(diags[n - 1])->0).0,
                    (missing_name(diags[n - 1])->0).1,
                    target,
                    n - 1,
                ));
            }
        }
    }
}

proof fn lemma_creation(
    action: CodeActionView,
    name: Seq<char>,
    is_id: bool,
    target: CssTargetView,
    i: int,
)
    ensures
        creates(action, name, is_id, target, i) == (action == creation(
            name,
            is_id,
            target,
            i as usize,
        )),
{
    let own = creation(name, is_id, target, i as usize);
    let content = target.content;
    reveal_strlit("#");
    reveal_strlit(".");
    reveal_strlit("\n");
    reveal_strlit("");
    reveal_strlit("Create CSS ");
    reveal_strlit("id ");
    reveal_strlit("class ");
    reveal_strlit("Create CSS id ");
    reveal_strlit("Create CSS class ");
    assert("#"@ =~= seq!['#']);
    assert("."@ =~= seq!['.']);
    assert("\n"@ =~= seq!['\n']);
    assert(""@ =~= Seq::<char>::empty());
    assert("Create CSS "@ + "id "@ =~= "Create CSS id "@);
    assert("Create CSS "@ + "class "@ =~= "Create CSS class "@);
    let feed = "\n"@;
    if content.len() > 0 {
        let n = content.len() as int;
        assert(content.subrange(n - 1, n)[0] == content.last());
        if content.last() == '\n' {
            assert(content.subrange(n - 1, n) =~= feed);
        }
        if feed.is_suffix_of(content) {
            assert(content.subrange(n - 1, n)[0] == feed[0]);
        }
    }
    assert(feed.is_suffix_of(content) == (content.len() > 0 && content.last() == '\n'));
}

/// The rule that is created defines the missing name: read as a style sheet, it gives the name a
/// definition.
pub proof fn law_created_rules_define_the_name(name: Seq<char>, is_id: bool)
    requires
        valid_css_ident(name),
    ensures
        ({
            let mark = if is_id {
                '#'
            } else {
                '.'
            };
            let rule = seq![mark] + name + " {\n  \n}\n"@;
            &&& css_rules(rule, 0) is Some
            &&& css_rules(rule, 0)->0.len() == 1
            &&& css_rules(rule, 0)->0[0].selector == seq![mark] + name
            &&& css_rules(rule, 0)->0[0].line == 0
            &&& selector_names(css_rules(rule, 0)->0[0].selector).contains(
                if is_id {
                    seq![mark] + name
                } else {
                    name
                },
            )
        }),
{
    let mark = if is_id {
        '#'
    } else {
        '.'
    };
    let plain = seq![mark] + name;
    let selector = plain.push(' ');
    let declarations = seq!['\n', ' ', ' ', '\n'];
    let rest = seq!['\n'];
    let rule = plain + " {\n  \n}\n"@;
    reveal_strlit(" {\n  \n}\n");
    assert(rule =~= selector.push('{') + declarations.push('}') + rest);
    assert forall|i: int| 0 <= i < name.len() implies is_name_char(#[trigger] name[i]) by {
    }
    assert(!has_pair(rule, '/', '*')) by {
        if has_pair(rule, '/', '*') {
            let i = choose|i: int|
                0 <= i && i + 1 < rule.len() && #[trigger] rule[i] == '/' && rule[i + 1] == '*';
            if 1 <= i < 1 + name.len() {
                assert(rule[i] == name[i - 1]);
            } else if i >= 1 + name.len() {
                assert(rule[i] == " {\n  \n}\n"@[i - 1 - name.len()]);
            }
        }
    }
    law_comments_are_blanked(rule, Seq::empty(), Seq::empty());
    assert(is_plain(selector)) by {
        assert forall|i: int| 0 <= i < selector.len() implies !is_quote(
            #[trigger] selector[i],
        ) && selector[i] != '{' && selector[i] != '}' && selector[i] != ';' by {
            if 1 <= i < 1 + name.len() {
                assert(selector[i] == name[i - 1]);
            }
        }
    }
    assert(plain.last() == name.last());
    assert(is_name_char(name.last()));
    let none = Seq::<char>::empty();
    assert(selector =~= none + plain + seq![' ']);
    law_trimming(none, plain, seq![' ']);
    law_rules_are_read_one_by_one(selector, declarations, rest, 0, None, None);
    assert(trim_start(selector) == selector);
    assert(selector.take(0).len() == 0);
    law_statements_are_passed_over(
        rest,
        ';',
        none,
        newlines(selector.push('{') + declarations.push('}')) as int,
        None,
        None,
    );
    assert(trim(selector)[0] == mark);
    let found = css_rules(rule, 0)->0;
    assert(found[0].selector == plain);
    let e = plain.len() as int;
    assert forall|j: int| 1 <= j < e implies is_name_char(#[trigger] plain[j]) by {
        assert(plain[j] == name[j - 1]);
    }
    assert(is_name_char(name[0]));
    assert(is_longest_name(plain, 1, e));
    let filed = if is_id {
        plain
    } else {
        name
    };
    assert(plain.subrange(1, e) =~= name);
    assert(plain.subrange(0, e) =~= plain);
    assert(names_at(plain, 0, e, filed));
    law_names_of_a_selector(plain, filed);
}

/// Whether a file lies in a directory.
pub open spec fn is_inside(path: Seq<char>, dir: Seq<char>) -> bool {
    path_parent(path) is Some && paths_equal(path_parent(path)->0, dir)
}

/// A new rule goes to a style sheet that the document links to and that lies beside it, if there is
/// one; or else to one that it links to; or else to one beside it; or else to any.
pub proof fn law_where_new_rules_go(
    files: Seq<Seq<char>>,
    dir: Seq<char>,
    linked: Seq<Seq<char>>,
    i: int,
)
    requires
        0 <= i < files.len(),
    ensures
        best_file(files, dir, linked) is Some,
        files.contains(best_file(files, dir, linked)->0),
        ({
            let best = best_file(files, dir, linked)->0;
            &&& linked.contains(files[i]) && is_inside(files[i], dir) ==> linked.contains(best)
                && is_inside(best, dir)
            &&& linked.contains(files[i]) ==> linked.contains(best)
            &&& is_inside(files[i], dir) ==> linked.contains(best) || is_inside(best, dir)
        }),
        best_file(Seq::empty(), dir, linked) is None,
{
    law_new_rules_go_to_the_nearest_file(files, dir, linked, i);
}

/// A style sheet is written to under its address, with its content or, if it cannot be read, as an
/// empty one.
pub proof fn law_targets(path: Seq<char>, content: Option<Seq<char>>, uri: Seq<char>)
    ensures
        file_to_uri(path) is None ==> target_at(path, content) is None,
        file_to_uri(path) == Some(uri) ==> target_at(path, content) == Some(
            CssTargetView {
                uri,
                file_name: if path_file_name(path) is Some {
                    path_file_name(path)->0
                } else {
                    "CSS file"@
                },
                content: if content is Some {
                    content->0
                } else {
                    Seq::empty()
                },
            },
        ),
{
}

/// Whether every name that a block defines is called unused.
pub open spec fn all_unused(
    diags: Seq<DiagnosticView>,
    rows: ClassRows,
    block: ClassInfoView,
) -> bool {
    forall|k: int, j: int|
        0 <= k < rows.len() && 0 <= j < rows[k].1.len() && (#[trigger] rows[k].1[j]).source_path
            == block.source_path && rows[k].1[j].definition_line == block.definition_line
            && rows[k].1[j].selector == block.selector ==> collect(diags, unused_name()).contains(
            rows[k].0,
        )
}

/// A rule is offered for removal if all that it defines is called unused: for each definition of an
/// unused name on the line of such a diagnostic, where every name of its rule is called unused and
/// every selector of its list names one, the rule is among those that can be removed.
pub proof fn law_unused_rules_can_be_removed(
    diags: Seq<DiagnosticView>,
    rows: ClassRows,
    a: int,
    b: int,
    name: Seq<char>,
    i: int,
)
    requires
        0 <= a < diags.len(),
        unused_name()(diags[a]) == Some(name),
        0 <= i < definitions(rows, name).len(),
        0 <= b < diags.len(),
        diags[b].source == Some("css-lens"@),
        diags[b].severity == Some(Severity::Hint),
        diags[b].range.start.line == definitions(rows, name)[i].definition_line,
        all_unused(diags, rows, definitions(rows, name)[i]),
        names_throughout(definitions(rows, name)[i].selector),
    ensures
        exists|j: int|
            0 <= j < removable_blocks(diags, rows).len() && (#[trigger] removable_blocks(
                diags,
                rows,
            )[j]).path == definitions(rows, name)[i].source_path && removable_blocks(
                diags,
                rows,
            )[j].line == definitions(rows, name)[i].definition_line && removable_blocks(
                diags,
                rows,
            )[j].selector == definitions(rows, name)[i].selector,
{
    let info = definitions(rows, name)[i];
    let key = BlockKey {
        path: info.source_path,
        line: info.definition_line,
        selector: info.selector,
    };
    let names = unused_names(diags);
    let hinted = unused_lines(diags);
    lemma_collected(diags, unused_name(), name);
    assert(unused_name()(diags[a]) == Some(name));
    lemma_first_occurrences_within(collect(diags, unused_name()), name);
    lemma_collected(diags, unused_line(), info.definition_line);
    assert(unused_line()(diags[b]) == Some(info.definition_line));
    let k = choose|k: int| 0 <= k < names.len() && names[k] == name;
    lemma_collected(definitions(rows, name), block_on(hinted), key);
    assert(block_on(hinted)(definitions(rows, name)[i]) == Some(key));
    lemma_blocks(names, rows, hinted, k, names.len() as int, key);
    let all = blocks_upto(names, rows, hinted, names.len() as int);
    lemma_first_occurrences_within(all, key);
    let candidates = first_occurrences(all);
    assert(all_among(rows, names, key)) by {
        assert forall|r: int| 0 <= r < rows.len() && makes_block(
            (#[trigger] rows[r]).1,
            key,
        ) implies names.contains(rows[r].0) by {
            let infos = rows[r].1;
            let j = choose|j: int| 0 <= j < infos.len() && block_of(#[trigger] infos[j]) == key;
            assert(rows[r].1[j].source_path == info.source_path);
            lemma_first_occurrences_within(collect(diags, unused_name()), rows[r].0);
        }
    }
    let f = removable(names, rows);
    lemma_collect(candidates, f);
    let c = choose|c: int| 0 <= c < candidates.len() && candidates[c] == key;
    assert(f(candidates[c]) is Some);
    let found = f(candidates[c])->0;
    let blocks = removable_blocks(diags, rows);
    assert(blocks.contains(found));
    let j = choose|j: int| 0 <= j < blocks.len() && blocks[j] == found;
    assert(blocks[j].path == info.source_path);
}

proof fn lemma_blocks(
    names: Seq<Seq<char>>,
    rows: ClassRows,
    hinted: Seq<u32>,
    k: int,
    n: int,
    key: BlockKey,
)
    requires
        0 <= k < n <= names.len(),
        collect(definitions(rows, names[k]), block_on(hinted)).contains(key),
    ensures
        blocks_upto(names, rows, hinted, n).contains(key),
    decreases n,
{
    lemma_concat_contains(
        blocks_upto(names, rows, hinted, n - 1),
        collect(definitions(rows, names[n - 1]), block_on(hinted)),
        key,
    );
    if k < n - 1 {
        lemma_blocks(names, rows, hinted, k, n - 1, key);
    }
}

/// The offer to remove a rule names its selectors and its file, and takes the rule out of the text
/// of the open document or, if it is not open, of the file; it replaces it by nothing.
pub proof fn law_removals(
    documents: Seq<(Seq<char>, Seq<char>)>,
    sources: Seq<(Seq<char>, Seq<char>)>,
    block: UnusedBlockView,
    uri: Seq<char>,
    content: Seq<char>,
)
    requires
        file_to_uri(block.path) == Some(uri),
        lookup(documents, uri) == Some(content) || (lookup(documents, uri) is None && lookup(
            sources,
            block.path,
        ) == Some(content)),
    ensures
        removal_offer(documents, sources)(block) is Some == (removal_edit(
            content,
            block.line,
            block.selector,
        ) is Some),
        removal_offer(documents, sources)(block) is Some ==> {
            let action = removal_offer(documents, sources)(block)->0;
            &&& action.title == "Remove unused rule '"@ + comma_joined(block.selectors) + "' from "@
                + (if path_file_name(block.path) is Some {
                path_file_name(block.path)->0
            } else {
                "CSS file"@
            })
            &&& action.uri == uri
            &&& action.diagnostic is None
            &&& !action.preferred
            &&& action.edit.new_text.len() == 0
            &&& action.edit == removal_edit(content, block.line, block.selector)->0
        },
{
}

/// A rule that cannot be found in a text, or whose file has no address or text, is not removed.
pub proof fn law_no_removal(
    documents: Seq<(Seq<char>, Seq<char>)>,
    sources: Seq<(Seq<char>, Seq<char>)>,
    block: UnusedBlockView,
)
    ensures
        file_to_uri(block.path) is None ==> removal_offer(documents, sources)(block) is None,
        file_to_uri(block.path) is Some && lookup(documents, file_to_uri(block.path)->0) is None
            && lookup(sources, block.path) is None ==> removal_offer(documents, sources)(block)
            is None,
{
}

/// Texts are listed in their order, a comma and a space between them.
pub proof fn law_commas(all: Seq<Seq<char>>, one: Seq<char>)
    requires
        all.len() > 0,
    ensures
        comma_joined(Seq::empty()).len() == 0,
        comma_joined(seq![one]) == one,
        comma_joined(all.push(one)) == comma_joined(all) + seq![',', ' '] + one,
{
    reveal_strlit(", ");
    assert(", "@ =~= seq![',', ' ']);
    assert(all.push(one).drop_last() =~= all);
}

/// Where only white space stands beside a rule on its lines, the lines go with it, up to the next
/// one; where anything else does, the rule alone is taken out.
pub proof fn law_whole_lines_are_removed(
    before: Seq<char>,
    lead: Seq<char>,
    rule: Seq<char>,
    trail: Seq<char>,
    rest: Seq<char>,
)
    requires
        before.len() > 0 ==> before.last() == '\n',
        !lead.contains('\n'),
        !trail.contains('\n'),
        rest.len() > 0,
    ensures
        ({
            let content = before + lead + rule + trail + seq!['\n'] + rest;
            let from = (before.len() + lead.len()) as int;
            let to = (before.len() + lead.len() + rule.len()) as int;
            removed_span(content, from, to) == (if is_blank(lead) && is_blank(trail) {
                (before.len() as int, to + trail.len() + 1)
            } else {
                (from, to)
            })
        }),
{
    let content = before + lead + rule + trail + seq!['\n'] + rest;
    let a = before.len() as int;
    let from = a + lead.len();
    let to = from + rule.len();
    let end = to + trail.len();
    lemma_begin(content, a, from, lead);
    assert(content.subrange(a, from) =~= lead);
    assert forall|j: int| to <= j < end implies content[j] != '\n' by {
        assert(content[j] == trail[j - to]);
        assert(trail.contains(trail[j - to]));
    }
    assert(content[end] == '\n');
    lemma_index_from_is(content, '\n', to, end);
    assert(content.subrange(to, end) =~= trail);
}

proof fn lemma_begin(s: Seq<char>, a: int, i: int, line: Seq<char>)
    requires
        0 <= a <= i <= s.len(),
        i <= a + line.len(),
        a > 0 ==> s[a - 1] == '\n',
        forall|j: int| a <= j < i ==> s[j] == line[j - a],
        !line.contains('\n'),
    ensures
        line_begin(s, i) == a,
    decreases i - a,
{
    if i > a {
        assert(line.contains(line[i - 1 - a]));
        lemma_begin(s, a, i - 1, line);
    }
}

/// A text without quotes, brackets and backslashes.
pub open spec fn is_simple(s: Seq<char>) -> bool {
    forall|i: int|
        0 <= i < s.len() ==> !is_quote(#[trigger] s[i]) && s[i] != '(' && s[i] != ')'
            && s[i] != '[' && s[i] != ']' && s[i] != '\\'
}

/// Whether a class or an identifier stands in a text.
pub open spec fn has_mark(s: Seq<char>, n: int) -> bool {
    exists|i: int|
        0 <= i < n && i + 1 < s.len() && (#[trigger] s[i] == '.' || s[i] == '#') && is_name_start(
            s[i + 1],
        )
}

proof fn lemma_named_over(s: Seq<char>, i: int, n: int, named: bool)
    requires
        0 <= i <= n <= s.len(),
        forall|j: int|
            i <= j < n ==> !is_quote(#[trigger] s[j]) && s[j] != '(' && s[j] != '['
                && s[j] != '\\' && s[j] != ',',
    ensures
        each_is_named(s, i, named) == each_is_named(
            s,
            n,
            named || exists|j: int|
                i <= j < n && j + 1 < s.len() && (#[trigger] s[j] == '.' || s[j] == '#')
                    && is_name_start(s[j + 1]),
        ),
    decreases n - i,
{
    if i < n {
        assert(s[i] != ',');
        let here = (s[i] == '.' || s[i] == '#') && i + 1 < s.len() && is_name_start(s[i + 1]);
        lemma_named_over(s, i + 1, n, named || here);
        let rest = exists|j: int|
            i + 1 <= j < n && j + 1 < s.len() && (#[trigger] s[j] == '.' || s[j] == '#')
                && is_name_start(s[j + 1]);
        let all = exists|j: int|
            i <= j < n && j + 1 < s.len() && (#[trigger] s[j] == '.' || s[j] == '#')
                && is_name_start(s[j + 1]);
        assert(all == (here || rest)) by {
            if here {
                assert(s[i] == '.' || s[i] == '#');
            }
        }
        assert(each_is_named(s, i, named) == each_is_named(s, i + 1, named || here));
    }
}

/// A selector list without brackets and strings names something throughout exactly if a class or an
/// identifier stands in each of its selectors: here in the first and throughout the others.
pub proof fn law_lists_are_named_throughout(first: Seq<char>, more: Seq<char>)
    requires
        is_simple(first),
        !first.contains(','),
        first.len() > 0 ==> first.last() != '.' && first.last() != '#',
    ensures
        names_throughout(first) == has_mark(first, first.len() as int),
        names_throughout(first.push(',') + more) == (has_mark(first, first.len() as int)
            && names_throughout(more)),
{
    let n = first.len() as int;
    assert forall|j: int| 0 <= j < n implies !is_quote(#[trigger] first[j]) && first[j]
        != '(' && first[j] != '[' && first[j] != '\\' && first[j] != ',' by {
        assert(first.contains(first[j]));
    }
    lemma_named_over(first, 0, n, false);
    let s = first.push(',') + more;
    assert forall|j: int| 0 <= j < n implies !is_quote(#[trigger] s[j]) && s[j] != '('
        && s[j] != '[' && s[j] != '\\' && s[j] != ',' by {
        assert(s[j] == first[j]);
    }
    lemma_named_over(s, 0, n, false);
    assert(s[n] == ',');
    let a = exists|j: int|
        0 <= j < n && j + 1 < s.len() && (#[trigger] s[j] == '.' || s[j] == '#') && is_name_start(
            s[j + 1],
        );
    assert(a == has_mark(first, n)) by {
        if a {
            let j = choose|j: int|
                0 <= j < n && j + 1 < s.len() && (#[trigger] s[j] == '.' || s[j] == '#')
                    && is_name_start(s[j + 1]);
            assert(s[j] == first[j]);
            if j + 1 < n {
                assert(s[j + 1] == first[j + 1]);
            } else {
                assert(first.last() == first[j]);
            }
            assert(first[j] == '.' || first[j] == '#');
        }
        if has_mark(first, n) {
            let j = choose|j: int|
                0 <= j < n && j + 1 < first.len() && (#[trigger] first[j] == '.' || first[j] == '#')
                    && is_name_start(first[j + 1]);
            assert(s[j] == first[j] && s[j + 1] == first[j + 1]);
            assert(s[j] == '.' || s[j] == '#');
        }
    }
    lemma_named_behind(s, n + 1, n + 1, false);
    assert(s.skip(n + 1) =~= more);
}

proof fn lemma_named_behind(s: Seq<char>, p: int, i: int, named: bool)
    requires
        0 <= p <= i <= s.len(),
        p > 0 ==> s[p - 1] == ',',
    ensures
        each_is_named(s, i, named) == each_is_named(s.skip(p), i - p, named),
    decreases s.len() - i,
{
    let t = s.skip(p);
    if i < s.len() {
        assert(t[i - p] == s[i]);
        if s[i] == '\\' && i + 1 < s.len() {
            lemma_named_behind(s, p, i + 2, named);
        } else if is_quote(s[i]) {
            lemma_string_end(s, i + 1, s[i]);
            lemma_string_end_behind(s, p, i + 1, s[i]);
            let e = string_end(s, i + 1, s[i]);
            if i < e < s.len() {
                lemma_named_behind(s, p, e + 1, named);
            }
        } else if s[i] == '(' || s[i] == '[' {
            lemma_group_behind(s, p, i + 1, 1);
            if group_end(s, i + 1, 1) is Some {
                let e = group_end(s, i + 1, 1)->0;
                if i < e < s.len() {
                    assert(s.subrange(i + 1, e) =~= t.subrange(i + 1 - p, e - p));
                    lemma_asks_behind(s, p, i);
                    let more = s[i] == '(' && asks_for_match(s, i)
                        && each_is_named(s.subrange(i + 1, e), 0, false);
                    lemma_named_behind(s, p, e + 1, named || more);
                }
            }
        } else if s[i] == ',' {
            lemma_named_behind(s, p, i + 1, false);
        } else {
            if i + 1 < s.len() {
                assert(t[i + 1 - p] == s[i + 1]);
            }
            lemma_named_behind(s, p, i + 1, true);
            lemma_named_behind(s, p, i + 1, named);
        }
    }
}

proof fn lemma_group_behind(s: Seq<char>, p: int, i: int, depth: nat)
    requires
        0 <= p <= i <= s.len(),
    ensures
        group_end(s, i, depth) == (match group_end(
            s.skip(p),
            i - p,
            depth,
        ) {
            Some(e) => Some(e + p),
            None => None,
        }),
    decreases s.len() - i,
{
    let t = s.skip(p);
    if i < s.len() {
        assert(t[i - p] == s[i]);
        if s[i] == '\\' && i + 1 < s.len() {
            lemma_group_behind(s, p, i + 2, depth);
        } else if is_quote(s[i]) {
            lemma_string_end(s, i + 1, s[i]);
            lemma_string_end_behind(s, p, i + 1, s[i]);
            let e = string_end(s, i + 1, s[i]);
            if i < e < s.len() {
                lemma_group_behind(s, p, e + 1, depth);
            }
        } else if s[i] == '(' || s[i] == '[' {
            lemma_group_behind(s, p, i + 1, depth + 1);
        } else if s[i] == ')' || s[i] == ']' {
            if depth > 1 {
                lemma_group_behind(s, p, i + 1, (depth - 1) as nat);
            }
        } else {
            lemma_group_behind(s, p, i + 1, depth);
        }
    }
}

proof fn lemma_asks_behind(s: Seq<char>, p: int, i: int)
    requires
        0 <= p <= i < s.len(),
        p > 0 ==> s[p - 1] == ',',
    ensures
        asks_for_match(s, i) == asks_for_match(s.skip(p), i - p),
{
    let t = s.skip(p);
    lemma_begin_behind(s, p, i);
    let from = name_begin(s, i);
    if from > p {
        assert(t[from - 1 - p] == s[from - 1]);
    }
    assert(s.subrange(from, i) =~= t.subrange(from - p, i - p));
}

proof fn lemma_begin_behind(s: Seq<char>, p: int, i: int)
    requires
        0 <= p <= i <= s.len(),
        p > 0 ==> s[p - 1] == ',',
    ensures
        name_begin(s, i) == name_begin(s.skip(p), i - p) + p,
        p <= name_begin(s, i) <= i,
    decreases i - p,
{
    if i > p {
        assert(s.skip(p)[i - 1 - p] == s[i - 1]);
        if is_name_char(s[i - 1]) {
            lemma_begin_behind(s, p, i - 1);
        }
    }
}

/// A removal begins and ends at the positions of what it takes out.
pub proof fn law_removal_edits(content: Seq<char>, line: u32, selector: Seq<char>)
    ensures
        removal_edit(content, line, selector) is Some == (removal_span(
            content,
            line,
            selector,
        ) is Some),
        removal_edit(content, line, selector) is Some ==> {
            let span = removal_span(content, line, selector)->0;
            removal_edit(content, line, selector)->0 == (TextEditView {
                range: Range {
                    start: position_in(content, span.0),
                    end: position_in(content, span.1),
                },
                new_text: Seq::empty(),
            })
        },
{
}

/// A rule on the last line of a text goes with its line, but for the line break before or behind
/// which nothing stands.
pub proof fn law_last_lines_are_removed(
    before: Seq<char>,
    lead: Seq<char>,
    rule: Seq<char>,
    trail: Seq<char>,
)
    requires
        before.len() > 0 ==> before.last() == '\n',
        !lead.contains('\n'),
        !trail.contains('\n'),
        !trail.contains('\r'),
        is_blank(lead),
        is_blank(trail),
    ensures
        ({
            let a = before.len() as int;
            let from = a + lead.len();
            let to = from + rule.len();
            let text = before + lead + rule + trail;
            &&& removed_span(text, from, to) == (a, text.len() as int)
            &&& removed_span(text.push('\n'), from, to) == (a, text.len() as int)
            &&& removed_span(text.push('\r').push('\n'), from, to) == (a, text.len() as int)
        }),
{
    let a = before.len() as int;
    let from = a + lead.len();
    let to = from + rule.len();
    let text = before + lead + rule + trail;
    let n = text.len() as int;
    let feed = text.push('\n');
    let both = text.push('\r').push('\n');
    lemma_begin(text, a, from, lead);
    lemma_begin(feed, a, from, lead);
    lemma_begin(both, a, from, lead);
    assert forall|j: int| to <= j < n implies text[j] != '\n' && text[j] != '\r' by {
        assert(text[j] == trail[j - to]);
        assert(trail.contains(trail[j - to]));
    }
    lemma_index_from_is(text, '\n', to, n);
    lemma_index_from_is(feed, '\n', to, n);
    lemma_index_from_is(both, '\n', to, n + 1);
    assert(text.subrange(a, from) =~= lead);
    assert(feed.subrange(a, from) =~= lead);
    assert(both.subrange(a, from) =~= lead);
    assert(text.subrange(to, n) =~= trail);
    assert(feed.subrange(to, n) =~= trail);
    let rest = both.subrange(to, n + 1);
    assert forall|i: int| 0 <= i < rest.len() implies is_white(#[trigger] rest[i]) by {
        if i < trail.len() {
            assert(rest[i] == trail[i]);
        } else {
            assert(rest[i] == '\r');
        }
    }
    if to < n {
        assert(feed[n - 1] == text[n - 1]);
    }
}

/// A removable rule is shown with the selectors of all unused names that it defines, in
/// alphabetical order.
pub proof fn law_selectors_of_a_block(
    names: Seq<Seq<char>>,
    rows: ClassRows,
    block: BlockKey,
    selector: Seq<char>,
)
    requires
        removable(names, rows)(block) is Some,
    ensures
        (removable(names, rows)(block)->0).path == block.path,
        (removable(names, rows)(block)->0).line == block.line,
        (removable(names, rows)(block)->0).selector == block.selector,
        (removable(names, rows)(block)->0).selectors == sorted_texts(
            collect(names, selector_of_block(rows, block)),
        ),
        collect(names, selector_of_block(rows, block)).contains(selector)
            == exists|i: int, j: int|
            0 <= i < names.len() && 0 <= j < definitions(rows, names[i]).len()
                && #[trigger] definitions(rows, names[i])[j].source_path == block.path
                && definitions(rows, names[i])[j].definition_line == block.line && definitions(
                rows,
                names[i],
            )[j].selector == block.selector && selector == as_selector(
                names[i],
            ),
{
    let f = selector_of_block(rows, block);
    lemma_collected(names, f, selector);
    if collect(names, f).contains(selector) {
        let i = choose|i: int| 0 <= i < names.len() && f(#[trigger] names[i]) == Some(selector);
        lemma_as_selector(names[i]);
        let infos = definitions(rows, names[i]);
        let j = choose|j: int| 0 <= j < infos.len() && block_of(#[trigger] infos[j]) == block;
        assert(definitions(rows, names[i])[j].source_path == block.path);
    }
    if exists|i: int, j: int|
        0 <= i < names.len() && 0 <= j < definitions(rows, names[i]).len() && #[trigger] definitions(
            rows,
            names[i],
        )[j].source_path == block.path && definitions(rows, names[i])[j].definition_line
            == block.line && definitions(rows, names[i])[j].selector == block.selector && selector
            == as_selector(names[i]) {
        let (i, j) = choose|i: int, j: int|
            0 <= i < names.len() && 0 <= j < definitions(rows, names[i]).len()
                && #[trigger] definitions(rows, names[i])[j].source_path == block.path
                && definitions(rows, names[i])[j].definition_line == block.line && definitions(
                rows,
                names[i],
            )[j].selector == block.selector && selector == as_selector(
                names[i],
            );
        lemma_as_selector(names[i]);
        let infos = definitions(rows, names[i]);
        assert(block_of(infos[j]) == block);
        assert(makes_block(infos, block));
        assert(f(names[i]) == Some(selector));
    }
}

/// The style sheets that are known are those that a definition stands in, each once.
pub proof fn law_known_style_sheets(rows: ClassRows, n: int, path: Seq<char>)
    requires
        0 <= n <= rows.len(),
    ensures
        known_files(rows) == first_occurrences(
            known_files_upto(rows, rows.len() as int),
        ),
        known_files_upto(rows, n).contains(path) == exists|k: int, i: int|
            0 <= k < n && 0 <= i < rows[k].1.len() && (#[trigger] rows[k].1[i]).source_path == path,
    decreases n,
{
    if n > 0 {
        law_known_style_sheets(rows, n - 1, path);
        let before = known_files_upto(rows, n - 1);
        let infos = rows[n - 1].1;
        let here = infos.map_values(|i: ClassInfoView| i.source_path);
        lemma_concat_contains(before, here, path);
        if here.contains(path) {
            let i = choose|i: int| 0 <= i < here.len() && here[i] == path;
            assert(rows[n - 1].1[i].source_path == path);
        }
        if exists|k: int, i: int|
            0 <= k < n && 0 <= i < rows[k].1.len() && (#[trigger] rows[k].1[i]).source_path
                == path {
            let (k, i) = choose|k: int, i: int|
                0 <= k < n && 0 <= i < rows[k].1.len() && (#[trigger] rows[k].1[i]).source_path
                    == path;
            if k == n - 1 {
                assert(here[i] == path);
            } else {
                assert(rows[k].1[i].source_path == path);
            }
        }
    }
}

/// A pseudo-class with a list of selectors names what the list names throughout, unless it is
/// `:not`, which names nothing.
pub proof fn law_lists_in_pseudo_classes(name: Seq<char>, list: Seq<char>)
    requires
        name.len() > 0,
        forall|i: int| 0 <= i < name.len() ==> is_name_char(#[trigger] name[i]),
        is_simple(list),
    ensures
        ({
            let s = seq![':'] + name + seq!['('] + list + seq![')'];
            let negates = name.len() == 3 && (name[0] == 'n' || name[0] == 'N') && (name[1] == 'o'
                || name[1] == 'O') && (name[2] == 't' || name[2] == 'T');
            names_throughout(s) == (!negates && names_throughout(list))
        }),
{
    let s = seq![':'] + name + seq!['('] + list + seq![')'];
    let p = 1 + name.len() as int;
    let e = p + 1 + list.len();
    assert forall|j: int| 0 <= j < p implies !is_quote(#[trigger] s[j]) && s[j] != '('
        && s[j] != '[' && s[j] != '\\' && s[j] != ',' && s[j] != '.' && s[j] != '#' by {
        if j > 0 {
            assert(s[j] == name[j - 1]);
        }
    }
    lemma_named_over(s, 0, p, false);
    assert(s[p] == '(');
    lemma_group_over(s, p + 1, e);
    assert(s[e] == ')');
    assert(s.subrange(p + 1, e) =~= list);
    lemma_name_begins(s, p, name);
    assert(s.subrange(1, p) =~= name);
    assert(s[0] == ':');
    assert(e + 1 == s.len());
    let inner = asks_for_match(s, p) && each_is_named(list, 0, false);
    assert(each_is_named(s, e + 1, inner) == inner);
}

proof fn lemma_group_over(s: Seq<char>, i: int, e: int)
    requires
        0 <= i <= e < s.len(),
        s[e] == ')',
        is_simple(s.subrange(i, e)),
    ensures
        group_end(s, i, 1) == Some(e),
    decreases e - i,
{
    if i < e {
        assert(s.subrange(i, e)[0] == s[i]);
        assert forall|j: int| 0 <= j < s.subrange(i + 1, e).len() implies !is_quote(
            #[trigger] s.subrange(i + 1, e)[j],
        ) && s.subrange(i + 1, e)[j] != '(' && s.subrange(i + 1, e)[j] != ')' && s.subrange(
            i + 1,
            e,
        )[j] != '[' && s.subrange(i + 1, e)[j] != ']' && s.subrange(i + 1, e)[j] != '\\' by {
            assert(s.subrange(i + 1, e)[j] == s.subrange(i, e)[j + 1]);
        }
        lemma_group_over(s, i + 1, e);
    }
}

proof fn lemma_name_begins(s: Seq<char>, i: int, name: Seq<char>)
    requires
        1 <= i <= s.len(),
        i <= 1 + name.len(),
        s[0] == ':',
        forall|j: int| 1 <= j < i ==> #[trigger] s[j] == name[j - 1],
        forall|j: int| 0 <= j < name.len() ==> is_name_char(#[trigger] name[j]),
    ensures
        name_begin(s, i) == 1,
    decreases i,
{
    if i > 1 {
        assert(s[i - 1] == name[i - 2]);
        lemma_name_begins(s, i - 1, name);
    }
}

/// Only what was hinted at is offered for removal: each rule that can be removed holds a definition
/// of an unused name, on the line of a hint.
pub proof fn law_removable_rules_were_hinted_at(diags: Seq<DiagnosticView>, rows: ClassRows, j: int)
    requires
        0 <= j < removable_blocks(diags, rows).len(),
    ensures
        exists|a: int, b: int, i: int|
            ({
                &&& 0 <= a < diags.len()
                &&& 0 <= b < diags.len()
                &&& #[trigger] unused_name()(diags[a]) is Some
                &&& (#[trigger] diags[b]).source == Some("css-lens"@)
                &&& diags[b].severity == Some(Severity::Hint)
                &&& diags[b].range.start.line == removable_blocks(diags, rows)[j].line
                &&& 0 <= i < definitions(rows, unused_name()(diags[a])->0).len()
                &&& block_of(#[trigger] definitions(rows, unused_name()(diags[a])->0)[i]) == (
                BlockKey {
                    path: removable_blocks(diags, rows)[j].path,
                    line: removable_blocks(diags, rows)[j].line,
                    selector: removable_blocks(diags, rows)[j].selector,
                })
            }),
{
    let names = unused_names(diags);
    let hinted = unused_lines(diags);
    let all = blocks_upto(names, rows, hinted, names.len() as int);
    let candidates = first_occurrences(all);
    let f = removable(names, rows);
    lemma_collect(candidates, f);
    let block = removable_blocks(diags, rows)[j];
    let c = choose|c: int|
        0 <= c < candidates.len() && f(#[trigger] candidates[c]) == Some(
            collect(candidates, f)[j],
        );
    let key = candidates[c];
    assert(candidates.contains(key));
    lemma_first_occurrences_within(all, key);
    lemma_block_from(names, rows, hinted, names.len() as int, key);
    let k = choose|k: int|
        0 <= k < names.len() && collect(
            definitions(rows, #[trigger] names[k]),
            block_on(hinted),
        ).contains(key);
    let infos = definitions(rows, names[k]);
    lemma_collected(infos, block_on(hinted), key);
    let i = choose|i: int|
        0 <= i < infos.len() && block_on(hinted)(#[trigger] infos[i]) == Some(key);
    assert(names.contains(names[k]));
    lemma_first_occurrences_within(collect(diags, unused_name()), names[k]);
    lemma_collected(diags, unused_name(), names[k]);
    let a = choose|a: int|
        0 <= a < diags.len() && unused_name()(#[trigger] diags[a]) == Some(names[k]);
    lemma_collected(diags, unused_line(), infos[i].definition_line);
    let b = choose|b: int|
        0 <= b < diags.len() && unused_line()(#[trigger] diags[b]) == Some(
            infos[i].definition_line,
        );
    assert(unused_name()(diags[a]) is Some);
    assert(diags[b].source == Some("css-lens"@));
    assert(block_of(definitions(rows, unused_name()(diags[a])->0)[i]) == key);
}

proof fn lemma_block_from(
    names: Seq<Seq<char>>,
    rows: ClassRows,
    hinted: Seq<u32>,
    n: int,
    key: BlockKey,
)
    requires
        0 <= n <= names.len(),
        blocks_upto(names, rows, hinted, n).contains(key),
    ensures
        exists|k: int|
            0 <= k < n && collect(
                definitions(rows, #[trigger] names[k]),
                block_on(hinted),
            ).contains(key),
    decreases n,
{
    if n > 0 {
        let before = blocks_upto(names, rows, hinted, n - 1);
        let here = collect(definitions(rows, names[n - 1]), block_on(hinted));
        lemma_concat_contains(before, here, key);
        if before.contains(key) {
            lemma_block_from(names, rows, hinted, n - 1, key);
        }
    }
}

} // verus!
