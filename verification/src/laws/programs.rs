//! The smaller server and the installation of the server.

use crate::bytes::slice;
use crate::cursor::{lines_joined, word_around};
use crate::install::{
    asset_name, binary_dir, binary_path, build_for, completion_label, follows, no_asset_message,
    no_build_message, position_of, Architecture, Os, Outcome, Plan, Step,
};
use crate::laws::parsing::{
    is_longest_name, lemma_marked_comes_from, lemma_marked_contains, lemma_name_run,
    lemma_name_run_is_longest,
};
use crate::mapper::{
    law_last_definition_counts, map_content, map_rules_upto, mapped_inside, mapped_names,
    mapped_not_from, mapped_offers, mapped_text, mapped_word, nth_group, text_before,
    MappedClassView, MappedRows,
};
use crate::pattern::{
    marked_at, marked_names, name_run, regex_captures, regex_replace, CLASS_ATTR_RE, COMMENT_RE,
    PSEUDO_RE, RULE_RE,
};
use crate::protocol::Position;
use crate::table::lookup;
use crate::text::{lines, trim};
use vstd::prelude::*;
use vstd::utf8::encode_utf8;

verus! {

/// There are builds for both kinds of Mac and for Linux on x86-64, and for nothing else.
pub proof fn law_builds(os: Os, arch: Architecture)
    ensures
        os == Os::Mac && arch == Architecture::Aarch64 ==> build_for(os, arch) == Some(
            "aarch64-apple-darwin"@,
        ),
        os == Os::Mac && arch == Architecture::X8664 ==> build_for(os, arch) == Some(
            "x86_64-apple-darwin"@,
        ),
        os == Os::Linux && arch == Architecture::X8664 ==> build_for(os, arch) == Some(
            "x86_64-unknown-linux-gnu"@,
        ),
        build_for(os, arch) is Some ==> (os == Os::Mac && (arch == Architecture::Aarch64 || arch
            == Architecture::X8664)) || (os == Os::Linux && arch == Architecture::X8664),
{
}

/// What is installed is named after the version and the build, and goes to a place named after the
/// version.
pub proof fn law_names_of_an_installation(
    version: Seq<char>,
    target: Seq<char>,
    os_name: Seq<char>,
    arch_name: Seq<char>,
    assets: Seq<char>,
)
    ensures
        asset_name(version, target) == "css-lens-"@ + version + "-"@ + target + ".tar.gz"@,
        binary_dir(version) == "css-lens-"@ + version,
        binary_path(version) == "css-lens-"@ + version + "/css-lens"@,
        no_build_message(Os::Windows, os_name, arch_name) == "Windows is not yet supported"@,
        no_build_message(Os::Linux, os_name, arch_name)
            == "Unsupported platform/architecture combination: "@ + os_name + "/"@ + arch_name,
        no_build_message(Os::Mac, os_name, arch_name)
            == "Unsupported platform/architecture combination: "@ + os_name + "/"@ + arch_name,
        no_asset_message(target, version, assets) == "Asset '"@ + target
            + "' not found in release "@ + version + ". Available assets: "@ + assets,
{
}

/// The asset that is taken is the first of its name; there is none if no asset has the name.
pub proof fn law_assets_by_name(list: Seq<Seq<char>>, name: Seq<char>)
    ensures
        position_of(list, name) is Some == list.contains(name),
        position_of(list, name) is Some ==> {
            let i = position_of(list, name)->0;
            0 <= i < list.len() && list[i] == name && forall|j: int|
                0 <= j < i ==> #[trigger] list[j] != name
        },
    decreases list.len(),
{
    if list.len() > 0 {
        let rest = list.skip(1);
        law_assets_by_name(rest, name);
        if list[0] != name {
            if list.contains(name) {
                let i = choose|i: int| 0 <= i < list.len() && list[i] == name;
                assert(rest[i - 1] == name);
            }
            if rest.contains(name) {
                let i = choose|i: int| 0 <= i < rest.len() && rest[i] == name;
                assert(list[i + 1] == name);
                let k = position_of(rest, name)->0;
                assert forall|j: int| 0 <= j < k + 1 implies #[trigger] list[j] != name by {
                    if j > 0 {
                        assert(rest[j - 1] == list[j]);
                    }
                }
            }
        }
    }
}

/// The server of a plan is started exactly where it is there already or could be made executable
/// after a download; a download comes only where it is not there; the latest release is tried
/// before the other; and a failure that nothing makes up for ends the installation.
pub proof fn law_course_of_an_installation(step: Step, outcome: Outcome, next: Step)
    requires
        follows(step, outcome, next),
    ensures
        next is Start && !(step is Start) ==> outcome is Done && ((step matches Step::CheckBinary {
            plan,
        } && (next matches Step::Start { path } && path == plan.binary_path)) || (
        step matches Step::MakeExecutable { plan } && (next matches Step::Start { path } && path
            == plan.binary_path))),
        next is Download && !(step is Download) ==> outcome is Failed && (
        step matches Step::CheckBinary { plan: p } && (next matches Step::Download { plan: q } && p
            == q)),
        next is MakeExecutable && !(step is MakeExecutable) ==> outcome is Done && (
        step matches Step::Download { plan: p } && (next matches Step::MakeExecutable { plan: q }
            && p == q)),
        next is FetchFallback && !(step is FetchFallback) ==> step is FetchLatest && outcome
            is Failed,
        step is FetchLatest && outcome is Done ==> next is Choose,
        step is FetchFallback && outcome is Done ==> next is Choose,
        outcome is Failed && (step is FetchFallback || step is Choose || step is Download || step
            is MakeExecutable) ==> next is Fail,
        step is Start || step is Fail ==> next == step,
{
}

/// An entry of a list is shown with its file, if there is one.
pub proof fn law_labels(label: Seq<char>, detail: Seq<char>)
    ensures
        completion_label(label, None) == label,
        detail.len() == 0 ==> completion_label(label, Some(detail)) == label,
        detail.len() > 0 ==> completion_label(label, Some(detail)) == label + " — "@ + detail,
{
}

/// A class that stands in a text: a dot at `p` and a longest name from there to `e`.
pub open spec fn is_class_at(s: Seq<char>, p: int, e: int, name: Seq<char>) -> bool {
    0 <= p < s.len() && s[p] == '.' && is_longest_name(s, p + 1, e) && name == s.subrange(p + 1, e)
}

/// The smaller server knows of a selector exactly the classes that stand in it outside
/// pseudo-classes and pseudo-elements.
pub proof fn law_mapped_names(selector: Seq<char>, name: Seq<char>)
    ensures
        mapped_names(selector).contains(name) == exists|p: int, e: int| #[trigger]
            is_class_at(regex_replace(PSEUDO_RE@, selector, ""@), p, e, name),
{
    let plain = regex_replace(PSEUDO_RE@, selector, ""@);
    let tokens = marked_names(plain, '.');
    let all = mapped_names(selector);
    if all.contains(name) {
        let k = choose|k: int| 0 <= k < all.len() && all[k] == name;
        lemma_marked_comes_from(plain, '.', 0, k);
        let p = choose|p: int|
            0 <= p && #[trigger] marked_at(plain, '.', p) && tokens[k] == plain.subrange(
                p,
                name_run(plain, p + 1),
            );
        let e = name_run(plain, p + 1);
        lemma_name_run_is_longest(plain, p + 1, p + 1);
        assert(plain.subrange(p, e).skip(1) =~= plain.subrange(p + 1, e));
        assert(is_class_at(plain, p, e, name));
    }
    if exists|p: int, e: int| #[trigger] is_class_at(plain, p, e, name) {
        let (p, e) = choose|p: int, e: int| #[trigger] is_class_at(plain, p, e, name);
        lemma_name_run(plain, p + 1, p + 1, e);
        lemma_marked_contains(plain, '.', 0, p);
        let token = plain.subrange(p, e);
        let k = choose|k: int| 0 <= k < tokens.len() && tokens[k] == token;
        assert(token.skip(1) =~= name);
        assert(all[k] == name);
    }
}

/// The smaller server reads each rule of a style sheet without its comments: a class of its
/// selector is known with its declarations from then on, unless they are blank; other classes stay
/// as they were.
pub proof fn law_mapped_rules(
    rows: MappedRows,
    content: Seq<char>,
    file: Seq<char>,
    path: Seq<char>,
    k: int,
    name: Seq<char>,
)
    requires
        0 <= k < regex_captures(RULE_RE@, regex_replace(COMMENT_RE@, content, " "@)).len(),
    ensures
        ({
            let text = regex_replace(COMMENT_RE@, content, " "@);
            let rules = regex_captures(RULE_RE@, text);
            let selector = slice(text, (rules[k][1]->0).0 as int, (rules[k][1]->0).1 as int);
            let block = slice(text, (rules[k][2]->0).0 as int, (rules[k][2]->0).1 as int);
            let before = map_rules_upto(rows, text, rules, file, path, k);
            let after = map_rules_upto(rows, text, rules, file, path, k + 1);
            &&& map_rules_upto(rows, text, rules, file, path, 0) == rows
            &&& map_content(rows, content, file, path) == map_rules_upto(
                rows,
                text,
                rules,
                file,
                path,
                rules.len() as int,
            )
            &&& lookup(after, name) == (if trim(block).len() > 0 && mapped_names(selector).contains(
                name,
            ) {
                Some(
                    MappedClassView {
                        properties: trim(block),
                        source_file: file,
                        source_path: path,
                    },
                )
            } else {
                lookup(before, name)
            })
        }),
{
    let text = regex_replace(COMMENT_RE@, content, " "@);
    let rules = regex_captures(RULE_RE@, text);
    let selector = nth_group(text, rules[k], 1);
    let block = nth_group(text, rules[k], 2);
    let before = map_rules_upto(rows, text, rules, file, path, k);
    let info = MappedClassView { properties: trim(block), source_file: file, source_path: path };
    law_last_definition_counts(before, mapped_names(selector), info, name);
}

/// The smaller server offers every class with its file, and shows a class with its file and its
/// declarations.
pub proof fn law_mapped_answers(rows: MappedRows, i: int, name: Seq<char>, class: MappedClassView)
    ensures
        mapped_offers(rows).len() == rows.len(),
        0 <= i < rows.len() ==> mapped_offers(rows)[i] == (rows[i].0, rows[i].1.source_file),
        mapped_text(name, class) == "**"@ + name + "** — "@ + class.source_file
            + "\n\n```css\n."@ + name + " {\n"@ + class.properties + "\n}\n```"@,
        mapped_not_from(class.source_path)((name, class)) is None,
        0 <= i < rows.len() && rows[i].1.source_path != class.source_path ==> mapped_not_from(
            class.source_path,
        )(rows[i]) == Some(rows[i]),
{
}

/// The smaller server counts columns in bytes: the text before a position is that of the lines
/// above and of its own line up to the column, or all of the line if it is shorter.
pub proof fn law_mapped_positions(text: Seq<char>, pos: Position)
    ensures
        pos.line >= lines(text).len() ==> text_before(text, pos)
            is None && !mapped_inside(text, pos) && mapped_word(
            text,
            pos,
        ) is None,
        pos.line < lines(text).len() ==> {
            let all = lines(text);
            let line = all[pos.line as int];
            let n = encode_utf8(line).len() as int;
            let at = if pos.character <= n {
                pos.character as int
            } else {
                n
            };
            &&& text_before(text, pos) == Some(
                lines_joined(all, pos.line as int) + slice(line, 0, at),
            )
            &&& mapped_word(text, pos) == word_around(
                line,
                pos.character as int,
            )
        },
{
}

/// A position of the smaller server lies inside a `class` value exactly if the last one that opens
/// before it is not closed before it.
pub proof fn law_mapped_inside(text: Seq<char>, pos: Position, before: Seq<char>)
    requires
        text_before(text, pos) == Some(before),
    ensures
        ({
            let b = encode_utf8(before);
            let found = regex_captures(CLASS_ATTR_RE@, before);
            mapped_inside(text, pos) == (found.len() > 0 && forall|j: int|
                (found.last()[0]->0).1 <= j < b.len() ==> #[trigger] b[j]
                    != b[(found.last()[1]->0).0 as int])
        }),
{
}

/// What follows each step: a release that cannot be had is replaced by the other one, a server that
/// is not there is downloaded and then made executable, and every failure is reported with its
/// reason.
pub proof fn law_steps_of_an_installation(
    plan: Plan,
    any: Option<Plan>,
    message: String,
    next: Step,
)
    ensures
        follows(Step::FetchLatest, Outcome::Failed { message }, next) ==> next is FetchFallback,
        follows(Step::Choose, Outcome::Done { plan: Some(plan) }, next) ==> next == (
        Step::CheckBinary { plan }),
        follows(Step::Choose, Outcome::Failed { message }, next) ==> next == (Step::Fail {
            message,
        }),
        follows(Step::CheckBinary { plan }, Outcome::Done { plan: any }, next) ==> next == (
        Step::Start { path: plan.binary_path }),
        follows(Step::CheckBinary { plan }, Outcome::Failed { message }, next) ==> next == (
        Step::Download { plan }),
        follows(Step::Download { plan }, Outcome::Done { plan: any }, next) ==> next == (
        Step::MakeExecutable { plan }),
        follows(Step::MakeExecutable { plan }, Outcome::Done { plan: any }, next) ==> next == (
        Step::Start { path: plan.binary_path }),
        follows(Step::FetchFallback, Outcome::Failed { message }, next) ==> (
        next matches Step::Fail { message: why } && why@
            == "Failed to fetch any GitHub release from css-lens (tried latest and v0.9.0): "@
            + message@),
        follows(Step::Download { plan }, Outcome::Failed { message }, next) ==> (
        next matches Step::Fail { message: why } && why@ == "Failed to download '"@
            + plan.asset_name@ + "': "@ + message@),
        follows(Step::MakeExecutable { plan }, Outcome::Failed { message }, next) ==> (
        next matches Step::Fail { message: why } && why@ == "Failed to make '"@ + plan.binary_path@
            + "' executable: "@ + message@),
{
}

} // verus!
