//! The class mapper: a smaller server that knows one definition of each class and counts columns in
//! bytes.

use crate::bytes::{boundary, lemma_boundary_ends, slice, slice_text};
use crate::collect::{collect, lemma_collect_step};
use crate::context::{ends_inside, in_attr_before, openings, Attribute};
use crate::cursor::{lines_joined, word_around, word_at_ctx};
use crate::html::Groups;
use crate::model::{opt_text, DocumentMap};
use crate::pattern::{
    all_groups, group_lists, has_groups, is_groups, is_marked_name, is_match_list, marked_names,
    regex_captures, regex_replace, Patterns, COMMENT_RE, PSEUDO_RE, RULE_RE,
};
use crate::protocol::Position;
use crate::table::{lemma_put, lookup, put, Table};
use crate::text::{lines, same_text, skip_chars, split_lines, texts, trim, trimmed_text};
use vstd::prelude::*;
use vstd::string::StringExecFns;
use vstd::utf8::encode_utf8;

verus! {

/// The definition of a class that counts.
#[derive(Debug)]
pub struct MappedClass {
    pub properties: String,
    pub source_file: String,
    pub source_path: String,
}

/// What a `MappedClass` says.
#[verifier::ext_equal]
pub ghost struct MappedClassView {
    pub properties: Seq<char>,
    pub source_file: Seq<char>,
    pub source_path: Seq<char>,
}

impl DeepView for MappedClass {
    type V = MappedClassView;

    open spec fn deep_view(&self) -> MappedClassView {
        MappedClassView {
            properties: self.properties@,
            source_file: self.source_file@,
            source_path: self.source_path@,
        }
    }
}

impl Clone for MappedClass {
    fn clone(&self) -> (r: Self)
        ensures
            r == *self,
    {
        MappedClass {
            properties: self.properties.clone(),
            source_file: self.source_file.clone(),
            source_path: self.source_path.clone(),
        }
    }
}

/// Class names with their last definition.
pub type MappedClasses = Table<MappedClass>;

/// The rows of a table of mapped classes.
pub type MappedRows = Seq<(Seq<char>, MappedClassView)>;

/// The table with a definition stored under each of several names, the last one to count.
pub open spec fn map_each(rows: MappedRows, names: Seq<Seq<char>>, info: MappedClassView) -> MappedRows
    decreases names.len(),
{
    if names.len() == 0 {
        rows
    } else {
        put(map_each(rows, names.drop_last(), info), names.last(), info)
    }
}

/// The text of a group of a match.
pub open spec fn nth_group(text: Seq<char>, groups: Groups, g: int) -> Seq<char> {
    slice(text, (groups[g]->0).0 as int, (groups[g]->0).1 as int)
}

/// The classes in a selector without its pseudo-classes and pseudo-elements.
pub open spec fn mapped_names(selector: Seq<char>) -> Seq<Seq<char>> {
    marked_names(regex_replace(PSEUDO_RE@, selector, ""@), '.').map_values(
        |t: Seq<char>| t.skip(1),
    )
}

/// The table with the classes of one rule; a rule that declares nothing adds none.
pub open spec fn map_rule(
    rows: MappedRows,
    names: Seq<Seq<char>>,
    declarations: Seq<char>,
    source_file: Seq<char>,
    source_path: Seq<char>,
) -> MappedRows {
    if trim(declarations).len() == 0 {
        rows
    } else {
        map_each(
            rows,
            names,
            MappedClassView { properties: trim(declarations), source_file, source_path },
        )
    }
}

/// The table with the classes of the first `k` rules of a text without comments.
pub open spec fn map_rules_upto(
    rows: MappedRows,
    text: Seq<char>,
    matches: Seq<Groups>,
    source_file: Seq<char>,
    source_path: Seq<char>,
    k: int,
) -> MappedRows
    decreases k,
{
    if k <= 0 {
        rows
    } else {
        map_rule(
            map_rules_upto(rows, text, matches, source_file, source_path, k - 1),
            mapped_names(nth_group(text, matches[k - 1], 1)),
            nth_group(text, matches[k - 1], 2),
            source_file,
            source_path,
        )
    }
}

/// The table with the classes of a style sheet.
pub open spec fn map_content(
    rows: MappedRows,
    content: Seq<char>,
    source_file: Seq<char>,
    source_path: Seq<char>,
) -> MappedRows {
    let text = regex_replace(COMMENT_RE@, content, " "@);
    let matches = regex_captures(RULE_RE@, text);
    map_rules_upto(rows, text, matches, source_file, source_path, matches.len() as int)
}

/// Stores the classes of one rule, given the class tokens in its selector.
pub fn file_mapped_rule(
    classes: &Vec<String>,
    declarations: &str,
    source_file: &str,
    source_path: &str,
    class_map: &mut MappedClasses,
)
    requires
        forall|i: int|
            0 <= i < classes@.len() ==> is_marked_name((#[trigger] classes@[i])@, '.'),
    ensures
        final(class_map)@ == map_rule(
            old(class_map)@,
            texts(classes@).map_values(|t: Seq<char>| t.skip(1)),
            declarations@,
            source_file@,
            source_path@,
        ),
{
    let properties = trimmed_text(declarations);
    if properties.as_str().is_empty() {
        return ;
    }
    let n: usize = classes.len();
    let ghost names = texts(classes@).map_values(|t: Seq<char>| t.skip(1));
    let ghost info = MappedClassView {
        properties: properties@,
        source_file: source_file@,
        source_path: source_path@,
    };
    let mut i: usize = 0;
    proof {
        assert(names.take(0) =~= seq![]);
    }
    while i < n
        invariant
            i <= n,
            n == classes@.len(),
            names == texts(classes@).map_values(|t: Seq<char>| t.skip(1)),
            info == (MappedClassView {
                properties: properties@,
                source_file: source_file@,
                source_path: source_path@,
            }),
            forall|i: int|
                0 <= i < classes@.len() ==> is_marked_name((#[trigger] classes@[i])@, '.'),
            class_map@ == map_each(old(class_map)@, names.take(i as int), info),
        decreases n - i,
    {
        let name = skip_chars(classes[i].as_str(), 1);
        let class = MappedClass {
            properties: properties.clone(),
            source_file: source_file.to_owned(),
            source_path: source_path.to_owned(),
        };
        proof {
            assert(names.take(i + 1).drop_last() =~= names.take(i as int));
            assert(names.take(i + 1).last() == name@);
        }
        class_map.insert(name, class);
        i = i + 1;
    }
    proof {
        assert(names.take(n as int) =~= names);
    }
}

/// Stores the classes of a style sheet.
pub fn map_css_content(
    patterns: &Patterns,
    content: &str,
    source_file: &str,
    source_path: &str,
    class_map: &mut MappedClasses,
)
    ensures
        final(class_map)@ == map_content(
            old(class_map)@,
            content@,
            source_file@,
            source_path@,
        ),
{
    let stripped = patterns.comment_re().replace_all(content, " ");
    let text = stripped.as_str();
    let matches = patterns.rule_re().captures_all(text);
    let n: usize = matches.len();
    let mut k: usize = 0;
    proof {
        assert(has_groups(RULE_RE@, 2));
        assert forall|i: int| 0 <= i < matches@.len() implies all_groups(
            (#[trigger] matches@[i])@,
            2,
        ) by {
        }
        assert(group_lists(matches@).len() == matches@.len());
    }
    while k < n
        invariant
            k <= n,
            n == matches@.len(),
            is_match_list(text@, group_lists(matches@)),
            forall|i: int| 0 <= i < matches@.len() ==> all_groups((#[trigger] matches@[i])@, 2),
            class_map@ == map_rules_upto(
                old(class_map)@,
                text@,
                group_lists(matches@),
                source_file@,
                source_path@,
                k as int,
            ),
        decreases n - k,
    {
        let ghost groups = matches@[k as int]@;
        proof {
            assert(group_lists(matches@)[k as int] == groups);
            assert(is_groups(text@, groups));
            assert(groups[1] is Some);
            assert(groups[2] is Some);
        }
        let (a, b): (usize, usize) = match matches[k][1] {
            Some(span) => span,
            None => (0, 0),
        };
        let (c, d): (usize, usize) = match matches[k][2] {
            Some(span) => span,
            None => (0, 0),
        };
        let selector = slice_text(text, a, b);
        let declarations = slice_text(text, c, d);
        let plain = patterns.pseudo_re().replace_all(selector.as_str(), "");
        let classes = patterns.class_re().find_all(plain.as_str());
        file_mapped_rule(&classes, declarations.as_str(), source_file, source_path, class_map);
        k = k + 1;
    }
}

/// The last definition of a class counts, and other classes keep theirs.
pub proof fn law_last_definition_counts(
    rows: MappedRows,
    names: Seq<Seq<char>>,
    info: MappedClassView,
    name: Seq<char>,
)
    ensures
        lookup(map_each(rows, names, info), name) == (if names.contains(name) {
            Some(info)
        } else {
            lookup(rows, name)
        }),
    decreases names.len(),
{
    if names.len() > 0 {
        let head = names.drop_last();
        law_last_definition_counts(rows, head, info, name);
        lemma_put(map_each(rows, head, info), names.last(), info);
        if names.contains(name) {
            let i = choose|i: int| 0 <= i < names.len() && names[i] == name;
            if i < head.len() {
                assert(head[i] == name);
            }
        }
        if head.contains(name) {
            let i = choose|i: int| 0 <= i < head.len() && head[i] == name;
            assert(names[i] == name);
        }
        assert(names[names.len() - 1] == names.last());
    }
}

/// A class that is not defined in a file.
pub open spec fn mapped_not_from(path: Seq<char>) -> spec_fn((Seq<char>, MappedClassView)) -> Option<
    (Seq<char>, MappedClassView),
> {
    |row: (Seq<char>, MappedClassView)|
        if row.1.source_path != path {
            Some(row)
        } else {
            None
        }
}

/// Drops the classes that are defined in a file.
pub fn forget_mapped(class_map: &mut MappedClasses, path: &str)
    ensures
        final(class_map)@ == collect(old(class_map)@, mapped_not_from(path@)),
{
    let n: usize = class_map.len();
    let ghost rows = class_map@;
    let ghost f = mapped_not_from(path@);
    let mut kept: MappedClasses = Table::new();
    let mut k: usize = 0;
    proof {
        assert(rows.take(0) =~= seq![]);
        assert(kept@ =~= seq![]);
    }
    while k < n
        invariant
            k <= n,
            n == class_map@.len(),
            rows == class_map@,
            f == mapped_not_from(path@),
            kept@ == collect(rows.take(k as int), f),
        decreases n - k,
    {
        proof {
            lemma_collect_step(rows, k as int, f);
        }
        let class = class_map.value_at(k);
        if !same_text(class.source_path.as_str(), path) {
            kept.push_row(class_map.name_at(k).clone(), class.clone());
        }
        k = k + 1;
    }
    proof {
        assert(rows.take(n as int) =~= rows);
    }
    *class_map = kept;
}

/// The byte column that a position stands for on a line: not behind its end.
pub open spec fn clamped(line: Seq<char>, character: u32) -> int {
    if character <= encode_utf8(line).len() {
        character as int
    } else {
        encode_utf8(line).len() as int
    }
}

/// Whether a position does not split a character.
pub open spec fn between_characters(text: Seq<char>, pos: Position) -> bool {
    pos.line < lines(text).len() ==> boundary(
        lines(text)[pos.line as int],
        clamped(lines(text)[pos.line as int], pos.character),
    )
}

/// The text before a position; none if the document has no such line.
pub open spec fn text_before(text: Seq<char>, pos: Position) -> Option<Seq<char>> {
    let all = lines(text);
    if pos.line < all.len() {
        let line = all[pos.line as int];
        Some(lines_joined(all, pos.line as int) + slice(line, 0, clamped(line, pos.character)))
    } else {
        None
    }
}

/// Whether a position does not split a character.
pub fn is_between_characters(text: &str, pos: Position) -> (r: bool)
    ensures
        r == between_characters(text@, pos),
{
    let all = split_lines(text);
    proof {
        assert(texts(all@).len() == all@.len());
    }
    let at: usize = pos.line as usize;
    if at >= all.len() {
        return true;
    }
    let line = all[at].as_str();
    let n: usize = line.as_bytes().len();
    let col: usize = if pos.character as usize <= n {
        pos.character as usize
    } else {
        n
    };
    line.is_char_boundary(col)
}

/// The text before a position.
fn read_before(text: &str, pos: Position) -> (r: Option<String>)
    requires
        between_characters(text@, pos),
    ensures
        opt_text(r) == text_before(text@, pos),
{
    let all = split_lines(text);
    proof {
        assert(texts(all@).len() == all@.len());
    }
    let at: usize = pos.line as usize;
    if at >= all.len() {
        return None;
    }
    let mut before = String::new();
    let mut i: usize = 0;
    while i < at
        invariant
            i <= at,
            at < all@.len(),
            before@ == lines_joined(texts(all@), i as int),
        decreases at - i,
    {
        before.append(all[i].as_str());
        before.push('\n');
        i = i + 1;
    }
    let line = all[at].as_str();
    let n: usize = line.as_bytes().len();
    let col: usize = if pos.character as usize <= n {
        pos.character as usize
    } else {
        n
    };
    proof {
        lemma_boundary_ends(line@);
    }
    let head = slice_text(line, 0, col);
    before.append(head.as_str());
    Some(before)
}

/// Whether a position lies inside a `class` value.
pub open spec fn mapped_inside(text: Seq<char>, pos: Position) -> bool {
    match text_before(text, pos) {
        Some(before) => ends_inside(before, openings(before, Attribute::Class)),
        None => false,
    }
}

/// Whether a position lies inside a `class` value.
pub fn in_mapped_attribute(patterns: &Patterns, text: &str, pos: Position) -> (r: bool)
    requires
        between_characters(text@, pos),
    ensures
        r == mapped_inside(text@, pos),
{
    match read_before(text, pos) {
        Some(before) => in_attr_before(patterns, before.as_str(), Attribute::Class),
        None => false,
    }
}

/// The word at a position.
pub open spec fn mapped_word(text: Seq<char>, pos: Position) -> Option<Seq<char>> {
    if pos.line < lines(text).len() {
        word_around(lines(text)[pos.line as int], pos.character as int)
    } else {
        None
    }
}

/// The word at a position.
pub fn mapped_word_at(text: &str, pos: Position) -> (r: Option<String>)
    ensures
        opt_text(r) == mapped_word(text@, pos),
{
    let all = split_lines(text);
    proof {
        assert(texts(all@).len() == all@.len());
    }
    let at: usize = pos.line as usize;
    if at >= all.len() {
        return None;
    }
    word_at_ctx(all[at].as_str(), pos.character as usize)
}

/// The classes that are offered: all, each with the file of its definition.
pub open spec fn mapped_offers(rows: MappedRows) -> Seq<(Seq<char>, Seq<char>)> {
    rows.map_values(|row: (Seq<char>, MappedClassView)| (row.0, row.1.source_file))
}

/// A list of pairs of strings.
pub open spec fn pair_texts(v: Seq<(String, String)>) -> Seq<(Seq<char>, Seq<char>)> {
    v.map_values(|p: (String, String)| (p.0@, p.1@))
}

/// The classes that are offered at a position of an open document, each with the file of its
/// definition; nothing outside a `class` value.
pub fn mapped_completions(
    patterns: &Patterns,
    uri: &str,
    pos: Position,
    class_map: &MappedClasses,
    documents: &DocumentMap,
) -> (r: Option<Vec<(String, String)>>)
    requires
        lookup(documents@, uri@) is Some ==> between_characters(lookup(documents@, uri@)->0, pos),
    ensures
        r is Some == (lookup(documents@, uri@) is Some && mapped_inside(
            lookup(documents@, uri@)->0,
            pos,
        )),
        r is Some ==> pair_texts((r->0)@) == mapped_offers(class_map@),
{
    let text = match documents.get(uri) {
        Some(t) => t.as_str(),
        None => {
            return None;
        },
    };
    if !in_mapped_attribute(patterns, text, pos) {
        return None;
    }
    let n: usize = class_map.len();
    let ghost all = mapped_offers(class_map@);
    let mut items: Vec<(String, String)> = Vec::new();
    let mut k: usize = 0;
    proof {
        assert(pair_texts(items@) =~= all.take(0));
    }
    while k < n
        invariant
            k <= n,
            n == class_map@.len(),
            all == mapped_offers(class_map@),
            pair_texts(items@) == all.take(k as int),
        decreases n - k,
    {
        let ghost before = pair_texts(items@);
        let item = (class_map.name_at(k).clone(), class_map.value_at(k).source_file.clone());
        items.push(item);
        proof {
            assert(pair_texts(items@) =~= before.push((item.0@, item.1@)));
            assert(pair_texts(items@) =~= all.take(k + 1));
        }
        k = k + 1;
    }
    proof {
        assert(all.take(n as int) =~= all);
    }
    Some(items)
}

/// What is shown for a class.
pub open spec fn mapped_text(name: Seq<char>, class: MappedClassView) -> Seq<char> {
    "**"@ + name + "** — "@ + class.source_file + "\n\n```css\n."@ + name + " {\n"@
        + class.properties + "\n}\n```"@
}

/// What is shown at a position of an open document, as Markdown: the class under the pointer inside
/// a `class` value, if it is known.
pub fn mapped_hover(
    patterns: &Patterns,
    uri: &str,
    pos: Position,
    class_map: &MappedClasses,
    documents: &DocumentMap,
) -> (r: Option<String>)
    requires
        lookup(documents@, uri@) is Some ==> between_characters(lookup(documents@, uri@)->0, pos),
    ensures
        opt_text(r) == (match lookup(documents@, uri@) {
            Some(text) => match mapped_word(text, pos) {
                Some(name) => if mapped_inside(text, pos) && lookup(class_map@, name) is Some {
                    Some(mapped_text(name, lookup(class_map@, name)->0))
                } else {
                    None
                },
                None => None,
            },
            None => None,
        }),
{
    let text = match documents.get(uri) {
        Some(t) => t.as_str(),
        None => {
            return None;
        },
    };
    if !in_mapped_attribute(patterns, text, pos) {
        return None;
    }
    let name = match mapped_word_at(text, pos) {
        Some(name) => name,
        None => {
            return None;
        },
    };
    match class_map.get(name.as_str()) {
        Some(class) => {
            let mut r = "**".to_owned();
            r.append(name.as_str());
            r.append("** — ");
            r.append(class.source_file.as_str());
            r.append("\n\n```css\n.");
            r.append(name.as_str());
            r.append(" {\n");
            r.append(class.properties.as_str());
            r.append("\n}\n```");
            Some(r)
        },
        None => None,
    }
}

} // verus!
