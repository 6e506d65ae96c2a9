//! Completion of class names, identifiers, properties and values.

use crate::collect::{collect, lemma_collect, lemma_collect_step};
use crate::context::{
    completion_context, id_completion_context, in_class_attribute, in_id_attribute,
    in_style_attribute, inside_attr, listed_words, style_context, style_context_at, value_words,
    words_at, Attribute, StyleContext, StyleContextView,
};
use crate::cursor::{build_insert_text, cursor, cursor_context, insert_text};
use crate::dictionary::{
    css_property_completions, css_value_completions, literals, property_keywords, property_names,
};
use crate::model::{
    opt_text, ClassInfo, ClassInfoView, ClassMap, ClassRows, DocumentMap, KeyframeInfoView,
    KeyframesMap, VarMap,
};
use crate::order::{at_most, is_sorting, law_text_order_is_linear, sort, text_at_most, Ranked};
use crate::pattern::Patterns;
use crate::protocol::Position;
use crate::table::{has_name, lookup};
use crate::text::{contains_text, lowercase, same_text, skip_chars, starts_with, texts};
use crate::vars::VarRows;
use vstd::prelude::*;
use vstd::string::StringExecFns;

verus! {

/// What a completion item stands for.
#[derive(Clone, Copy, Debug, PartialEq, Eq, Structural)]
pub enum CompletionKind {
    Class,
    Value,
    Property,
    Variable,
}

/// A name that is offered.
#[derive(Debug)]
pub struct CompletionItem {
    pub label: String,
    pub kind: CompletionKind,
    pub detail: Option<String>,
    pub insert_text: String,
    pub filter_text: String,
}

/// What a `CompletionItem` says.
#[verifier::ext_equal]
pub ghost struct CompletionItemView {
    pub label: Seq<char>,
    pub kind: CompletionKind,
    pub detail: Option<Seq<char>>,
    pub insert_text: Seq<char>,
    pub filter_text: Seq<char>,
}

impl DeepView for CompletionItem {
    type V = CompletionItemView;

    open spec fn deep_view(&self) -> CompletionItemView {
        CompletionItemView {
            label: self.label@,
            kind: self.kind,
            detail: opt_text(self.detail),
            insert_text: self.insert_text@,
            filter_text: self.filter_text@,
        }
    }
}

impl Ranked for CompletionItem {
    open spec fn ranked(a: CompletionItemView, b: CompletionItemView) -> bool {
        text_at_most(a.label, b.label)
    }

    proof fn ranked_total(a: CompletionItemView, b: CompletionItemView) {
        law_text_order_is_linear();
        assert(text_at_most(a.label, b.label) || text_at_most(b.label, a.label));
    }

    proof fn ranked_transitive(a: CompletionItemView, b: CompletionItemView, c: CompletionItemView) {
        law_text_order_is_linear();
        assert(text_at_most(a.label, b.label) && text_at_most(b.label, c.label));
    }

    fn may_precede(&self, other: &Self) -> (r: bool) {
        at_most(self.label.as_str(), other.label.as_str())
    }
}

/// Whether a name fits what is being typed: letter case does not count.
pub open spec fn fits(name: Seq<char>, prefix: Seq<char>) -> bool {
    prefix.len() == 0 || lowercase(prefix).is_prefix_of(lowercase(name))
}

/// Whether a name fits what is being typed.
fn name_fits(name: &str, prefix: &str) -> (r: bool)
    ensures
        r == fits(name@, prefix@),
{
    prefix.is_empty() || starts_with(
        name.to_lowercase().as_str(),
        prefix.to_lowercase().as_str(),
    )
}

/// The file of the first definition.
pub open spec fn first_source(infos: Seq<ClassInfoView>) -> Option<Seq<char>> {
    if infos.len() > 0 {
        Some(infos[0].source_file)
    } else {
        None
    }
}

/// The file of the first definition.
fn first_source_of(infos: &Vec<ClassInfo>) -> (r: Option<String>)
    ensures
        opt_text(r) == first_source(infos.deep_view()),
{
    if infos.len() > 0 {
        Some(infos[0].source_file.clone())
    } else {
        None
    }
}

/// The item for a class: offered if the attribute does not list it already and it fits.
pub open spec fn class_item(
    existing: Seq<Seq<char>>,
    prefix: Seq<char>,
    line: Seq<char>,
    col: int,
) -> spec_fn((Seq<char>, Seq<ClassInfoView>)) -> Option<CompletionItemView> {
    |row: (Seq<char>, Seq<ClassInfoView>)|
        if !"#"@.is_prefix_of(row.0) && !existing.contains(lowercase(row.0)) && fits(
            row.0,
            prefix,
        ) {
            Some(
                CompletionItemView {
                    label: row.0,
                    kind: CompletionKind::Class,
                    detail: first_source(row.1),
                    insert_text: insert_text(row.0, line, col),
                    filter_text: lowercase(row.0),
                },
            )
        } else {
            None
        }
}

/// The item for an identifier: offered without its `#` if it fits.
pub open spec fn id_item(prefix: Seq<char>) -> spec_fn((Seq<char>, Seq<ClassInfoView>)) -> Option<
    CompletionItemView,
> {
    |row: (Seq<char>, Seq<ClassInfoView>)|
        if "#"@.is_prefix_of(row.0) && fits(row.0.skip(1), prefix) {
            Some(
                CompletionItemView {
                    label: row.0.skip(1),
                    kind: CompletionKind::Value,
                    detail: first_source(row.1),
                    insert_text: row.0.skip(1),
                    filter_text: lowercase(row.0.skip(1)),
                },
            )
        } else {
            None
        }
}

/// The item for a property name.
pub open spec fn property_item(prefix: Seq<char>) -> spec_fn(Seq<char>) -> Option<
    CompletionItemView,
> {
    |name: Seq<char>|
        if fits(name, prefix) {
            Some(
                CompletionItemView {
                    label: name,
                    kind: CompletionKind::Property,
                    detail: None,
                    insert_text: name + ": "@,
                    filter_text: lowercase(name),
                },
            )
        } else {
            None
        }
}

/// The item for a custom property.
pub open spec fn variable_item(prefix: Seq<char>) -> spec_fn((Seq<char>, Seq<char>)) -> Option<
    CompletionItemView,
> {
    |row: (Seq<char>, Seq<char>)|
        if lowercase(prefix).is_prefix_of(lowercase(row.0)) {
            Some(
                CompletionItemView {
                    label: row.0,
                    kind: CompletionKind::Variable,
                    detail: Some(row.1),
                    insert_text: row.0,
                    filter_text: lowercase(row.0),
                },
            )
        } else {
            None
        }
}

/// The item for an animation name.
pub open spec fn keyframes_item(prefix: Seq<char>) -> spec_fn((Seq<char>, KeyframeInfoView)) -> Option<
    CompletionItemView,
> {
    |row: (Seq<char>, KeyframeInfoView)|
        if fits(row.0, prefix) {
            Some(
                CompletionItemView {
                    label: row.0,
                    kind: CompletionKind::Value,
                    detail: Some(row.1.source_file),
                    insert_text: row.0,
                    filter_text: lowercase(row.0),
                },
            )
        } else {
            None
        }
}

/// The item for a keyword.
pub open spec fn keyword_item(prefix: Seq<char>) -> spec_fn(Seq<char>) -> Option<
    CompletionItemView,
> {
    |word: Seq<char>|
        if fits(word, prefix) {
            Some(
                CompletionItemView {
                    label: word,
                    kind: CompletionKind::Value,
                    detail: None,
                    insert_text: word,
                    filter_text: lowercase(word),
                },
            )
        } else {
            None
        }
}

/// The classes to offer, sorted: none that the attribute lists already, and only those that fit.
pub fn offer_classes(
    class_map: &ClassMap,
    existing: &Vec<String>,
    prefix: &str,
    line: &str,
    col: usize,
) -> (r: Vec<CompletionItem>)
    ensures
        is_sorting::<CompletionItem>(
            collect(class_map@, class_item(texts(existing@), prefix@, line@, col as int)),
            r.deep_view(),
        ),
{
    let mut items: Vec<CompletionItem> = Vec::new();
    let n: usize = class_map.len();
    let ghost f = class_item(texts(existing@), prefix@, line@, col as int);
    let ghost rows = class_map@;
    let mut i: usize = 0;
    proof {
        assert(rows.take(0) =~= seq![]);
        assert(items.deep_view() =~= seq![]);
    }
    while i < n
        invariant
            i <= n,
            n == class_map@.len(),
            rows == class_map@,
            f == class_item(texts(existing@), prefix@, line@, col as int),
            items.deep_view() == collect(rows.take(i as int), f),
        decreases n - i,
    {
        let name = class_map.name_at(i);
        let ghost before = items.deep_view();
        proof {
            lemma_collect_step(rows, i as int, f);
        }
        if !starts_with(name.as_str(), "#") {
            let lower = name.as_str().to_lowercase();
            if !contains_text(existing, lower.as_str()) && name_fits(name.as_str(), prefix) {
                let item = CompletionItem {
                    label: name.clone(),
                    kind: CompletionKind::Class,
                    detail: first_source_of(class_map.value_at(i)),
                    insert_text: build_insert_text(name.as_str(), line, col),
                    filter_text: lower,
                };
                items.push(item);
                proof {
                    assert(Some(item.deep_view()) == f(rows[i as int]));
                    assert(items.deep_view() =~= before.push(item.deep_view()));
                }
            }
        }
        i = i + 1;
    }
    proof {
        assert(rows.take(n as int) =~= rows);
    }
    sort(items)
}

/// The identifiers to offer, sorted.
pub fn offer_ids(class_map: &ClassMap, prefix: &str) -> (r: Vec<CompletionItem>)
    ensures
        is_sorting::<CompletionItem>(collect(class_map@, id_item(prefix@)), r.deep_view()),
{
    let mut items: Vec<CompletionItem> = Vec::new();
    let n: usize = class_map.len();
    let ghost f = id_item(prefix@);
    let ghost rows = class_map@;
    let mut i: usize = 0;
    proof {
        assert(rows.take(0) =~= seq![]);
        assert(items.deep_view() =~= seq![]);
        reveal_strlit("#");
    }
    while i < n
        invariant
            i <= n,
            n == class_map@.len(),
            rows == class_map@,
            f == id_item(prefix@),
            "#"@.len() == 1,
            items.deep_view() == collect(rows.take(i as int), f),
        decreases n - i,
    {
        let name = class_map.name_at(i);
        let ghost before = items.deep_view();
        proof {
            lemma_collect_step(rows, i as int, f);
        }
        if starts_with(name.as_str(), "#") {
            let bare = skip_chars(name.as_str(), 1);
            if name_fits(bare.as_str(), prefix) {
                let lower = bare.as_str().to_lowercase();
                let item = CompletionItem {
                    label: bare.clone(),
                    kind: CompletionKind::Value,
                    detail: first_source_of(class_map.value_at(i)),
                    insert_text: bare,
                    filter_text: lower,
                };
                items.push(item);
                proof {
                    assert(Some(item.deep_view()) == f(rows[i as int]));
                    assert(items.deep_view() =~= before.push(item.deep_view()));
                }
            }
        }
        i = i + 1;
    }
    proof {
        assert(rows.take(n as int) =~= rows);
    }
    sort(items)
}

/// The property names to offer, sorted.
pub fn offer_properties(prefix: &str) -> (r: Vec<CompletionItem>)
    ensures
        is_sorting::<CompletionItem>(
            collect(property_names(), property_item(prefix@)),
            r.deep_view(),
        ),
{
    let names = css_property_completions();
    let mut items: Vec<CompletionItem> = Vec::new();
    let n: usize = names.len();
    let ghost f = property_item(prefix@);
    let ghost all = literals(names@);
    let mut i: usize = 0;
    proof {
        assert(all.take(0) =~= seq![]);
        assert(items.deep_view() =~= seq![]);
    }
    while i < n
        invariant
            i <= n,
            n == names@.len(),
            all == literals(names@),
            f == property_item(prefix@),
            items.deep_view() == collect(all.take(i as int), f),
        decreases n - i,
    {
        let name = names[i];
        let ghost before = items.deep_view();
        proof {
            lemma_collect_step(all, i as int, f);
            assert(all[i as int] == name@);
        }
        if name_fits(name, prefix) {
            let mut insert = name.to_owned();
            insert.append(": ");
            let item = CompletionItem {
                label: name.to_owned(),
                kind: CompletionKind::Property,
                detail: None,
                insert_text: insert,
                filter_text: name.to_lowercase(),
            };
            items.push(item);
            proof {
                assert(Some(item.deep_view()) == f(name@));
                assert(items.deep_view() =~= before.push(item.deep_view()));
            }
        }
        i = i + 1;
    }
    proof {
        assert(all.take(n as int) =~= all);
    }
    sort(items)
}

/// The custom properties to offer, sorted.
pub fn offer_variables(vars: &VarMap, prefix: &str) -> (r: Vec<CompletionItem>)
    ensures
        is_sorting::<CompletionItem>(collect(vars@, variable_item(prefix@)), r.deep_view()),
{
    let mut items: Vec<CompletionItem> = Vec::new();
    let n: usize = vars.len();
    let ghost f = variable_item(prefix@);
    let ghost rows = vars@;
    let lower_prefix = prefix.to_lowercase();
    let mut i: usize = 0;
    proof {
        assert(rows.take(0) =~= seq![]);
        assert(items.deep_view() =~= seq![]);
    }
    while i < n
        invariant
            i <= n,
            n == vars@.len(),
            rows == vars@,
            f == variable_item(prefix@),
            lower_prefix@ == lowercase(prefix@),
            items.deep_view() == collect(rows.take(i as int), f),
        decreases n - i,
    {
        let name = vars.name_at(i);
        let ghost before = items.deep_view();
        proof {
            lemma_collect_step(rows, i as int, f);
        }
        let lower = name.as_str().to_lowercase();
        if starts_with(lower.as_str(), lower_prefix.as_str()) {
            let item = CompletionItem {
                label: name.clone(),
                kind: CompletionKind::Variable,
                detail: Some(vars.value_at(i).clone()),
                insert_text: name.clone(),
                filter_text: lower,
            };
            items.push(item);
            proof {
                assert(Some(item.deep_view()) == f(rows[i as int]));
                assert(items.deep_view() =~= before.push(item.deep_view()));
            }
        }
        i = i + 1;
    }
    proof {
        assert(rows.take(n as int) =~= rows);
    }
    sort(items)
}

/// The animation names to offer, sorted.
pub fn offer_keyframes(keyframes: &KeyframesMap, prefix: &str) -> (r: Vec<CompletionItem>)
    ensures
        is_sorting::<CompletionItem>(collect(keyframes@, keyframes_item(prefix@)), r.deep_view()),
{
    let mut items: Vec<CompletionItem> = Vec::new();
    let n: usize = keyframes.len();
    let ghost f = keyframes_item(prefix@);
    let ghost rows = keyframes@;
    let mut i: usize = 0;
    proof {
        assert(rows.take(0) =~= seq![]);
        assert(items.deep_view() =~= seq![]);
    }
    while i < n
        invariant
            i <= n,
            n == keyframes@.len(),
            rows == keyframes@,
            f == keyframes_item(prefix@),
            items.deep_view() == collect(rows.take(i as int), f),
        decreases n - i,
    {
        let name = keyframes.name_at(i);
        let ghost before = items.deep_view();
        proof {
            lemma_collect_step(rows, i as int, f);
        }
        if name_fits(name.as_str(), prefix) {
            let item = CompletionItem {
                label: name.clone(),
                kind: CompletionKind::Value,
                detail: Some(keyframes.value_at(i).source_file.clone()),
                insert_text: name.clone(),
                filter_text: name.as_str().to_lowercase(),
            };
            items.push(item);
            proof {
                assert(Some(item.deep_view()) == f(rows[i as int]));
                assert(items.deep_view() =~= before.push(item.deep_view()));
            }
        }
        i = i + 1;
    }
    proof {
        assert(rows.take(n as int) =~= rows);
    }
    sort(items)
}

/// The keywords to offer, sorted.
pub fn offer_keywords(keywords: &Vec<&'static str>, prefix: &str) -> (r: Vec<CompletionItem>)
    ensures
        is_sorting::<CompletionItem>(
            collect(literals(keywords@), keyword_item(prefix@)),
            r.deep_view(),
        ),
{
    let mut items: Vec<CompletionItem> = Vec::new();
    let n: usize = keywords.len();
    let ghost f = keyword_item(prefix@);
    let ghost all = literals(keywords@);
    let mut i: usize = 0;
    proof {
        assert(all.take(0) =~= seq![]);
        assert(items.deep_view() =~= seq![]);
    }
    while i < n
        invariant
            i <= n,
            n == keywords@.len(),
            all == literals(keywords@),
            f == keyword_item(prefix@),
            items.deep_view() == collect(all.take(i as int), f),
        decreases n - i,
    {
        let word = keywords[i];
        let ghost before = items.deep_view();
        proof {
            lemma_collect_step(all, i as int, f);
            assert(all[i as int] == word@);
        }
        if name_fits(word, prefix) {
            let item = CompletionItem {
                label: word.to_owned(),
                kind: CompletionKind::Value,
                detail: None,
                insert_text: word.to_owned(),
                filter_text: word.to_lowercase(),
            };
            items.push(item);
            proof {
                assert(Some(item.deep_view()) == f(word@));
                assert(items.deep_view() =~= before.push(item.deep_view()));
            }
        }
        i = i + 1;
    }
    proof {
        assert(all.take(n as int) =~= all);
    }
    sort(items)
}

/// What is offered inside a `style` value, before sorting: custom properties wherever `--` is being
/// typed, else names of properties or what the property takes; nothing for a property whose keywords
/// are not known.
pub open spec fn style_offers(
    context: StyleContextView,
    vars: VarRows,
    keyframes: Seq<(Seq<char>, KeyframeInfoView)>,
) -> Option<Seq<CompletionItemView>> {
    match context {
        StyleContextView::PropertyName { prefix } => if "--"@.is_prefix_of(prefix) {
            Some(collect(vars, variable_item(prefix)))
        } else {
            Some(collect(property_names(), property_item(prefix)))
        },
        StyleContextView::PropertyValue { property, prefix } => if "--"@.is_prefix_of(prefix) {
            Some(collect(vars, variable_item(prefix)))
        } else if property == "animation-name"@ {
            Some(collect(keyframes, keyframes_item(prefix)))
        } else if property_keywords(property).len() > 0 {
            Some(collect(property_keywords(property), keyword_item(prefix)))
        } else {
            None
        },
        StyleContextView::Outside => None,
    }
}

/// Whether a reply is the sorted form of what is offered.
pub open spec fn is_reply(
    offers: Option<Seq<CompletionItemView>>,
    reply: Option<Vec<CompletionItem>>,
) -> bool {
    match offers {
        None => reply is None,
        Some(all) => reply is Some && is_sorting::<CompletionItem>(all, (reply->0).deep_view()),
    }
}

/// What is offered inside a `style` value.
pub fn offer_style(context: &StyleContext, vars: &VarMap, keyframes: &KeyframesMap) -> (r: Option<
    Vec<CompletionItem>,
>)
    ensures
        is_reply(style_offers(context.deep_view(), vars@, keyframes@), r),
{
    match context {
        StyleContext::PropertyName { prefix } => {
            if starts_with(prefix.as_str(), "--") {
                return Some(offer_variables(vars, prefix.as_str()));
            }
            Some(offer_properties(prefix.as_str()))
        },
        StyleContext::PropertyValue { property, prefix } => {
            if starts_with(prefix.as_str(), "--") {
                return Some(offer_variables(vars, prefix.as_str()));
            }
            if same_text(property.as_str(), "animation-name") {
                return Some(offer_keyframes(keyframes, prefix.as_str()));
            }
            let keywords = css_value_completions(property.as_str());
            proof {
                assert(literals(keywords@).len() == keywords@.len());
            }
            if keywords.len() > 0 {
                Some(offer_keywords(&keywords, prefix.as_str()))
            } else {
                None
            }
        },
        StyleContext::Outside => None,
    }
}

/// What is offered at a position of a document, before sorting: class names inside a `class` value,
/// identifiers inside an `id` value that holds no other word, and properties and values inside a
/// `style` value.
pub open spec fn offers_at(
    text: Seq<char>,
    pos: Position,
    rows: ClassRows,
    vars: VarRows,
    keyframes: Seq<(Seq<char>, KeyframeInfoView)>,
) -> Option<Seq<CompletionItemView>> {
    if inside_attr(text, pos, Attribute::Class) {
        let at = words_at(text, pos, Attribute::Class);
        let c = cursor(text, pos)->0;
        Some(collect(rows, class_item(at.0, at.1, c.line, c.col)))
    } else if inside_attr(text, pos, Attribute::Id) {
        let at = words_at(text, pos, Attribute::Id);
        if at.0.len() > 0 {
            None
        } else {
            Some(collect(rows, id_item(at.1)))
        }
    } else if inside_attr(text, pos, Attribute::Style) {
        style_offers(style_context_at(text, pos), vars, keyframes)
    } else {
        None
    }
}

/// Completes at a position of an open document. There is no reply for a document that is not open,
/// nor where nothing is offered.
pub fn completion_handler(
    patterns: &Patterns,
    uri: &str,
    pos: Position,
    class_map: &ClassMap,
    vars: &VarMap,
    keyframes: &KeyframesMap,
    documents: &DocumentMap,
) -> (r: Option<Vec<CompletionItem>>)
    ensures
        is_reply(
            match lookup(documents@, uri@) {
                Some(text) => offers_at(text, pos, class_map@, vars@, keyframes@),
                None => None,
            },
            r,
        ),
{
    let text = match documents.get(uri) {
        Some(t) => t.as_str(),
        None => {
            return None;
        },
    };
    if in_class_attribute(patterns, text, pos) {
        let (existing, prefix) = completion_context(patterns, text, pos);
        return match cursor_context(text, pos) {
            Some(c) => Some(
                offer_classes(class_map, &existing, prefix.as_str(), c.line.as_str(), c.col),
            ),
            None => None,
        };
    }
    if in_id_attribute(patterns, text, pos) {
        let (has_value, prefix) = id_completion_context(patterns, text, pos);
        if has_value {
            return None;
        }
        return Some(offer_ids(class_map, prefix.as_str()));
    }
    if in_style_attribute(patterns, text, pos) {
        let context = style_context(patterns, text, pos);
        return offer_style(&context, vars, keyframes);
    }
    None
}

/// The same values in another order: what one list holds the other holds too.
proof fn lemma_sorting_keeps_items(
    before: Seq<CompletionItemView>,
    after: Seq<CompletionItemView>,
    x: CompletionItemView,
)
    requires
        is_sorting::<CompletionItem>(before, after),
    ensures
        before.contains(x) == after.contains(x),
{
    broadcast use vstd::seq_lib::group_to_multiset_ensures;

    assert(before.to_multiset().count(x) == after.to_multiset().count(x));
    assert(before.to_multiset().contains(x) == before.contains(x));
    assert(after.to_multiset().contains(x) == after.contains(x));
}

/// Inside a `class` value every item that is offered is a class of the map that fits what is being
/// typed and that the value does not list already; every such class is offered; and the items come
/// in alphabetical order.
pub proof fn law_offered_classes(
    rows: ClassRows,
    existing: Seq<Seq<char>>,
    prefix: Seq<char>,
    line: Seq<char>,
    col: int,
    reply: Seq<CompletionItemView>,
)
    requires
        is_sorting::<CompletionItem>(
            collect(rows, class_item(existing, prefix, line, col)),
            reply,
        ),
    ensures
        forall|j: int|
            0 <= j < reply.len() ==> {
                let item = #[trigger] reply[j];
                &&& has_name(rows, item.label)
                &&& !"#"@.is_prefix_of(item.label)
                &&& !existing.contains(lowercase(item.label))
                &&& fits(item.label, prefix)
                &&& item.insert_text == insert_text(item.label, line, col)
            },
        forall|i: int|
            0 <= i < rows.len() && class_item(existing, prefix, line, col)(#[trigger] rows[i])
                is Some ==> reply.contains(
                class_item(existing, prefix, line, col)(rows[i])->0,
            ),
        forall|i: int, j: int|
            0 <= i < j < reply.len() ==> text_at_most(
                (#[trigger] reply[i]).label,
                (#[trigger] reply[j]).label,
            ),
{
    let f = class_item(existing, prefix, line, col);
    let all = collect(rows, f);
    lemma_collect(rows, f);
    assert forall|j: int| 0 <= j < reply.len() implies {
        let item = #[trigger] reply[j];
        &&& has_name(rows, item.label)
        &&& !"#"@.is_prefix_of(item.label)
        &&& !existing.contains(lowercase(item.label))
        &&& fits(item.label, prefix)
        &&& item.insert_text == insert_text(item.label, line, col)
    } by {
        lemma_sorting_keeps_items(all, reply, reply[j]);
        assert(reply.contains(reply[j]));
        let k = choose|k: int| 0 <= k < all.len() && all[k] == reply[j];
        let i = choose|i: int| 0 <= i < rows.len() && f(#[trigger] rows[i]) == Some(all[k]);
        assert(rows[i].0 == reply[j].label);
    }
    assert forall|i: int| 0 <= i < rows.len() && f(#[trigger] rows[i]) is Some implies reply.contains(
        f(rows[i])->0,
    ) by {
        lemma_sorting_keeps_items(all, reply, f(rows[i])->0);
    }
    assert forall|i: int, j: int| 0 <= i < j < reply.len() implies text_at_most(
        (#[trigger] reply[i]).label,
        (#[trigger] reply[j]).label,
    ) by {
        assert(CompletionItem::ranked(reply[i], reply[j]));
    }
}

/// A class that the value around a position lists is not offered, however it is capitalized. The
/// word being typed at the position does not count as listed.
pub proof fn law_listed_classes_are_not_offered(
    value_before: Seq<char>,
    behind: Seq<char>,
    quote: char,
    word: Seq<char>,
    row: (Seq<char>, Seq<ClassInfoView>),
    line: Seq<char>,
    col: int,
)
    requires
        listed_words(value_before, behind, quote).contains(word),
        lowercase(word) == lowercase(row.0),
    ensures
        class_item(
            value_words(value_before, behind, quote).0,
            value_words(value_before, behind, quote).1,
            line,
            col,
        )(row) is None,
{
    let all = listed_words(value_before, behind, quote);
    let lower = value_words(value_before, behind, quote).0;
    let i = choose|i: int| 0 <= i < all.len() && all[i] == word;
    assert(lower[i] == lowercase(word));
}

/// Where `--` is being typed inside a `style` value, exactly the custom properties that fit are
/// offered.
pub proof fn law_variables_are_offered(
    context: StyleContextView,
    vars: VarRows,
    keyframes: Seq<(Seq<char>, KeyframeInfoView)>,
    prefix: Seq<char>,
)
    requires
        "--"@.is_prefix_of(prefix),
        context matches StyleContextView::PropertyName { prefix: p } ==> p == prefix,
        context matches StyleContextView::PropertyValue { property: _, prefix: p } ==> p == prefix,
        !(context is Outside),
    ensures
        style_offers(context, vars, keyframes) == Some(collect(vars, variable_item(prefix))),
{
}

/// An `id` value holds one identifier: once it holds a word beside the one being typed, nothing is
/// offered.
pub proof fn law_id_value_is_single(
    text: Seq<char>,
    pos: Position,
    rows: ClassRows,
    vars: VarRows,
    keyframes: Seq<(Seq<char>, KeyframeInfoView)>,
)
    requires
        !inside_attr(text, pos, Attribute::Class),
        inside_attr(text, pos, Attribute::Id),
        words_at(text, pos, Attribute::Id).0.len() > 0,
    ensures
        offers_at(text, pos, rows, vars, keyframes) is None,
{
}

/// Letter case does not count: whether a name fits what is being typed depends on the lowercase
/// forms of the two alone.
pub proof fn law_letter_case_does_not_count(
    name: Seq<char>,
    same_name: Seq<char>,
    prefix: Seq<char>,
    same_prefix: Seq<char>,
)
    requires
        lowercase(name) == lowercase(same_name),
        lowercase(prefix) == lowercase(same_prefix),
        (prefix.len() == 0) == (same_prefix.len() == 0),
    ensures
        fits(name, prefix) == fits(same_name, same_prefix),
{
}

} // verus!
