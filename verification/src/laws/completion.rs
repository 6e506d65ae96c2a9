//! What is offered at a position of a document.

use crate::collect::{collect, lemma_collect};
use crate::completion::{
    class_item, id_item, is_reply, keyframes_item, keyword_item, offers_at, property_item,
    style_offers, variable_item, CompletionItem, CompletionItemView, CompletionKind,
};
use crate::context::{
    declaration_context, inside_attr, style_context_at, words_at, Attribute, StyleContextView,
};
use crate::cursor::{cursor, name_tail};
use crate::dictionary::{property_keywords, property_names};
use crate::model::{ClassRows, KeyframeInfoView};
use crate::order::{bytes_at_most, text_at_most};
use crate::pattern::is_name_char;
use crate::protocol::Position;
use crate::text::{lemma_index_from_is, lowercase, trim};
use crate::vars::VarRows;
use vstd::prelude::*;
use vstd::utf8::encode_utf8;

verus! {

/// What is collected is what is made of some item.
pub proof fn lemma_collected<A, B>(s: Seq<A>, f: spec_fn(A) -> Option<B>, x: B)
    ensures
        collect(s, f).contains(x) == exists|i: int|
            0 <= i < s.len() && f(#[trigger] s[i]) == Some(x),
{
    lemma_collect(s, f);
    if collect(s, f).contains(x) {
        let j = choose|j: int| 0 <= j < collect(s, f).len() && collect(s, f)[j] == x;
        assert(collect(s, f)[j] == x);
    }
    if exists|i: int| 0 <= i < s.len() && f(#[trigger] s[i]) == Some(x) {
        let i = choose|i: int| 0 <= i < s.len() && f(#[trigger] s[i]) == Some(x);
        assert(f(s[i]) is Some);
    }
}

/// Whether a name begins with what is being typed, whatever the case of its letters.
pub open spec fn begins_with(name: Seq<char>, typed: Seq<char>) -> bool {
    typed.len() == 0 || lowercase(typed).is_prefix_of(lowercase(name))
}

/// The space that keeps a name apart from a byte that belongs to a name.
pub open spec fn gap(b: Seq<u8>, i: int) -> Seq<char> {
    if 0 <= i < b.len() && ((0x30 <= b[i] <= 0x39) || (0x41 <= b[i] <= 0x5a) || (0x61 <= b[i]
        <= 0x7a) || b[i] == 0x2d || b[i] == 0x5f) {
        seq![' ']
    } else {
        seq![]
    }
}

/// Inside a `class` value exactly those classes of the map are offered that begin with what is
/// being typed and that the value does not list already. What is inserted is the name, with a space
/// where it would run into another.
pub proof fn law_classes_offered(
    text: Seq<char>,
    pos: Position,
    rows: ClassRows,
    vars: VarRows,
    keyframes: Seq<(Seq<char>, KeyframeInfoView)>,
    item: CompletionItemView,
)
    requires
        inside_attr(text, pos, Attribute::Class),
        cursor(text, pos) is Some,
        0 <= (cursor(text, pos)->0).col <= encode_utf8((cursor(text, pos)->0).line).len(),
        forall|i: int| 0 <= i < rows.len() ==> (#[trigger] rows[i]).1.len() > 0,
    ensures
        offers_at(text, pos, rows, vars, keyframes) is Some,
        ({
            let (listed, typed) = words_at(text, pos, Attribute::Class);
            let c = cursor(text, pos)->0;
            let b = encode_utf8(c.line);
            offers_at(text, pos, rows, vars, keyframes)->0.contains(item) == exists|i: int|
                0 <= i < rows.len() && !begins_with_mark((#[trigger] rows[i]).0)
                    && !listed.contains(lowercase(rows[i].0)) && begins_with(rows[i].0, typed)
                    && item == (CompletionItemView {
                    label: rows[i].0,
                    kind: CompletionKind::Class,
                    detail: Some(rows[i].1[0].source_file),
                    insert_text: gap(b, c.col - 1) + rows[i].0 + gap(b, c.col),
                    filter_text: lowercase(rows[i].0),
                })
        }),
{
    let (listed, typed) = words_at(text, pos, Attribute::Class);
    let c = cursor(text, pos)->0;
    let b = encode_utf8(c.line);
    let f = class_item(listed, typed, c.line, c.col);
    lemma_collected(rows, f, item);
    reveal_strlit(" ");
    reveal_strlit("#");
    assert(" "@ =~= seq![' ']);
    assert forall|i: int| 0 <= i < rows.len() implies (f(#[trigger] rows[i]) == Some(item)) == (
    !begins_with_mark(rows[i].0) && !listed.contains(lowercase(rows[i].0)) && begins_with(
        rows[i].0,
        typed,
    )
        && item == (CompletionItemView {
        label: rows[i].0,
        kind: CompletionKind::Class,
        detail: Some(rows[i].1[0].source_file),
        insert_text: gap(b, c.col - 1) + rows[i].0 + gap(b, c.col),
        filter_text: lowercase(rows[i].0),
    })) by {
        lemma_mark(rows[i].0);
        assert(rows[i].1.len() > 0);
    }
}

/// Whether a name begins with `#`, as those of identifiers do.
pub open spec fn begins_with_mark(name: Seq<char>) -> bool {
    name.len() > 0 && name[0] == '#'
}

pub proof fn lemma_mark(name: Seq<char>)
    ensures
        "#"@.is_prefix_of(name) == begins_with_mark(name),
{
    reveal_strlit("#");
    let hash = "#"@;
    if name.len() > 0 {
        assert(name.subrange(0, 1)[0] == name[0]);
        if name[0] == '#' {
            assert(name.subrange(0, 1) =~= hash);
        }
        if hash.is_prefix_of(name) {
            assert(name.subrange(0, 1)[0] == hash[0]);
        }
    }
}

/// Inside an `id` value that holds no other word exactly those identifiers of the map are offered
/// that begin with what is being typed. They are offered and inserted as an `id` value writes them,
/// without the `#` under which they are filed.
pub proof fn law_identifiers_offered(
    text: Seq<char>,
    pos: Position,
    rows: ClassRows,
    vars: VarRows,
    keyframes: Seq<(Seq<char>, KeyframeInfoView)>,
    item: CompletionItemView,
)
    requires
        !inside_attr(text, pos, Attribute::Class),
        inside_attr(text, pos, Attribute::Id),
        words_at(text, pos, Attribute::Id).0.len() == 0,
        forall|i: int| 0 <= i < rows.len() ==> (#[trigger] rows[i]).1.len() > 0,
    ensures
        offers_at(text, pos, rows, vars, keyframes) is Some,
        offers_at(text, pos, rows, vars, keyframes)->0.contains(item) == exists|i: int|
            0 <= i < rows.len() && (#[trigger] rows[i]).0 == seq!['#'] + item.label && begins_with(
                item.label,
                words_at(text, pos, Attribute::Id).1,
            ) && item.insert_text == item.label && item.filter_text == lowercase(item.label)
                && item.kind == CompletionKind::Value && item.detail == Some(
                rows[i].1[0].source_file,
            ),
{
    let typed = words_at(text, pos, Attribute::Id).1;
    let f = id_item(typed);
    lemma_collected(rows, f, item);
    assert forall|i: int| 0 <= i < rows.len() implies (f(#[trigger] rows[i]) == Some(item)) == (
    rows[i].0 == seq!['#'] + item.label && begins_with(item.label, typed) && item.insert_text
        == item.label && item.filter_text == lowercase(item.label) && item.kind
        == CompletionKind::Value && item.detail == Some(rows[i].1[0].source_file)) by {
        lemma_mark(rows[i].0);
        assert(rows[i].1.len() > 0);
        let name = rows[i].0;
        if name.len() > 0 && name[0] == '#' {
            assert(name =~= seq!['#'] + name.skip(1));
        }
        if name == seq!['#'] + item.label {
            assert(name[0] == '#');
            assert(name.skip(1) =~= item.label);
        }
    }
}

/// Which kind of thing is offered inside a `style` value: custom properties where `--` is typed,
/// whether a value or a name is being written; else names of properties before the colon; behind
/// it the animations for `animation-name`, and the keywords of every other property that has some.
pub proof fn law_style_offers(
    context: StyleContextView,
    vars: VarRows,
    keyframes: Seq<(Seq<char>, KeyframeInfoView)>,
    item: CompletionItemView,
)
    ensures
        match context {
            StyleContextView::Outside => style_offers(context, vars, keyframes) is None,
            StyleContextView::PropertyName { prefix } => {
                let offers = style_offers(context, vars, keyframes);
                &&& offers is Some
                &&& "--"@.is_prefix_of(prefix) ==> offers->0.contains(item) == is_variable_item(
                    vars,
                    prefix,
                    item,
                )
                &&& !"--"@.is_prefix_of(prefix) ==> offers->0.contains(item) == (exists|i: int|
                    0 <= i < property_names().len() && (#[trigger] property_names()[i])
                        == item.label && begins_with(item.label, prefix) && item.insert_text
                        == item.label + ": "@ && item.filter_text == lowercase(item.label)
                        && item.kind == CompletionKind::Property && item.detail is None)
            },
            StyleContextView::PropertyValue { property, prefix } => {
                let offers = style_offers(context, vars, keyframes);
                &&& "--"@.is_prefix_of(prefix) ==> offers is Some && offers->0.contains(item)
                    == is_variable_item(vars, prefix, item)
                &&& !"--"@.is_prefix_of(prefix) && property == "animation-name"@ ==> offers
                    is Some && offers->0.contains(item) == (exists|i: int|
                    0 <= i < keyframes.len() && (#[trigger] keyframes[i]).0 == item.label
                        && begins_with(item.label, prefix) && item.insert_text == item.label
                        && item.filter_text == lowercase(item.label) && item.kind
                        == CompletionKind::Value && item.detail == Some(
                        keyframes[i].1.source_file,
                    ))
                &&& !"--"@.is_prefix_of(prefix) && property != "animation-name"@ ==> {
                    let words = property_keywords(property);
                    &&& offers is Some == (words.len() > 0)
                    &&& offers is Some ==> offers->0.contains(item) == (exists|i: int|
                        0 <= i < words.len() && (#[trigger] words[i]) == item.label && begins_with(
                            item.label,
                            prefix,
                        ) && item.insert_text == item.label && item.filter_text == lowercase(
                            item.label,
                        ) && item.kind == CompletionKind::Value && item.detail is None)
                }
            },
        },
{
    match context {
        StyleContextView::Outside => {},
        StyleContextView::PropertyName { prefix } => {
            lemma_collected(vars, variable_item(prefix), item);
            lemma_collected(property_names(), property_item(prefix), item);
            assert forall|i: int| 0 <= i < vars.len() implies (variable_item(prefix)(
                #[trigger] vars[i],
            ) == Some(item)) == is_variable(vars[i], prefix, item) by {
            }
            let names = property_names();
            assert forall|i: int| 0 <= i < names.len() implies (property_item(prefix)(
                #[trigger] names[i],
            ) == Some(item)) == (names[i] == item.label && begins_with(item.label, prefix)
                && item.insert_text == item.label + ": "@ && item.filter_text == lowercase(
                item.label,
            ) && item.kind == CompletionKind::Property && item.detail is None) by {
            }
        },
        StyleContextView::PropertyValue { property, prefix } => {
            lemma_collected(vars, variable_item(prefix), item);
            lemma_collected(keyframes, keyframes_item(prefix), item);
            lemma_collected(property_keywords(property), keyword_item(prefix), item);
            assert forall|i: int| 0 <= i < vars.len() implies (variable_item(prefix)(
                #[trigger] vars[i],
            ) == Some(item)) == is_variable(vars[i], prefix, item) by {
            }
            assert forall|i: int| 0 <= i < keyframes.len() implies (keyframes_item(prefix)(
                #[trigger] keyframes[i],
            ) == Some(item)) == (keyframes[i].0 == item.label && begins_with(item.label, prefix)
                && item.insert_text == item.label && item.filter_text == lowercase(item.label)
                && item.kind == CompletionKind::Value && item.detail == Some(
                keyframes[i].1.source_file,
            )) by {
            }
            let words = property_keywords(property);
            assert forall|i: int| 0 <= i < words.len() implies (keyword_item(prefix)(
                #[trigger] words[i],
            ) == Some(item)) == (words[i] == item.label && begins_with(item.label, prefix)
                && item.insert_text == item.label && item.filter_text == lowercase(item.label)
                && item.kind == CompletionKind::Value && item.detail is None) by {
            }
        },
    }
}

/// The item for a custom property that begins with what is being typed.
pub open spec fn is_variable(
    var: (Seq<char>, Seq<char>),
    typed: Seq<char>,
    item: CompletionItemView,
) -> bool {
    &&& item.label == var.0
    &&& item.insert_text == var.0
    &&& item.detail == Some(var.1)
    &&& item.filter_text == lowercase(var.0)
    &&& item.kind == CompletionKind::Variable
    &&& lowercase(typed).is_prefix_of(lowercase(var.0))
}

/// The item for one of several custom properties.
pub open spec fn is_variable_item(
    vars: VarRows,
    typed: Seq<char>,
    item: CompletionItemView,
) -> bool {
    exists|i: int| 0 <= i < vars.len() && is_variable(#[trigger] vars[i], typed, item)
}

/// What is offered depends on the attribute that the position lies in: nothing outside `class`,
/// `id` and `style` values, nothing in an `id` value that holds another word, and inside a `style`
/// value what the context there takes.
pub proof fn law_offers_by_attribute(
    text: Seq<char>,
    pos: Position,
    rows: ClassRows,
    vars: VarRows,
    keyframes: Seq<(Seq<char>, KeyframeInfoView)>,
)
    requires
        !inside_attr(text, pos, Attribute::Class),
    ensures
        inside_attr(text, pos, Attribute::Id) ==> offers_at(text, pos, rows, vars, keyframes)
            is Some == (words_at(text, pos, Attribute::Id).0.len() == 0),
        !inside_attr(text, pos, Attribute::Id) && !inside_attr(text, pos, Attribute::Style)
            ==> offers_at(text, pos, rows, vars, keyframes) is None,
        !inside_attr(text, pos, Attribute::Id) && inside_attr(text, pos, Attribute::Style)
            ==> offers_at(text, pos, rows, vars, keyframes) == style_offers(
            style_context_at(text, pos),
            vars,
            keyframes,
        ),
{
}

/// The reply holds what is offered, each item as often, in alphabetical order of the labels, byte
/// by byte.
pub proof fn law_replies_are_sorted(
    offers: Option<Seq<CompletionItemView>>,
    reply: Option<Vec<CompletionItem>>,
    i: int,
    j: int,
)
    requires
        is_reply(offers, reply),
    ensures
        offers is Some == (reply is Some),
        offers is Some ==> (reply->0).deep_view().to_multiset() == (offers->0).to_multiset(),
        offers is Some && 0 <= i < j < (reply->0).deep_view().len() ==> {
            let a = encode_utf8((reply->0).deep_view()[i].label);
            let b = encode_utf8((reply->0).deep_view()[j].label);
            ||| a.is_prefix_of(b)
            ||| exists|k: int|
                0 <= k < a.len() && k < b.len() && #[trigger] a[k] < b[k] && a.take(k) == b.take(k)
        },
{
    if offers is Some && 0 <= i < j < (reply->0).deep_view().len() {
        let all = (reply->0).deep_view();
        assert(text_at_most(all[i].label, all[j].label));
        lemma_bytes_in_order(encode_utf8(all[i].label), encode_utf8(all[j].label));
    }
}

/// Dictionary order: one text begins the other, or is less where they first differ.
pub proof fn lemma_bytes_in_order(a: Seq<u8>, b: Seq<u8>)
    requires
        bytes_at_most(a, b),
    ensures
        a.is_prefix_of(b) || exists|k: int|
            0 <= k < a.len() && k < b.len() && #[trigger] a[k] < b[k] && a.take(k) == b.take(k),
    decreases a.len(),
{
    if a.len() == 0 {
        assert(b.subrange(0, 0) =~= a);
    } else if b.len() > 0 {
        if a[0] != b[0] {
            assert(a[0] < b[0] && a.take(0) =~= b.take(0));
        } else {
            let c = a.skip(1);
            let d = b.skip(1);
            lemma_bytes_in_order(c, d);
            if c.is_prefix_of(d) {
                assert(b.subrange(0, a.len() as int) =~= a) by {
                    assert forall|k: int| 0 <= k < a.len() implies b[k] == a[k] by {
                        if k > 0 {
                            assert(c[k - 1] == d.subrange(0, c.len() as int)[k - 1]);
                        }
                    }
                }
            } else {
                let k = choose|k: int|
                    0 <= k < c.len() && k < d.len() && #[trigger] c[k] < d[k] && c.take(k)
                        == d.take(k);
                assert(a[k + 1] < b[k + 1]);
                assert(a.take(k + 1) =~= b.take(k + 1)) by {
                    assert forall|m: int| 0 <= m < k + 1 implies a[m] == b[m] by {
                        if m > 0 {
                            assert(c.take(k)[m - 1] == d.take(k)[m - 1]);
                        }
                    }
                }
            }
        }
    }
}

/// The word being typed is made of the name characters that the text ends with, all of them.
pub proof fn law_typed_word(before: Seq<char>, word: Seq<char>)
    requires
        forall|i: int| 0 <= i < word.len() ==> is_name_char(#[trigger] word[i]),
        before.len() > 0 ==> !is_name_char(before.last()),
    ensures
        name_tail(before + word) == word,
    decreases word.len(),
{
    if word.len() == 0 {
        assert(before + word =~= before);
        assert(name_tail(before) =~= word);
    } else {
        let s = before + word;
        assert(s.last() == word.last());
        assert(s.drop_last() =~= before + word.drop_last());
        assert forall|i: int| 0 <= i < word.drop_last().len() implies is_name_char(
            #[trigger] word.drop_last()[i],
        ) by {
            assert(word.drop_last()[i] == word[i]);
        }
        law_typed_word(before, word.drop_last());
        assert(word.drop_last().push(word.last()) =~= word);
    }
}

/// The context in a declaration: before the colon the name of a property is typed, behind it a
/// value of the property that the text before the first colon names.
pub proof fn law_declarations(name: Seq<char>, value: Seq<char>)
    requires
        !name.contains(':'),
    ensures
        declaration_context(name) == (StyleContextView::PropertyName { prefix: name_tail(name) }),
        declaration_context(name.push(':') + value) == (StyleContextView::PropertyValue {
            property: lowercase(trim(name)),
            prefix: name_tail(value),
        }),
{
    let n = name.len() as int;
    assert forall|j: int| 0 <= j < n implies name[j] != ':' by {
        assert(name.contains(name[j]));
    }
    lemma_index_from_is(name, ':', 0, n);
    let s = name.push(':') + value;
    assert forall|j: int| 0 <= j < n implies s[j] != ':' by {
        assert(s[j] == name[j]);
    }
    assert(s[n] == ':');
    lemma_index_from_is(s, ':', 0, n);
    assert(s.take(n) =~= name);
    assert(s.skip(n + 1) =~= value);
}

/// Every property whose keywords are known is itself offered.
pub proof fn law_properties_with_keywords_are_offered(property: Seq<char>)
    requires
        property_keywords(property).len() > 0,
    ensures
        property_names().contains(property),
{
    let names = property_names();
    assert(names[39] == "display"@);
    assert(names[93] == "position"@);
    assert(names[107] == "visibility"@);
    assert(names[84] == "overflow"@);
    assert(names[85] == "overflow-x"@);
    assert(names[86] == "overflow-y"@);
    assert(names[32] == "box-sizing"@);
    assert(names[46] == "float"@);
    assert(names[33] == "clear"@);
    assert(names[42] == "flex-direction"@);
    assert(names[45] == "flex-wrap"@);
    assert(names[63] == "justify-content"@);
    assert(names[1] == "align-items"@);
    assert(names[2] == "align-self"@);
    assert(names[0] == "align-content"@);
    assert(names[97] == "text-align"@);
    assert(names[98] == "text-decoration"@);
    assert(names[101] == "text-transform"@);
    assert(names[108] == "white-space"@);
    assert(names[106] == "vertical-align"@);
    assert(names[52] == "font-weight"@);
    assert(names[50] == "font-style"@);
    assert(names[38] == "cursor"@);
    assert(names[92] == "pointer-events"@);
    assert(names[105] == "user-select"@);
    assert(names[94] == "resize"@);
    assert(names[80] == "object-fit"@);
    assert(names[27] == "border-style"@);
    assert(names[79] == "mix-blend-mode"@);
    assert(names[62] == "isolation"@);
    assert(names[7] == "animation-fill-mode"@);
    assert(names[5] == "animation-direction"@);
    assert(names[11] == "animation-timing-function"@);
    assert(names[10] == "animation-play-state"@);
    assert(names[8] == "animation-iteration-count"@);
}

} // verus!
