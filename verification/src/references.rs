//! Definitions and uses of the name at a position.

use crate::collect::{collect, lemma_collect, lemma_collect_step};
use crate::context::{
    in_style_attribute, inside_attr, key_at, selector_key, style_context, style_context_at,
    Attribute, StyleContext, StyleContextView,
};
use crate::cursor::{word_at, word_at_position};
use crate::html::{
    all_name_their_columns, html_refs, html_selector_refs, names_its_columns, RefView, SelectorRef,
};
use crate::model::{
    definitions, opt_text, ClassInfo, ClassInfoView, ClassMap, ClassRows, DocumentMap,
    KeyframeInfoView, KeyframesMap,
};
use crate::paths::{file_to_uri, uri_of_file};
use crate::pattern::Patterns;
use crate::protocol::{range_on_line, span_on_line, Location, LocationView, Position, Range};
use crate::table::lookup;
use crate::text::{concat3, same_text, skip_chars, starts_with};
use vstd::prelude::*;

verus! {

/// The start of a line of a file; none if the file has no address.
pub open spec fn line_location(uri: Option<Seq<char>>, line: u32) -> Option<LocationView> {
    match uri {
        Some(uri) => Some(LocationView { uri, range: span_on_line(line, 0, 0) }),
        None => None,
    }
}

/// Where a definition begins.
pub open spec fn definition_place() -> spec_fn(ClassInfoView) -> Option<LocationView> {
    |info: ClassInfoView| line_location(file_to_uri(info.source_path), info.definition_line)
}

/// The start of a line of a file.
fn locate_line(path: &str, line: u32) -> (r: Option<Location>)
    ensures
        r is Some == (line_location(file_to_uri(path@), line) is Some),
        r is Some ==> Some((r->0).deep_view()) == line_location(file_to_uri(path@), line),
{
    match uri_of_file(path) {
        Some(uri) => Some(Location { uri, range: range_on_line(line, 0, 0) }),
        None => None,
    }
}

/// The reply to a request for definitions: one place or several to choose from.
#[derive(Debug)]
pub enum DefinitionReply {
    Nothing,
    One(Location),
    Several(Vec<Location>),
}

/// The places that a reply gives.
pub open spec fn reply_places(reply: DefinitionReply) -> Seq<LocationView> {
    match reply {
        DefinitionReply::Nothing => seq![],
        DefinitionReply::One(place) => seq![place.deep_view()],
        DefinitionReply::Several(places) => places.deep_view(),
    }
}

/// A reply gives exactly these places, several as a list.
pub open spec fn replies_with(reply: DefinitionReply, places: Seq<LocationView>) -> bool {
    &&& reply_places(reply) == places
    &&& reply is Nothing == (places.len() == 0)
    &&& reply is One == (places.len() == 1)
}

/// The reply that gives the places of a list.
pub fn definition_reply(places: Vec<Location>) -> (r: DefinitionReply)
    ensures
        replies_with(r, places.deep_view()),
{
    let mut places = places;
    let n: usize = places.len();
    let ghost all = places.deep_view();
    proof {
        assert(all.len() == n);
    }
    if n == 0 {
        proof {
            assert(all =~= seq![]);
        }
        return DefinitionReply::Nothing;
    }
    if n == 1 {
        let last = places.pop();
        return match last {
            Some(place) => {
                proof {
                    assert(all =~= seq![place.deep_view()]);
                }
                DefinitionReply::One(place)
            },
            None => DefinitionReply::Nothing,
        };
    }
    DefinitionReply::Several(places)
}

/// Where the definitions of a list begin.
fn locate_definitions(infos: &Vec<ClassInfo>) -> (r: Vec<Location>)
    ensures
        r.deep_view() == collect(infos.deep_view(), definition_place()),
{
    let n: usize = infos.len();
    let ghost all = infos.deep_view();
    let ghost f = definition_place();
    let mut r: Vec<Location> = Vec::new();
    let mut i: usize = 0;
    proof {
        assert(all.take(0) =~= seq![]);
        assert(r.deep_view() =~= seq![]);
    }
    while i < n
        invariant
            i <= n,
            n == infos@.len(),
            all == infos.deep_view(),
            f == definition_place(),
            r.deep_view() == collect(all.take(i as int), f),
        decreases n - i,
    {
        let ghost before = r.deep_view();
        proof {
            lemma_collect_step(all, i as int, f);
        }
        if let Some(place) = locate_line(infos[i].source_path.as_str(), infos[i].definition_line) {
            r.push(place);
            proof {
                assert(r.deep_view() =~= before.push(place.deep_view()));
            }
        }
        i = i + 1;
    }
    proof {
        assert(all.take(n as int) =~= all);
    }
    r
}

/// Where the name at a position of a text is defined: an animation inside a `style` value, a class
/// or an identifier inside its attribute.
pub open spec fn definition_places(
    text: Seq<char>,
    pos: Position,
    rows: ClassRows,
    keyframes: Seq<(Seq<char>, KeyframeInfoView)>,
) -> Seq<LocationView> {
    if inside_attr(text, pos, Attribute::Style) {
        let word = word_at_position(text, pos);
        match style_context_at(text, pos) {
            StyleContextView::PropertyValue { property, prefix } => if property
                == "animation-name"@ && word is Some && lookup(keyframes, word->0) is Some {
                let info = lookup(keyframes, word->0)->0;
                match line_location(file_to_uri(info.source_path), info.definition_line) {
                    Some(place) => seq![place],
                    None => seq![],
                }
            } else {
                seq![]
            },
            _ => seq![],
        }
    } else {
        match key_at(text, pos) {
            Some(key) => collect(definitions(rows, key), definition_place()),
            None => seq![],
        }
    }
}

/// Where the name at a position of an open document is defined.
pub fn definition_handler(
    patterns: &Patterns,
    uri: &str,
    pos: Position,
    class_map: &ClassMap,
    keyframes: &KeyframesMap,
    documents: &DocumentMap,
) -> (r: DefinitionReply)
    ensures
        replies_with(
            r,
            match lookup(documents@, uri@) {
                Some(text) => definition_places(text, pos, class_map@, keyframes@),
                None => seq![],
            },
        ),
{
    let text = match documents.get(uri) {
        Some(t) => t.as_str(),
        None => {
            return DefinitionReply::Nothing;
        },
    };
    if in_style_attribute(patterns, text, pos) {
        let context = style_context(patterns, text, pos);
        if let StyleContext::PropertyValue { property, prefix: _ } = context {
            if same_text(property.as_str(), "animation-name") {
                if let Some(name) = word_at(text, pos) {
                    if let Some(info) = keyframes.get(name.as_str()) {
                        if let Some(place) = locate_line(
                            info.source_path.as_str(),
                            info.definition_line,
                        ) {
                            return DefinitionReply::One(place);
                        }
                    }
                }
            }
        }
        return DefinitionReply::Nothing;
    }
    if let Some(key) = selector_key(patterns, text, pos) {
        if let Some(infos) = class_map.get(key.as_str()) {
            return definition_reply(locate_definitions(infos));
        }
        proof {
            assert(definitions(class_map@, key@) =~= seq![]);
        }
    }
    DefinitionReply::Nothing
}

/// The name under which a class map files what a reference names.
pub open spec fn ref_key(r: RefView) -> Seq<char> {
    if r.is_id {
        "#"@ + r.name
    } else {
        r.name
    }
}

/// The name under which a class map files what a reference names.
pub fn key_of_ref(r: &SelectorRef) -> (k: String)
    ensures
        k@ == ref_key(r.deep_view()),
{
    if r.is_id {
        let k = concat3("#", r.name.as_str(), "");
        proof {
            reveal_strlit("");
            assert(k@ =~= "#"@ + r.name@);
        }
        k
    } else {
        r.name.clone()
    }
}

/// The columns of a reference.
pub open spec fn ref_range(r: RefView) -> Range {
    span_on_line(r.line, r.col_start, r.col_end)
}

/// Where a document uses the identifier or class named `bare`.
pub open spec fn use_place(uri: Seq<char>, is_id: bool, bare: Seq<char>) -> spec_fn(
    RefView,
) -> Option<LocationView> {
    |r: RefView|
        if r.is_id == is_id && r.name == bare {
            Some(LocationView { uri, range: ref_range(r) })
        } else {
            None
        }
}

/// Whether a filed name is that of an identifier.
pub open spec fn is_id_key(key: Seq<char>) -> bool {
    "#"@.is_prefix_of(key)
}

/// A filed name as an attribute writes it.
pub open spec fn bare_key(key: Seq<char>) -> Seq<char> {
    if is_id_key(key) {
        key.skip(1)
    } else {
        key
    }
}

/// Where the first `k` documents of a list use a name.
pub open spec fn uses_upto(key: Seq<char>, files: Seq<(Seq<char>, Seq<char>)>, k: int) -> Seq<
    LocationView,
>
    decreases k,
{
    if k <= 0 {
        seq![]
    } else {
        uses_upto(key, files, k - 1) + collect(
            html_refs(files[k - 1].1),
            use_place(files[k - 1].0, is_id_key(key), bare_key(key)),
        )
    }
}

/// Where a list of documents uses a name.
pub open spec fn uses_in(key: Seq<char>, files: Seq<(Seq<char>, Seq<char>)>) -> Seq<LocationView> {
    uses_upto(key, files, files.len() as int)
}

/// A filed name as an attribute writes it, and whether it is that of an identifier.
pub fn split_key(key: &str) -> (r: (bool, String))
    ensures
        r.0 == is_id_key(key@),
        r.1@ == bare_key(key@),
{
    if starts_with(key, "#") {
        proof {
            reveal_strlit("#");
        }
        (true, skip_chars(key, 1))
    } else {
        (false, key.to_owned())
    }
}

/// Adds the places among the references of a document that use a name.
pub fn add_uses(
    refs: &Vec<SelectorRef>,
    uri: &str,
    is_id: bool,
    bare: &str,
    places: &mut Vec<Location>,
)
    ensures
        final(places).deep_view() == old(places).deep_view() + collect(
            refs.deep_view(),
            use_place(uri@, is_id, bare@),
        ),
{
    let n: usize = refs.len();
    let ghost all = refs.deep_view();
    let ghost f = use_place(uri@, is_id, bare@);
    let ghost start = places.deep_view();
    let mut i: usize = 0;
    proof {
        assert(all.take(0) =~= seq![]);
        assert(start + Seq::<LocationView>::empty() =~= start);
    }
    while i < n
        invariant
            i <= n,
            n == refs@.len(),
            all == refs.deep_view(),
            f == use_place(uri@, is_id, bare@),
            places.deep_view() == start + collect(all.take(i as int), f),
        decreases n - i,
    {
        let r = &refs[i];
        let ghost before = places.deep_view();
        proof {
            lemma_collect_step(all, i as int, f);
        }
        if r.is_id == is_id && same_text(r.name.as_str(), bare) {
            let place = Location {
                uri: uri.to_owned(),
                range: range_on_line(r.line, r.col_start, r.col_end),
            };
            places.push(place);
            proof {
                assert(f(all[i as int]) == Some(place.deep_view()));
                assert(places.deep_view() =~= before.push(place.deep_view()));
                assert(places.deep_view() =~= start + collect(all.take(i as int), f).push(
                    place.deep_view(),
                ));
            }
        }
        i = i + 1;
    }
    proof {
        assert(all.take(n as int) =~= all);
    }
}

/// Where the HTML documents of a workspace use a name.
pub fn workspace_html_refs(patterns: &Patterns, key: &str, files: &DocumentMap) -> (r: Vec<Location>)
    ensures
        r.deep_view() == uses_in(key@, files@),
{
    let (is_id, bare) = split_key(key);
    let n: usize = files.len();
    let mut places: Vec<Location> = Vec::new();
    let mut k: usize = 0;
    proof {
        assert(places.deep_view() =~= seq![]);
    }
    while k < n
        invariant
            k <= n,
            n == files@.len(),
            is_id == is_id_key(key@),
            bare@ == bare_key(key@),
            places.deep_view() == uses_upto(key@, files@, k as int),
        decreases n - k,
    {
        let refs = html_selector_refs(patterns, files.value_at(k).as_str());
        add_uses(&refs, files.name_at(k).as_str(), is_id, bare.as_str(), &mut places);
        k = k + 1;
    }
    places
}

/// The name whose uses are asked for.
pub open spec fn references_key(
    uri: Seq<char>,
    pos: Position,
    documents: Seq<(Seq<char>, Seq<char>)>,
) -> Option<Seq<char>> {
    match lookup(documents, uri) {
        Some(text) => key_at(text, pos),
        None => None,
    }
}

/// The name whose uses are asked for.
pub fn references_target(
    patterns: &Patterns,
    uri: &str,
    pos: Position,
    documents: &DocumentMap,
) -> (r: Option<String>)
    ensures
        opt_text(r) == references_key(uri@, pos, documents@),
{
    match documents.get(uri) {
        Some(t) => selector_key(patterns, t.as_str(), pos),
        None => None,
    }
}

/// Where the HTML documents of the workspace use the name at a position; nowhere without a
/// workspace.
pub fn references_handler(
    patterns: &Patterns,
    uri: &str,
    pos: Position,
    documents: &DocumentMap,
    workspace: &Option<DocumentMap>,
) -> (r: Vec<Location>)
    ensures
        r.deep_view() == (match references_key(uri@, pos, documents@) {
            Some(key) => match workspace {
                Some(files) => uses_in(key, files@),
                None => seq![],
            },
            None => seq![],
        }),
{
    if let Some(key) = references_target(patterns, uri, pos, documents) {
        if let Some(files) = workspace {
            return workspace_html_refs(patterns, key.as_str(), files);
        }
    }
    let none: Vec<Location> = Vec::new();
    proof {
        assert(none.deep_view() =~= seq![]);
    }
    none
}

/// The uses of a filed name are exactly the references that are filed under it, if no name in an
/// attribute begins with `#`.
pub proof fn law_uses_match_keys(r: RefView, key: Seq<char>, uri: Seq<char>)
    requires
        !is_id_key(r.name),
    ensures
        use_place(uri, is_id_key(key), bare_key(key))(r) is Some == (ref_key(r) == key),
{
    reveal_strlit("#");
    if r.is_id {
        assert(is_id_key(ref_key(r))) by {
            assert(("#"@ + r.name).subrange(0, 1) =~= "#"@);
        }
        assert(ref_key(r).skip(1) =~= r.name);
        if is_id_key(key) {
            assert(key =~= "#"@ + key.skip(1)) by {
                assert(key.subrange(0, 1) =~= "#"@);
                assert(key[0] == key.subrange(0, 1)[0]);
            }
        }
    } else {
        if is_id_key(key) {
        }
    }
}

/// Where a document uses a name, exactly that name stands between the columns, if its references
/// name what stands between theirs.
pub proof fn law_uses_cover_the_name(
    lines: Seq<Seq<char>>,
    refs: Seq<RefView>,
    uri: Seq<char>,
    is_id: bool,
    bare: Seq<char>,
    j: int,
)
    requires
        all_name_their_columns(lines, refs),
        0 <= j < collect(refs, use_place(uri, is_id, bare)).len(),
    ensures
        exists|r: RefView| #[trigger]
            names_its_columns(lines, r) && r.name == bare && collect(
                refs,
                use_place(uri, is_id, bare),
            )[j].range == ref_range(r),
{
    let f = use_place(uri, is_id, bare);
    lemma_collect(refs, f);
    let i = choose|i: int|
        0 <= i < refs.len() && f(#[trigger] refs[i]) == Some(collect(refs, f)[j]);
    assert(names_its_columns(lines, refs[i]));
}

/// Every use is found: each reference of each document that is filed under the name has its place
/// in the list.
pub proof fn law_every_use_is_found(
    key: Seq<char>,
    files: Seq<(Seq<char>, Seq<char>)>,
    k: int,
    i: int,
)
    requires
        0 <= k < files.len(),
        0 <= i < html_refs(files[k].1).len(),
        html_refs(files[k].1)[i].is_id == is_id_key(key),
        html_refs(files[k].1)[i].name == bare_key(key),
    ensures
        uses_in(key, files).contains(
            LocationView { uri: files[k].0, range: ref_range(html_refs(files[k].1)[i]) },
        ),
{
    let refs = html_refs(files[k].1);
    let f = use_place(files[k].0, is_id_key(key), bare_key(key));
    let place = LocationView { uri: files[k].0, range: ref_range(refs[i]) };
    lemma_collect(refs, f);
    assert(f(refs[i]) == Some(place));
    lemma_uses_grow(key, files, k, files.len() as int, place);
}

proof fn lemma_uses_grow(
    key: Seq<char>,
    files: Seq<(Seq<char>, Seq<char>)>,
    k: int,
    n: int,
    place: LocationView,
)
    requires
        0 <= k < n <= files.len(),
        collect(
            html_refs(files[k].1),
            use_place(files[k].0, is_id_key(key), bare_key(key)),
        ).contains(place),
    ensures
        uses_upto(key, files, n).contains(place),
    decreases n - k,
{
    let before = uses_upto(key, files, n - 1);
    let here = collect(
        html_refs(files[n - 1].1),
        use_place(files[n - 1].0, is_id_key(key), bare_key(key)),
    );
    let all = uses_upto(key, files, n);
    if n - 1 == k {
        let i = choose|i: int| 0 <= i < here.len() && here[i] == place;
        assert(all[before.len() + i] == place);
    } else {
        lemma_uses_grow(key, files, k, n - 1, place);
        let i = choose|i: int| 0 <= i < before.len() && before[i] == place;
        assert(all[i] == place);
    }
}

/// Every definition of the name at a position is given, if its file has an address.
pub proof fn law_every_definition_is_given(
    text: Seq<char>,
    pos: Position,
    rows: ClassRows,
    keyframes: Seq<(Seq<char>, KeyframeInfoView)>,
    i: int,
)
    requires
        !inside_attr(text, pos, Attribute::Style),
        key_at(text, pos) is Some,
        0 <= i < definitions(rows, key_at(text, pos)->0).len(),
        file_to_uri(definitions(rows, key_at(text, pos)->0)[i].source_path) is Some,
    ensures
        ({
            let info = definitions(rows, key_at(text, pos)->0)[i];
            definition_places(text, pos, rows, keyframes).contains(
                LocationView {
                    uri: file_to_uri(info.source_path)->0,
                    range: span_on_line(info.definition_line, 0, 0),
                },
            )
        }),
{
    let infos = definitions(rows, key_at(text, pos)->0);
    lemma_collect(infos, definition_place());
    assert(definition_place()(infos[i]) is Some);
}

} // verus!
