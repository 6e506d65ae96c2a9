//! Names that scripts use.

use crate::bytes::{slice, slice_text};
use crate::css::filed_names;
use crate::html::{Groups, Matches};
use crate::pattern::{
    all_groups, group_lists, has_groups, is_groups, is_marked_name, is_match_list, marked_names,
    regex_captures, Pattern, Patterns, JS_CLASSLIST_RE, JS_GEBC_RE, JS_QUERY_RE,
};
use crate::text::{skip_chars, split_words, texts, words};
use vstd::prelude::*;

verus! {

/// The text of the only group of a match.
pub open spec fn group_text(text: Seq<char>, groups: Groups) -> Seq<char> {
    slice(text, (groups[1]->0).0 as int, (groups[1]->0).1 as int)
}

/// The texts of the only group of each match.
pub open spec fn group_texts(text: Seq<char>, matches: Seq<Groups>) -> Seq<Seq<char>> {
    matches.map_values(|g: Groups| group_text(text, g))
}

/// The texts of the only group of each match.
pub fn texts_of_group(text: &str, matches: &Matches) -> (r: Vec<String>)
    requires
        is_match_list(text@, group_lists(matches@)),
        forall|i: int| 0 <= i < matches@.len() ==> all_groups((#[trigger] matches@[i])@, 1),
    ensures
        texts(r@) == group_texts(text@, group_lists(matches@)),
{
    let n: usize = matches.len();
    let ghost all = group_texts(text@, group_lists(matches@));
    let mut r: Vec<String> = Vec::new();
    let mut k: usize = 0;
    proof {
        assert(texts(r@) =~= all.take(0));
    }
    while k < n
        invariant
            k <= n,
            n == matches@.len(),
            all == group_texts(text@, group_lists(matches@)),
            is_match_list(text@, group_lists(matches@)),
            forall|i: int| 0 <= i < matches@.len() ==> all_groups((#[trigger] matches@[i])@, 1),
            texts(r@) == all.take(k as int),
        decreases n - k,
    {
        let ghost groups = matches@[k as int]@;
        proof {
            assert(group_lists(matches@)[k as int] == groups);
            assert(is_groups(text@, groups));
            assert(groups[1] is Some);
        }
        let (from, to): (usize, usize) = match matches[k][1] {
            Some(span) => span,
            None => (0, 0),
        };
        let t = slice_text(text, from, to);
        let ghost before = texts(r@);
        r.push(t);
        proof {
            assert(texts(r@) =~= before.push(t@));
            assert(all[k as int] == t@);
            assert(texts(r@) =~= all.take(k + 1));
        }
        k = k + 1;
    }
    proof {
        assert(all.take(n as int) =~= all);
    }
    r
}

/// The texts of the only group of each match of a pattern.
pub(crate) fn captured_texts(pattern: &Pattern, text: &str) -> (r: Vec<String>)
    requires
        has_groups(pattern@, 1),
    ensures
        texts(r@) == group_texts(text@, regex_captures(pattern@, text@)),
{
    let matches = pattern.captures_all(text);
    proof {
        assert forall|i: int| 0 <= i < matches@.len() implies all_groups(
            (#[trigger] matches@[i])@,
            1,
        ) by {
        }
    }
    texts_of_group(text, &matches)
}

/// The words of several texts, text by text.
pub open spec fn all_words(s: Seq<Seq<char>>) -> Seq<Seq<char>>
    decreases s.len(),
{
    if s.len() == 0 {
        seq![]
    } else {
        all_words(s.drop_last()) + words(s.last())
    }
}

/// The names in several selectors, selector by selector.
pub open spec fn all_selector_names(s: Seq<Seq<char>>) -> Seq<Seq<char>>
    decreases s.len(),
{
    if s.len() == 0 {
        seq![]
    } else {
        all_selector_names(s.drop_last()) + filed_names(
            marked_names(s.last(), '.'),
            marked_names(s.last(), '#'),
        )
    }
}

/// The names that a script uses, as a class map files them: the words it hands to `classList` and
/// `getElementsByClassName`, and the classes and identifiers in the selectors it queries.
pub open spec fn js_names(content: Seq<char>) -> Seq<Seq<char>> {
    all_words(group_texts(content, regex_captures(JS_CLASSLIST_RE@, content))) + all_words(
        group_texts(content, regex_captures(JS_GEBC_RE@, content)),
    ) + all_selector_names(group_texts(content, regex_captures(JS_QUERY_RE@, content)))
}

/// Adds the words of several texts.
pub fn add_words(list: &Vec<String>, used: &mut Vec<String>)
    ensures
        texts(final(used)@) == texts(old(used)@) + all_words(texts(list@)),
{
    let n: usize = list.len();
    let ghost all = texts(list@);
    let ghost start = texts(used@);
    let mut k: usize = 0;
    proof {
        assert(all.take(0) =~= seq![]);
        assert(start + Seq::<Seq<char>>::empty() =~= start);
    }
    while k < n
        invariant
            k <= n,
            n == list@.len(),
            all == texts(list@),
            texts(used@) == start + all_words(all.take(k as int)),
        decreases n - k,
    {
        let mut more = split_words(list[k].as_str());
        let ghost before = texts(used@);
        let ghost added = texts(more@);
        used.append(&mut more);
        proof {
            assert(texts(used@) =~= before + added);
            assert(all.take(k + 1).drop_last() =~= all.take(k as int));
            assert(all.take(k + 1).last() == list@[k as int]@);
            assert(texts(used@) =~= start + all_words(all.take(k + 1)));
        }
        k = k + 1;
    }
    proof {
        assert(all.take(n as int) =~= all);
    }
}

/// Adds the names of a selector, given the class and identifier tokens in it.
pub fn add_selector_names(classes: &Vec<String>, ids: &Vec<String>, used: &mut Vec<String>)
    requires
        forall|i: int|
            0 <= i < classes@.len() ==> is_marked_name((#[trigger] classes@[i])@, '.'),
    ensures
        texts(final(used)@) == texts(old(used)@) + filed_names(texts(classes@), texts(ids@)),
{
    let n: usize = classes.len();
    let m: usize = ids.len();
    let ghost start = texts(used@);
    let ghost a = texts(classes@).map_values(|t: Seq<char>| t.skip(1));
    let mut k: usize = 0;
    proof {
        assert(start + a.take(0) =~= start);
    }
    while k < n
        invariant
            k <= n,
            n == classes@.len(),
            a == texts(classes@).map_values(|t: Seq<char>| t.skip(1)),
            forall|i: int|
                0 <= i < classes@.len() ==> is_marked_name((#[trigger] classes@[i])@, '.'),
            texts(used@) == start + a.take(k as int),
        decreases n - k,
    {
        let ghost before = texts(used@);
        let name = skip_chars(classes[k].as_str(), 1);
        used.push(name);
        proof {
            assert(texts(used@) =~= before.push(name@));
            assert(texts(used@) =~= start + a.take(k + 1));
        }
        k = k + 1;
    }
    let ghost mid = texts(used@);
    let ghost b = texts(ids@);
    let mut j: usize = 0;
    proof {
        assert(mid + b.take(0) =~= mid);
    }
    while j < m
        invariant
            j <= m,
            m == ids@.len(),
            b == texts(ids@),
            texts(used@) == mid + b.take(j as int),
        decreases m - j,
    {
        let ghost before = texts(used@);
        used.push(ids[j].clone());
        proof {
            assert(texts(used@) =~= before.push(ids@[j as int]@));
            assert(texts(used@) =~= mid + b.take(j + 1));
        }
        j = j + 1;
    }
    proof {
        assert(a.take(n as int) =~= a);
        assert(b.take(m as int) =~= b);
        assert(texts(used@) =~= start + (a + b));
    }
}

/// Adds the names that a script uses.
pub fn collect_js_class_refs(patterns: &Patterns, content: &str, used: &mut Vec<String>)
    ensures
        texts(final(used)@) == texts(old(used)@) + js_names(content@),
{
    let ghost start = texts(used@);
    let in_lists = captured_texts(patterns.js_classlist_re(), content);
    add_words(&in_lists, used);
    let by_class = captured_texts(patterns.js_gebc_re(), content);
    add_words(&by_class, used);
    let selectors = captured_texts(patterns.js_query_re(), content);
    let n: usize = selectors.len();
    let ghost all = texts(selectors@);
    let ghost mid = texts(used@);
    let mut k: usize = 0;
    proof {
        assert(all.take(0) =~= seq![]);
        assert(mid + Seq::<Seq<char>>::empty() =~= mid);
    }
    while k < n
        invariant
            k <= n,
            n == selectors@.len(),
            all == texts(selectors@),
            texts(used@) == mid + all_selector_names(all.take(k as int)),
        decreases n - k,
    {
        let classes = patterns.class_re().find_all(selectors[k].as_str());
        let ids = patterns.id_re().find_all(selectors[k].as_str());
        add_selector_names(&classes, &ids, used);
        proof {
            assert(all.take(k + 1).drop_last() =~= all.take(k as int));
            assert(all.take(k + 1).last() == selectors@[k as int]@);
            assert(texts(used@) =~= mid + all_selector_names(all.take(k + 1)));
        }
        k = k + 1;
    }
    proof {
        assert(all.take(n as int) =~= all);
        assert(texts(used@) =~= start + js_names(content@));
    }
}

} // verus!
