//! What is read from HTML documents.

use crate::bytes::slice;
use crate::html::{
    attr_refs, continuation_end, html_refs, is_separator, lemma_token_end, lemma_value_stop,
    line_matches, line_refs, match_names_end, match_stop, names_end, quotes_from, refs_upto,
    run_start, token_end, token_ref, tokens, value_refs, value_stop, without_separators, Groups,
    RefView,
};
use crate::pattern::{regex_captures, whole, CLASS_ATTR_RE, ID_ATTR_RE};
use crate::text::lines;
use vstd::prelude::*;
use vstd::utf8::encode_utf8;

verus! {

/// A longest run of bytes between `from` and `end` that are neither spaces nor tabs: from `a` to
/// `e`.
pub open spec fn is_name_in(b: Seq<u8>, from: int, end: int, a: int, e: int) -> bool {
    &&& from <= a < e <= end
    &&& forall|j: int| a <= j < e ==> #[trigger] b[j] != 0x20 && b[j] != 0x09
    &&& a == from || b[a - 1] == 0x20 || b[a - 1] == 0x09
    &&& e == end || b[e] == 0x20 || b[e] == 0x09
}

/// No quote of the kind and no `<` at or after `from`.
pub open spec fn nothing_ends_it(b: Seq<u8>, from: int, quote: u8) -> bool {
    forall|j: int| from <= j < b.len() ==> #[trigger] b[j] != quote && b[j] != 0x3c
}

/// The first place at or after `from` that holds the quote or a `<`, or the end of the line.
pub open spec fn first_end(b: Seq<u8>, from: int, quote: u8, end: int) -> bool {
    &&& from <= end <= b.len()
    &&& forall|j: int| from <= j < end ==> #[trigger] b[j] != quote && b[j] != 0x3c
    &&& end == b.len() || b[end] == quote || b[end] == 0x3c
}

pub proof fn lemma_first_end(b: Seq<u8>, from: int, quote: u8, end: int)
    requires
        0 <= from,
        first_end(b, from, quote, end),
    ensures
        value_stop(b, from, quote) == end,
    decreases end - from,
{
    if from < end {
        assert(b[from] != quote);
        lemma_first_end(b, from + 1, quote, end);
    }
}

/// The value that an attribute opens ends at its quote, at the next `<` or at the end of the line,
/// whichever comes first; all that stands before belongs to its names, where the quote is followed
/// by white space, the end of the tag or the end of the line.
pub proof fn law_values_end_at_their_quote(line: Seq<char>, g: Groups, end: int)
    requires
        first_end(
            encode_utf8(line),
            whole(g).1 as int,
            encode_utf8(line)[(g[1]->0).0 as int],
            end,
        ),
        end + 1 >= encode_utf8(line).len() || encode_utf8(line)[end + 1] == 0x20 || encode_utf8(
            line,
        )[end + 1] == 0x09 || encode_utf8(line)[end + 1] == 0x3e || encode_utf8(line)[end]
            == 0x3c && encode_utf8(line)[(g[1]->0).0 as int] != 0x3c,
    ensures
        match_names_end(line, g) == end,
        match_stop(line, g) == end,
{
    let b = encode_utf8(line);
    lemma_first_end(b, whole(g).1 as int, b[(g[1]->0).0 as int], end);
}

/// A name in a value is one of its tokens.
pub proof fn lemma_name_is_token(b: Seq<u8>, from: int, end: int, a: int, e: int)
    requires
        0 <= from <= end <= b.len(),
        is_name_in(b, from, end, a, e),
    ensures
        tokens(b, from, end).contains((a, e)),
    decreases end - from,
{
    let all = tokens(b, from, end);
    if is_separator(b[from]) {
        assert(from < a);
        assert(is_name_in(b, from + 1, end, a, e));
        lemma_name_is_token(b, from + 1, end, a, e);
    } else {
        lemma_token_end(b, from, end);
        let t = token_end(b, from, end);
        if a == from {
            if e < t {
                assert(is_separator(b[e]));
            } else if t < e {
                assert(b[t] != 0x20);
            }
            assert(all[0] == (a, e));
        } else {
            if a <= t {
                if a - 1 < t {
                    assert(is_separator(b[a - 1]));
                }
            }
            assert(a > t);
            assert(is_name_in(b, t, end, a, e));
            let rest = tokens(b, t, end);
            assert(t > from);
            lemma_name_is_token(b, t, end, a, e);
            let k = choose|k: int| 0 <= k < rest.len() && rest[k] == (a, e);
            assert(all[k + 1] == (a, e));
        }
    }
}

proof fn lemma_value_has_ref(
    line: Seq<char>,
    line_num: u32,
    from: int,
    end: int,
    is_id: bool,
    a: int,
    e: int,
)
    requires
        0 <= from <= end <= encode_utf8(line).len(),
        is_name_in(encode_utf8(line), from, end, a, e),
    ensures
        value_refs(line, line_num, from, end, is_id).contains(
            token_ref(line, line_num, (a, e), is_id),
        ),
{
    let toks = tokens(encode_utf8(line), from, end);
    lemma_name_is_token(encode_utf8(line), from, end, a, e);
    let k = choose|k: int| 0 <= k < toks.len() && toks[k] == (a, e);
    assert(value_refs(line, line_num, from, end, is_id)[k] == token_ref(
        line,
        line_num,
        (a, e),
        is_id,
    ));
}

proof fn lemma_matches_have_ref(
    line: Seq<char>,
    line_num: u32,
    matches: Seq<Groups>,
    is_id: bool,
    m: int,
    a: int,
    e: int,
)
    requires
        0 <= m < matches.len(),
        whole(matches[m]).1 <= match_names_end(line, matches[m]) <= encode_utf8(line).len(),
        is_name_in(
            encode_utf8(line),
            whole(matches[m]).1 as int,
            match_names_end(line, matches[m]),
            a,
            e,
        ),
    ensures
        attr_refs(line, line_num, matches, is_id).contains(
            token_ref(line, line_num, (a, e), is_id),
        ),
    decreases matches.len(),
{
    let r = token_ref(line, line_num, (a, e), is_id);
    let head = attr_refs(line, line_num, matches.drop_last(), is_id);
    let all = attr_refs(line, line_num, matches, is_id);
    if m == matches.len() - 1 {
        let from = whole(matches[m]).1 as int;
        let end = match_names_end(line, matches[m]);
        lemma_value_has_ref(line, line_num, from, end, is_id, a, e);
        let more = value_refs(line, line_num, from, end, is_id);
        let k = choose|k: int| 0 <= k < more.len() && more[k] == r;
        assert(all[head.len() + k] == r);
    } else {
        assert(matches.drop_last()[m] == matches[m]);
        lemma_matches_have_ref(line, line_num, matches.drop_last(), is_id, m, a, e);
        let k = choose|k: int| 0 <= k < head.len() && head[k] == r;
        assert(all[k] == r);
    }
}

/// Whether the attributes of line `k` are looked at: no value is open from an earlier line, or the
/// line ends it.
pub open spec fn looked_at(
    all: Seq<Seq<char>>,
    classes: Seq<Seq<Groups>>,
    ids: Seq<Seq<Groups>>,
    k: int,
) -> bool {
    match refs_upto(all, classes, ids, k).1 {
        None => true,
        Some((quote, _)) => !nothing_ends_it(encode_utf8(all[k]), 0, quote),
    }
}

proof fn lemma_upto_keeps(
    all: Seq<Seq<char>>,
    classes: Seq<Seq<Groups>>,
    ids: Seq<Seq<Groups>>,
    k: int,
    n: int,
    r: RefView,
)
    requires
        k <= n,
        refs_upto(all, classes, ids, k).0.contains(r),
    ensures
        refs_upto(all, classes, ids, n).0.contains(r),
    decreases n - k,
{
    if k < n {
        lemma_upto_keeps(all, classes, ids, k, n - 1, r);
        if n > 0 {
            let before = refs_upto(all, classes, ids, n - 1).0;
            let i = choose|i: int| 0 <= i < before.len() && before[i] == r;
            assert(refs_upto(all, classes, ids, n).0[i] == r);
        }
    }
}

proof fn lemma_line_keeps(
    all: Seq<Seq<char>>,
    classes: Seq<Seq<Groups>>,
    ids: Seq<Seq<Groups>>,
    k: int,
    r: RefView,
)
    requires
        0 <= k < all.len(),
        line_refs(
            all[k],
            k as u32,
            classes[k],
            ids[k],
            refs_upto(all, classes, ids, k).1,
        ).0.contains(r),
    ensures
        refs_upto(all, classes, ids, all.len() as int).0.contains(r),
{
    let before = refs_upto(all, classes, ids, k);
    let here = line_refs(all[k], k as u32, classes[k], ids[k], before.1);
    let i = choose|i: int| 0 <= i < here.0.len() && here.0[i] == r;
    assert(refs_upto(all, classes, ids, k + 1).0[before.0.len() + i] == r);
    lemma_upto_keeps(all, classes, ids, k + 1, all.len() as int, r);
}

/// Every use in an attribute is a reference: on a line whose attributes are looked at, each longest
/// run without spaces and tabs in the value of each `class` or `id` attribute is found, with its
/// line, its columns, its text and its kind.
pub proof fn law_every_name_in_an_attribute_is_found(
    text: Seq<char>,
    k: int,
    is_id: bool,
    m: int,
    a: int,
    e: int,
)
    requires
        0 <= k < lines(text).len(),
        looked_at(
            lines(text),
            line_matches(CLASS_ATTR_RE@, lines(text)),
            line_matches(ID_ATTR_RE@, lines(text)),
            k,
        ),
        ({
            let line = lines(text)[k];
            let matches = regex_captures(
                if is_id {
                    ID_ATTR_RE@
                } else {
                    CLASS_ATTR_RE@
                },
                line,
            );
            &&& 0 <= m < matches.len()
            &&& whole(matches[m]).1 <= match_names_end(line, matches[m]) <= encode_utf8(line).len()
            &&& is_name_in(
                encode_utf8(line),
                whole(matches[m]).1 as int,
                match_names_end(line, matches[m]),
                a,
                e,
            )
        }),
    ensures
        html_refs(text).contains(
            RefView {
                line: k as u32,
                col_start: a as u32,
                col_end: e as u32,
                name: slice(lines(text)[k], a, e),
                is_id,
            },
        ),
{
    let all = lines(text);
    let line = all[k];
    let b = encode_utf8(line);
    let classes = line_matches(CLASS_ATTR_RE@, all);
    let ids = line_matches(ID_ATTR_RE@, all);
    let open = refs_upto(all, classes, ids, k).1;
    let r = token_ref(line, k as u32, (a, e), is_id);
    let own = if is_id {
        ids[k]
    } else {
        classes[k]
    };
    lemma_matches_have_ref(line, k as u32, own, is_id, m, a, e);
    let c = attr_refs(line, k as u32, classes[k], false);
    let i = attr_refs(line, k as u32, ids[k], true);
    let fresh = c + i;
    let mine = attr_refs(line, k as u32, own, is_id);
    let j = choose|j: int| 0 <= j < mine.len() && mine[j] == r;
    let at = if is_id {
        c.len() + j
    } else {
        j
    };
    assert(fresh[at] == r);
    let here = line_refs(line, k as u32, classes[k], ids[k], open).0;
    match open {
        None => {
            assert(here[at] == r);
        },
        Some((quote, is_id_open)) => {
            lemma_value_stop(b, 0, quote);
            let stop = value_stop(b, 0, quote);
            if stop == b.len() {
                assert(nothing_ends_it(b, 0, quote));
            }
            let head = value_refs(line, k as u32, 0, continuation_end(line, quote), is_id_open);
            assert(here == head + fresh);
            assert(here[head.len() + at] == r);
        },
    }
    lemma_line_keeps(all, classes, ids, k, r);
}

/// A value goes on below the line it begins on: each longest run without spaces and tabs in the
/// part of the next line that belongs to it is found too.
pub proof fn law_every_name_below_is_found(text: Seq<char>, k: int, a: int, e: int)
    requires
        0 <= k < lines(text).len(),
        refs_upto(
            lines(text),
            line_matches(CLASS_ATTR_RE@, lines(text)),
            line_matches(ID_ATTR_RE@, lines(text)),
            k,
        ).1 is Some,
        ({
            let open = refs_upto(
                lines(text),
                line_matches(CLASS_ATTR_RE@, lines(text)),
                line_matches(ID_ATTR_RE@, lines(text)),
                k,
            ).1->0;
            &&& 0 <= continuation_end(lines(text)[k], open.0) <= encode_utf8(lines(text)[k]).len()
            &&& is_name_in(
                encode_utf8(lines(text)[k]),
                0,
                continuation_end(lines(text)[k], open.0),
                a,
                e,
            )
        }),
    ensures
        html_refs(text).contains(
            RefView {
                line: k as u32,
                col_start: a as u32,
                col_end: e as u32,
                name: slice(lines(text)[k], a, e),
                is_id: (refs_upto(
                    lines(text),
                    line_matches(CLASS_ATTR_RE@, lines(text)),
                    line_matches(ID_ATTR_RE@, lines(text)),
                    k,
                ).1->0).1,
            },
        ),
{
    let all = lines(text);
    let line = all[k];
    let classes = line_matches(CLASS_ATTR_RE@, all);
    let ids = line_matches(ID_ATTR_RE@, all);
    let open = refs_upto(all, classes, ids, k).1;
    let (quote, is_id) = open->0;
    let end = continuation_end(line, quote);
    let r = token_ref(line, k as u32, (a, e), is_id);
    lemma_value_has_ref(line, k as u32, 0, end, is_id, a, e);
    let head = value_refs(line, k as u32, 0, end, is_id);
    let j = choose|j: int| 0 <= j < head.len() && head[j] == r;
    let here = line_refs(line, k as u32, classes[k], ids[k], open).0;
    assert(here[j] == r);
    lemma_line_keeps(all, classes, ids, k, r);
}

/// Where the part of a line ends that belongs to a value from an earlier line: at its quote, at the
/// next `<`, or at the end of the line.
pub proof fn law_values_go_on_to_their_quote(line: Seq<char>, quote: u8, end: int)
    requires
        first_end(encode_utf8(line), 0, quote, end),
        end + 1 >= encode_utf8(line).len() || encode_utf8(line)[end + 1] == 0x20 || encode_utf8(
            line,
        )[end + 1] == 0x09 || encode_utf8(line)[end + 1] == 0x3e || encode_utf8(line)[end]
            == 0x3c && quote != 0x3c,
    ensures
        continuation_end(line, quote) == end,
{
    lemma_first_end(encode_utf8(line), 0, quote, end);
}

/// Which value is open behind a line: one from an earlier line that the line does not end; or else
/// that of the last `class` attribute, if nothing ends it on the line; or else that of the last
/// `id` attribute, if nothing ends it.
pub proof fn law_what_stays_open(
    all: Seq<Seq<char>>,
    classes: Seq<Seq<Groups>>,
    ids: Seq<Seq<Groups>>,
    k: int,
)
    requires
        0 <= k < all.len(),
        classes.len() == all.len(),
        ids.len() == all.len(),
        classes[k].len() > 0 ==> whole(classes[k].last()).1 <= encode_utf8(all[k]).len(),
        ids[k].len() > 0 ==> whole(ids[k].last()).1 <= encode_utf8(all[k]).len(),
    ensures
        ({
            let b = encode_utf8(all[k]);
            let before = refs_upto(all, classes, ids, k).1;
            let after = refs_upto(all, classes, ids, k + 1).1;
            let class_open = classes[k].len() > 0 && nothing_ends_it(
                b,
                whole(classes[k].last()).1 as int,
                b[(classes[k].last()[1]->0).0 as int],
            );
            let id_open = ids[k].len() > 0 && nothing_ends_it(
                b,
                whole(ids[k].last()).1 as int,
                b[(ids[k].last()[1]->0).0 as int],
            );
            after == (if before is Some && nothing_ends_it(b, 0, (before->0).0) {
                before
            } else if class_open {
                Some((b[(classes[k].last()[1]->0).0 as int], false))
            } else if id_open {
                Some((b[(ids[k].last()[1]->0).0 as int], true))
            } else {
                None
            })
        }),
        refs_upto(all, classes, ids, 0).1 is None,
{
    let b = encode_utf8(all[k]);
    let before = refs_upto(all, classes, ids, k).1;
    if before is Some {
        lemma_stop_at_end(b, 0, (before->0).0);
    }
    if classes[k].len() > 0 {
        lemma_stop_at_end(
            b,
            whole(classes[k].last()).1 as int,
            b[(classes[k].last()[1]->0).0 as int],
        );
    }
    if ids[k].len() > 0 {
        lemma_stop_at_end(b, whole(ids[k].last()).1 as int, b[(ids[k].last()[1]->0).0 as int]);
    }
}

proof fn lemma_stop_at_end(b: Seq<u8>, from: int, quote: u8)
    requires
        0 <= from <= b.len(),
    ensures
        (value_stop(b, from, quote) == b.len()) == nothing_ends_it(b, from, quote),
{
    lemma_value_stop(b, from, quote);
    let stop = value_stop(b, from, quote);
    if stop < b.len() {
        assert(b[stop] == quote || b[stop] == 0x3c);
    }
}

/// Where a reference can come from: a name in the value of a `class` or `id` attribute of line `k`,
/// or in the part of the line that belongs to a value from an earlier line.
pub open spec fn comes_from(
    all: Seq<Seq<char>>,
    classes: Seq<Seq<Groups>>,
    ids: Seq<Seq<Groups>>,
    r: RefView,
    k: int,
) -> bool {
    let line = all[k];
    ||| attr_refs(line, k as u32, classes[k], false).contains(r) && !r.is_id
    ||| attr_refs(line, k as u32, ids[k], true).contains(r) && r.is_id
    ||| {
        let open = refs_upto(all, classes, ids, k).1;
        open is Some && (open->0).1 == r.is_id && value_refs(
            line,
            k as u32,
            0,
            continuation_end(line, (open->0).0),
            r.is_id,
        ).contains(r)
    }
}

proof fn lemma_kind(line: Seq<char>, line_num: u32, matches: Seq<Groups>, is_id: bool, i: int)
    requires
        0 <= i < attr_refs(line, line_num, matches, is_id).len(),
    ensures
        attr_refs(line, line_num, matches, is_id)[i].is_id == is_id,
    decreases matches.len(),
{
    if matches.len() > 0 {
        let head = attr_refs(line, line_num, matches.drop_last(), is_id);
        if i < head.len() {
            assert(attr_refs(line, line_num, matches, is_id)[i] == head[i]);
            lemma_kind(line, line_num, matches.drop_last(), is_id, i);
        }
    }
}

/// Nothing but a name in an attribute is a reference: each comes from the value of an attribute of
/// its kind on its line.
pub proof fn law_references_come_from_attributes(
    all: Seq<Seq<char>>,
    classes: Seq<Seq<Groups>>,
    ids: Seq<Seq<Groups>>,
    n: int,
    i: int,
)
    requires
        0 <= n <= all.len(),
        classes.len() == all.len(),
        ids.len() == all.len(),
        0 <= i < refs_upto(all, classes, ids, n).0.len(),
    ensures
        exists|k: int|
            0 <= k < n && #[trigger] comes_from(
                all,
                classes,
                ids,
                refs_upto(all, classes, ids, n).0[i],
                k,
            ),
    decreases n,
{
    if n > 0 {
        let before = refs_upto(all, classes, ids, n - 1);
        let line = all[n - 1];
        let num = (n - 1) as u32;
        let here = line_refs(line, num, classes[n - 1], ids[n - 1], before.1).0;
        let r = refs_upto(all, classes, ids, n).0[i];
        if i < before.0.len() {
            assert(r == before.0[i]);
            law_references_come_from_attributes(all, classes, ids, n - 1, i);
            let k = choose|k: int|
                0 <= k < n - 1 && #[trigger] comes_from(all, classes, ids, before.0[i], k);
            assert(comes_from(all, classes, ids, r, k));
        } else {
            let j = i - before.0.len();
            assert(r == here[j]);
            let c = attr_refs(line, num, classes[n - 1], false);
            let d = attr_refs(line, num, ids[n - 1], true);
            let lead = match before.1 {
                None => Seq::<RefView>::empty(),
                Some((quote, is_id)) => value_refs(
                    line,
                    num,
                    0,
                    continuation_end(line, quote),
                    is_id,
                ),
            };
            if j < lead.len() {
                assert(r == lead[j]);
                assert(lead.contains(r));
            } else if j < lead.len() + c.len() {
                lemma_kind(line, num, classes[n - 1], false, j - lead.len());
                assert(r == c[j - lead.len()]);
                assert(c.contains(r));
            } else {
                lemma_kind(line, num, ids[n - 1], true, j - lead.len() - c.len());
                assert(r == d[j - lead.len() - c.len()]);
                assert(d.contains(r));
            }
            assert(comes_from(all, classes, ids, r, n - 1));
        }
    }
}

/// A value whose own quote is missing runs into the next attribute: where a `=` stands before the
/// quote that is found, something that belongs to a value stands behind it, and the quotes up to
/// the next tag come in pairs, the names end before the name of that attribute.
pub proof fn law_values_without_a_quote(b: Seq<u8>, from: int, p: int, stop: int, quote: u8)
    requires
        0 <= from < p < stop - 1,
        stop + 1 < b.len(),
        b[stop] == quote,
        b[stop - 1] == 0x3d,
        b[p - 1] == 0x20 || b[p - 1] == 0x09,
        forall|j: int| p <= j < stop ==> #[trigger] b[j] != 0x20 && b[j] != 0x09,
        b[stop + 1] != 0x20 && b[stop + 1] != 0x09 && b[stop + 1] != 0x0c && b[stop + 1] != 0x0d
            && b[stop + 1] != 0x3e && b[stop + 1] != 0x2f,
        quotes_from(b, stop, quote) % 2 == 0,
    ensures
        names_end(b, from, stop, quote) == p,
{
    assert(without_separators(b, from, stop) == stop);
    assert(b[stop - 2] != 0x20);
    assert(without_separators(b, from, stop - 1) == stop - 1);
    lemma_run_starts(b, from, p, stop - 1);
}

proof fn lemma_run_starts(b: Seq<u8>, from: int, p: int, i: int)
    requires
        0 <= from < p <= i <= b.len(),
        b[p - 1] == 0x20 || b[p - 1] == 0x09,
        forall|j: int| p <= j < i ==> #[trigger] b[j] != 0x20 && b[j] != 0x09,
    ensures
        run_start(b, from, i) == p,
    decreases i - p,
{
    if i > p {
        assert(b[i - 1] != 0x20);
        lemma_run_starts(b, from, p, i - 1);
    }
}

/// Quotes are counted one by one, up to the next `<` or the end of the line.
pub proof fn law_quotes_are_counted(b: Seq<u8>, i: int, quote: u8)
    requires
        0 <= i <= b.len(),
    ensures
        i == b.len() || b[i] == 0x3c ==> quotes_from(b, i, quote) == 0,
        i < b.len() && b[i] != 0x3c ==> quotes_from(b, i, quote)
            == quotes_from(b, i + 1, quote) + (if b[i] == quote {
            1nat
        } else {
            0nat
        }),
{
}

} // verus!
