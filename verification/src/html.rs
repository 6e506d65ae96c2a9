//! References to classes and identifiers in HTML documents.

use crate::bytes::{boundary, lemma_boundary_ascii, lemma_boundary_ends, slice, slice_text};
use crate::pattern::{
    ends_with_quote, group_lists, is_groups, opens_attribute, regex_captures, whole, Pattern,
    Patterns, CLASS_ATTR_RE, ID_ATTR_RE,
};
use crate::text::{lines, split_lines, texts};
use vstd::prelude::*;
use vstd::utf8::encode_utf8;

verus! {

/// A class or identifier in an attribute value: its line, its byte columns and its name.
#[derive(Debug)]
pub struct SelectorRef {
    pub line: u32,
    pub col_start: u32,
    pub col_end: u32,
    pub name: String,
    pub is_id: bool,
}

/// What a `SelectorRef` says.
#[verifier::ext_equal]
pub ghost struct RefView {
    pub line: u32,
    pub col_start: u32,
    pub col_end: u32,
    pub name: Seq<char>,
    pub is_id: bool,
}

impl DeepView for SelectorRef {
    type V = RefView;

    open spec fn deep_view(&self) -> RefView {
        RefView {
            line: self.line,
            col_start: self.col_start,
            col_end: self.col_end,
            name: self.name@,
            is_id: self.is_id,
        }
    }
}

/// Spans of the groups of a match.
pub type Groups = Seq<Option<(usize, usize)>>;

/// A space or a tab: what separates the names in an attribute value.
pub open spec fn is_separator(b: u8) -> bool {
    b == 0x20 || b == 0x09
}

/// The first byte offset at or after `from` that holds the quote or a `<`, or the length. A raw `<`
/// ends an attribute value whose quote is missing, so that it does not run into the next tag.
pub open spec fn value_stop(b: Seq<u8>, from: int, quote: u8) -> int
    decreases b.len() - from,
{
    if from >= b.len() {
        b.len() as int
    } else if b[from] == quote || b[from] == 0x3c {
        from
    } else {
        value_stop(b, from + 1, quote)
    }
}

/// The end of what stands between `from` and `i`, without the separators it ends with.
pub open spec fn without_separators(b: Seq<u8>, from: int, i: int) -> int
    decreases i - from,
{
    if i > from && is_separator(b[i - 1]) {
        without_separators(b, from, i - 1)
    } else {
        i
    }
}

/// Where the run without separators begins that ends at `i`.
pub open spec fn run_start(b: Seq<u8>, from: int, i: int) -> int
    decreases i - from,
{
    if i > from && !is_separator(b[i - 1]) {
        run_start(b, from, i - 1)
    } else {
        i
    }
}

/// How many quotes stand at or after `i`, up to the next `<` or the end of the line.
pub open spec fn quotes_from(b: Seq<u8>, i: int, quote: u8) -> nat
    decreases b.len() - i,
{
    if i >= b.len() || b[i] == 0x3c {
        0
    } else if b[i] == quote {
        1 + quotes_from(b, i + 1, quote)
    } else {
        quotes_from(b, i + 1, quote)
    }
}

/// Whether what stands at `i` can follow a closed value: the end of the line, white space, or the
/// end of the tag.
pub open spec fn follows_a_value(b: Seq<u8>, i: int) -> bool {
    ||| i >= b.len()
    ||| is_separator(b[i])
    ||| b[i] == 0x0c
    ||| b[i] == 0x0d
    ||| b[i] == 0x3e
    ||| (b[i] == 0x2f && i + 1 < b.len() && b[i + 1] == 0x3e)
}

/// Whether the quote at `stop` opens a value rather than closing one: it has a partner among the
/// quotes up to the next tag, and nothing that follows a closed value stands behind it.
pub open spec fn opens_value(b: Seq<u8>, stop: int, quote: u8) -> bool {
    !follows_a_value(b, stop + 1) && quotes_from(b, stop, quote) % 2 == 0
}

/// Whether a value between `from` and the quote at `stop` runs into another attribute: a `=` stands
/// before the quote, and the quote opens a value.
pub open spec fn runs_on(b: Seq<u8>, from: int, stop: int, quote: u8) -> bool {
    let end = without_separators(b, from, stop);
    stop < b.len() && b[stop] == quote && end > from && b[end - 1] == 0x3d && opens_value(
        b,
        stop,
        quote,
    )
}

/// Where the names of a value end that stops at `stop`: there, unless the value's own quote is
/// missing and it runs into another attribute. Then its names end before the other attribute.
pub open spec fn names_end(b: Seq<u8>, from: int, stop: int, quote: u8) -> int {
    let end = without_separators(b, from, stop);
    if runs_on(b, from, stop, quote) {
        run_start(b, from, without_separators(b, from, end - 1))
    } else {
        stop
    }
}

proof fn lemma_without_separators(b: Seq<u8>, from: int, i: int)
    requires
        from <= i,
    ensures
        from <= without_separators(b, from, i) <= i,
    decreases i - from,
{
    if i > from && is_separator(b[i - 1]) {
        lemma_without_separators(b, from, i - 1);
    }
}

proof fn lemma_run_start(b: Seq<u8>, from: int, i: int)
    requires
        from <= i,
    ensures
        from <= run_start(b, from, i) <= i,
        run_start(b, from, i) == from || is_separator(b[run_start(b, from, i) - 1]),
    decreases i - from,
{
    if i > from && !is_separator(b[i - 1]) {
        lemma_run_start(b, from, i - 1);
    }
}

/// The names of a value end between characters, and not behind the value.
pub proof fn lemma_names_end(line: Seq<char>, from: int, stop: int, quote: u8)
    requires
        from <= stop,
        boundary(line, from),
        boundary(line, stop),
    ensures
        from <= names_end(encode_utf8(line), from, stop, quote) <= stop,
        boundary(line, names_end(encode_utf8(line), from, stop, quote)),
{
    let b = encode_utf8(line);
    let end = without_separators(b, from, stop);
    lemma_without_separators(b, from, stop);
    if runs_on(b, from, stop, quote) {
        let k = without_separators(b, from, end - 1);
        lemma_without_separators(b, from, end - 1);
        lemma_run_start(b, from, k);
        let e = run_start(b, from, k);
        if e > from {
            lemma_boundary_ascii(line, e - 1);
        }
    }
}

/// A value that its quote closes keeps all its names, also one that ends with a `=`: where white
/// space, the end of the tag or the end of the line stands behind the quote, and where the quotes
/// up to the next tag are odd in number.
pub proof fn law_closed_values_keep_their_names(b: Seq<u8>, from: int, stop: int, quote: u8)
    requires
        0 <= from <= stop <= b.len(),
        stop < b.len() && b[stop] == quote ==> follows_a_value(b, stop + 1) || quotes_from(
            b,
            stop,
            quote,
        ) % 2 == 1,
    ensures
        names_end(b, from, stop, quote) == stop,
{
}

/// Whether the quote at `stop` opens a value rather than closing one.
fn is_opening(b: &[u8], stop: usize, quote: u8) -> (r: bool)
    requires
        stop < b@.len(),
    ensures
        r == opens_value(b@, stop as int, quote),
{
    let n: usize = b.len();
    let next: usize = stop + 1;
    if next >= n || b[next] == 0x20 || b[next] == 0x09 || b[next] == 0x0c || b[next] == 0x0d
        || b[next] == 0x3e || (b[next] == 0x2f && next + 1 < n && b[next + 1] == 0x3e) {
        return false;
    }
    let mut even = true;
    let mut i: usize = stop;
    while i < n && b[i] != 0x3c
        invariant
            stop <= i <= n,
            n == b@.len(),
            (quotes_from(b@, stop as int, quote) % 2 == 0) == ((quotes_from(b@, i as int, quote) % 2
                == 0) == even),
        decreases n - i,
    {
        if b[i] == quote {
            even = !even;
        }
        i = i + 1;
    }
    even
}

/// Where the names of a value end that stops at `stop`.
pub fn find_names_end(b: &[u8], from: usize, stop: usize, quote: u8) -> (r: usize)
    requires
        from <= stop <= b@.len(),
    ensures
        r == names_end(b@, from as int, stop as int, quote),
        from <= r <= stop,
{
    let mut end: usize = stop;
    while end > from && (b[end - 1] == 0x20 || b[end - 1] == 0x09)
        invariant
            from <= end <= stop <= b@.len(),
            without_separators(b@, from as int, stop as int) == without_separators(
                b@,
                from as int,
                end as int,
            ),
        decreases end,
    {
        end = end - 1;
    }
    if !(stop < b.len() && b[stop] == quote && end > from && b[end - 1] == 0x3d && is_opening(
        b,
        stop,
        quote,
    )) {
        return stop;
    }
    let mut k: usize = end - 1;
    while k > from && (b[k - 1] == 0x20 || b[k - 1] == 0x09)
        invariant
            from <= k <= end - 1,
            end <= stop <= b@.len(),
            without_separators(b@, from as int, end - 1) == without_separators(
                b@,
                from as int,
                k as int,
            ),
        decreases k,
    {
        k = k - 1;
    }
    let mut e: usize = k;
    while e > from && b[e - 1] != 0x20 && b[e - 1] != 0x09
        invariant
            from <= e <= k,
            k <= stop <= b@.len(),
            run_start(b@, from as int, k as int) == run_start(b@, from as int, e as int),
        decreases e,
    {
        e = e - 1;
    }
    e
}

/// The first separator at or after `from`, or `end`.
pub open spec fn token_end(b: Seq<u8>, from: int, end: int) -> int
    decreases end - from,
{
    if from >= end {
        end
    } else if is_separator(b[from]) {
        from
    } else {
        token_end(b, from + 1, end)
    }
}

/// The longest runs without separators between two byte offsets.
pub open spec fn tokens(b: Seq<u8>, from: int, end: int) -> Seq<(int, int)>
    decreases end - from,
{
    if from >= end {
        seq![]
    } else if is_separator(b[from]) {
        tokens(b, from + 1, end)
    } else {
        let e = token_end(b, from, end);
        if from < e <= end {
            seq![(from, e)] + tokens(b, e, end)
        } else {
            seq![]
        }
    }
}

pub proof fn lemma_value_stop(b: Seq<u8>, from: int, quote: u8)
    requires
        0 <= from <= b.len(),
    ensures
        from <= value_stop(b, from, quote) <= b.len(),
        value_stop(b, from, quote) < b.len() ==> b[value_stop(b, from, quote)] == quote
            || b[value_stop(b, from, quote)] == 0x3c,
        forall|j: int| from <= j < value_stop(b, from, quote) ==> b[j] != quote && b[j] != 0x3c,
    decreases b.len() - from,
{
    if from < b.len() && b[from] != quote && b[from] != 0x3c {
        lemma_value_stop(b, from + 1, quote);
    }
}

pub proof fn lemma_token_end(b: Seq<u8>, from: int, end: int)
    requires
        0 <= from <= end <= b.len(),
    ensures
        from <= token_end(b, from, end) <= end,
        token_end(b, from, end) < end ==> is_separator(b[token_end(b, from, end)]),
        forall|j: int| from <= j < token_end(b, from, end) ==> !is_separator(b[j]),
    decreases end - from,
{
    if from < end && !is_separator(b[from]) {
        lemma_token_end(b, from + 1, end);
    }
}

/// A longest run without separators between two byte offsets; not empty.
pub open spec fn is_token(b: Seq<u8>, from: int, end: int, t: (int, int)) -> bool {
    &&& from <= t.0 < t.1 <= end
    &&& forall|j: int| t.0 <= j < t.1 ==> !is_separator(#[trigger] b[j])
    &&& t.0 == from || is_separator(b[t.0 - 1])
    &&& t.1 == end || is_separator(b[t.1])
}

pub proof fn lemma_tokens(b: Seq<u8>, from: int, end: int)
    requires
        0 <= from <= end <= b.len(),
    ensures
        forall|i: int|
            0 <= i < tokens(b, from, end).len() ==> is_token(
                b,
                from,
                end,
                #[trigger] tokens(b, from, end)[i],
            ),
    decreases end - from,
{
    if from < end {
        let all = tokens(b, from, end);
        if is_separator(b[from]) {
            lemma_tokens(b, from + 1, end);
            assert forall|i: int| 0 <= i < all.len() implies is_token(
                b,
                from,
                end,
                #[trigger] all[i],
            ) by {
                assert(is_token(b, from + 1, end, tokens(b, from + 1, end)[i]));
            }
        } else {
            lemma_token_end(b, from, end);
            let e = token_end(b, from, end);
            lemma_tokens(b, e, end);
            assert forall|i: int| 0 <= i < all.len() implies is_token(
                b,
                from,
                end,
                #[trigger] all[i],
            ) by {
                if i > 0 {
                    assert(all[i] == tokens(b, e, end)[i - 1]);
                    assert(is_token(b, e, end, tokens(b, e, end)[i - 1]));
                    if all[i].0 == e {
                        assert(!is_separator(b[all[i].0]));
                    }
                }
            }
        }
    }
}

/// The reference that a token makes.
pub open spec fn token_ref(line: Seq<char>, line_num: u32, token: (int, int), is_id: bool) -> RefView {
    RefView {
        line: line_num,
        col_start: token.0 as u32,
        col_end: token.1 as u32,
        name: slice(line, token.0, token.1),
        is_id,
    }
}

/// The references between two byte offsets of a line.
pub open spec fn value_refs(
    line: Seq<char>,
    line_num: u32,
    from: int,
    end: int,
    is_id: bool,
) -> Seq<RefView> {
    tokens(encode_utf8(line), from, end).map_values(
        |t: (int, int)| token_ref(line, line_num, t, is_id),
    )
}

/// The first separator at or after `from`, or `end`.
pub fn find_token_end(b: &[u8], from: usize, end: usize) -> (r: usize)
    requires
        from <= end <= b@.len(),
    ensures
        r == token_end(b@, from as int, end as int),
        from <= r <= end,
{
    let mut i: usize = from;
    while i < end && b[i] != 0x20 && b[i] != 0x09
        invariant
            from <= i <= end <= b@.len(),
            token_end(b@, from as int, end as int) == token_end(b@, i as int, end as int),
        decreases end - i,
    {
        i = i + 1;
    }
    i
}

/// Where an attribute value ends that goes on at `from`.
pub fn find_value_stop(b: &[u8], from: usize, quote: u8) -> (r: usize)
    requires
        from <= b@.len(),
    ensures
        r == value_stop(b@, from as int, quote),
        from <= r <= b@.len(),
{
    let n: usize = b.len();
    let mut i: usize = from;
    while i < n && b[i] != quote && b[i] != 0x3c
        invariant
            from <= i <= n,
            n == b@.len(),
            value_stop(b@, from as int, quote) == value_stop(b@, i as int, quote),
        decreases n - i,
    {
        i = i + 1;
    }
    i
}

/// The tokens between two byte offsets.
pub open spec fn spans(v: Seq<(usize, usize)>) -> Seq<(int, int)> {
    v.map_values(|t: (usize, usize)| (t.0 as int, t.1 as int))
}

/// The tokens between two byte offsets of a line.
pub fn find_tokens(line: &str, from: usize, end: usize) -> (r: Vec<(usize, usize)>)
    requires
        from <= end,
        boundary(line@, from as int),
        boundary(line@, end as int),
    ensures
        spans(r@) == tokens(encode_utf8(line@), from as int, end as int),
        forall|i: int|
            0 <= i < r@.len() ==> (#[trigger] r@[i]).0 < r@[i].1 && boundary(line@, r@[i].0 as int)
                && boundary(line@, r@[i].1 as int),
{
    let b = line.as_bytes();
    let mut r: Vec<(usize, usize)> = Vec::new();
    let mut i: usize = from;
    let ghost all = tokens(b@, from as int, end as int);
    proof {
        assert(spans(r@) + all =~= all);
    }
    while i < end
        invariant
            from <= i <= end <= b@.len(),
            b@ == encode_utf8(line@),
            boundary(line@, end as int),
            boundary(line@, i as int),
            spans(r@) + tokens(b@, i as int, end as int) == all,
            forall|i: int|
                0 <= i < r@.len() ==> (#[trigger] r@[i]).0 < r@[i].1 && boundary(
                    line@,
                    r@[i].0 as int,
                ) && boundary(line@, r@[i].1 as int),
        decreases end - i,
    {
        if b[i] == 0x20 || b[i] == 0x09 {
            proof {
                lemma_boundary_ascii(line@, i as int);
            }
            i = i + 1;
        } else {
            let e: usize = find_token_end(b, i, end);
            proof {
                lemma_token_end(b@, i as int, end as int);
                if e < end {
                    lemma_boundary_ascii(line@, e as int);
                }
            }
            let ghost before = spans(r@);
            r.push((i, e));
            proof {
                assert(spans(r@) =~= before.push((i as int, e as int)));
                let rest = tokens(b@, e as int, end as int);
                assert(before + (seq![(i as int, e as int)] + rest) =~= spans(r@) + rest);
            }
            i = e;
        }
    }
    proof {
        assert(spans(r@) + tokens(b@, end as int, end as int) =~= spans(r@));
    }
    r
}

/// Adds the references between two byte offsets of a line.
pub fn collect_value_tokens(
    line: &str,
    line_num: u32,
    value_start: usize,
    end: usize,
    is_id: bool,
    refs: &mut Vec<SelectorRef>,
)
    requires
        value_start <= end,
        boundary(line@, value_start as int),
        boundary(line@, end as int),
    ensures
        final(refs).deep_view() == old(refs).deep_view() + value_refs(
            line@,
            line_num,
            value_start as int,
            end as int,
            is_id,
        ),
{
    let found = find_tokens(line, value_start, end);
    let n: usize = found.len();
    let ghost all = value_refs(line@, line_num, value_start as int, end as int, is_id);
    let ghost start = refs.deep_view();
    let mut k: usize = 0;
    proof {
        assert(start + all.take(0) =~= start);
    }
    while k < n
        invariant
            k <= n,
            n == found@.len(),
            n == all.len(),
            all == value_refs(line@, line_num, value_start as int, end as int, is_id),
            spans(found@) == tokens(encode_utf8(line@), value_start as int, end as int),
            forall|i: int|
                0 <= i < found@.len() ==> (#[trigger] found@[i]).0 < found@[i].1 && boundary(
                    line@,
                    found@[i].0 as int,
                ) && boundary(line@, found@[i].1 as int),
            refs.deep_view() == start + all.take(k as int),
        decreases n - k,
    {
        let (from, to) = found[k];
        let r = SelectorRef {
            line: line_num,
            col_start: from as u32,
            col_end: to as u32,
            name: slice_text(line, from, to),
            is_id,
        };
        let ghost before = refs.deep_view();
        refs.push(r);
        proof {
            assert(spans(found@)[k as int] == (from as int, to as int));
            assert(all[k as int] == r.deep_view());
            assert(refs.deep_view() =~= before.push(r.deep_view()));
            assert(refs.deep_view() =~= start + all.take(k + 1));
        }
        k = k + 1;
    }
    proof {
        assert(all.take(n as int) =~= all);
    }
}

/// An attribute value that is still open at the end of a line: its quote, and whether it is an
/// `id`.
pub type OpenAttr = Option<(u8, bool)>;

/// The quote of an attribute match.
pub open spec fn match_quote(line: Seq<char>, groups: Groups) -> u8 {
    encode_utf8(line)[(groups[1]->0).0 as int]
}

/// Where the value ends that an attribute match opens.
pub open spec fn match_stop(line: Seq<char>, groups: Groups) -> int {
    value_stop(encode_utf8(line), whole(groups).1 as int, match_quote(line, groups))
}

/// Where the names of the value end that an attribute match opens.
pub open spec fn match_names_end(line: Seq<char>, groups: Groups) -> int {
    names_end(
        encode_utf8(line),
        whole(groups).1 as int,
        match_stop(line, groups),
        match_quote(line, groups),
    )
}

/// The references in the values that a list of attribute matches opens.
pub open spec fn attr_refs(
    line: Seq<char>,
    line_num: u32,
    matches: Seq<Groups>,
    is_id: bool,
) -> Seq<RefView>
    decreases matches.len(),
{
    if matches.len() == 0 {
        seq![]
    } else {
        attr_refs(line, line_num, matches.drop_last(), is_id) + value_refs(
            line,
            line_num,
            whole(matches.last()).1 as int,
            match_names_end(line, matches.last()),
            is_id,
        )
    }
}

/// The attribute value that is left open by the last of a list of attribute matches.
pub open spec fn attr_open(line: Seq<char>, matches: Seq<Groups>, is_id: bool) -> OpenAttr {
    if matches.len() > 0 && match_stop(line, matches.last()) == encode_utf8(line).len() {
        Some((match_quote(line, matches.last()), is_id))
    } else {
        None
    }
}

/// Matches of an attribute pattern in a line.
pub open spec fn attr_matches_ok(line: Seq<char>, matches: Seq<Groups>) -> bool {
    forall|i: int|
        0 <= i < matches.len() ==> is_groups(line, #[trigger] matches[i]) && ends_with_quote(
            line,
            matches[i],
        )
}

/// The spans of a list of matches.
pub type Matches = Vec<Vec<Option<(usize, usize)>>>;

/// The end of a match and the quote that ends it.
pub fn opened_value(
    line: &str,
    groups: &Vec<Option<(usize, usize)>>,
) -> (r: (usize, u8))
    requires
        is_groups(line@, groups@),
        ends_with_quote(line@, groups@),
    ensures
        r.0 == whole(groups@).1,
        r.1 == match_quote(line@, groups@),
        boundary(line@, r.0 as int),
        r.1 == 0x22 || r.1 == 0x27,
{
    let b = line.as_bytes();
    let at: usize = match groups[1] {
        Some(span) => span.0,
        None => 0,
    };
    proof {
        assert(groups@[1] is Some);
        assert(groups@[0] is Some);
    }
    (at + 1, b[at])
}

/// Adds the references in the values that the attribute matches of a line open, and tells which
/// value is left open.
pub fn collect_attr_refs(
    line: &str,
    line_num: u32,
    matches: &Matches,
    is_id: bool,
    refs: &mut Vec<SelectorRef>,
) -> (r: OpenAttr)
    requires
        attr_matches_ok(line@, group_lists(matches@)),
    ensures
        final(refs).deep_view() == old(refs).deep_view() + attr_refs(
            line@,
            line_num,
            group_lists(matches@),
            is_id,
        ),
        r == attr_open(line@, group_lists(matches@), is_id),
{
    let b = line.as_bytes();
    let n: usize = matches.len();
    let mut open: OpenAttr = None;
    let mut k: usize = 0;
    let ghost all = group_lists(matches@);
    let ghost start = refs.deep_view();
    proof {
        assert(all.take(0) =~= seq![]);
        assert(start + Seq::<RefView>::empty() =~= start);
    }
    while k < n
        invariant
            k <= n,
            n == matches@.len(),
            b@ == encode_utf8(line@),
            all == group_lists(matches@),
            attr_matches_ok(line@, all),
            refs.deep_view() == start + attr_refs(line@, line_num, all.take(k as int), is_id),
            open == attr_open(line@, all.take(k as int), is_id),
        decreases n - k,
    {
        proof {
            assert(all[k as int] == matches@[k as int]@);
        }
        let (value_start, quote) = opened_value(line, &matches[k]);
        let stop: usize = find_value_stop(b, value_start, quote);
        proof {
            lemma_value_stop(b@, value_start as int, quote);
            lemma_boundary_ends(line@);
            if stop < b@.len() {
                lemma_boundary_ascii(line@, stop as int);
            }
            lemma_names_end(line@, value_start as int, stop as int, quote);
            assert(all.take(k + 1).drop_last() =~= all.take(k as int));
            assert(all.take(k + 1).last() == all[k as int]);
        }
        let ghost before = refs.deep_view();
        let end: usize = find_names_end(b, value_start, stop, quote);
        collect_value_tokens(line, line_num, value_start, end, is_id, refs);
        proof {
            let more = value_refs(line@, line_num, value_start as int, end as int, is_id);
            assert(refs.deep_view() =~= start + (attr_refs(
                line@,
                line_num,
                all.take(k as int),
                is_id,
            ) + more));
        }
        open = if stop == b.len() {
            Some((quote, is_id))
        } else {
            None
        };
        k = k + 1;
    }
    proof {
        assert(all.take(n as int) =~= all);
    }
    open
}

/// Where the names end of a value that was opened on an earlier line.
pub open spec fn continuation_end(line: Seq<char>, quote: u8) -> int {
    let b = encode_utf8(line);
    names_end(b, 0, value_stop(b, 0, quote), quote)
}

/// The part of a line that belongs to an attribute value opened on an earlier line: its references,
/// and the value if it is still open.
pub fn collect_continuation(
    line: &str,
    line_num: u32,
    quote: u8,
    is_id: bool,
    refs: &mut Vec<SelectorRef>,
) -> (r: OpenAttr)
    requires
        quote < 0x80,
    ensures
        final(refs).deep_view() == old(refs).deep_view() + value_refs(
            line@,
            line_num,
            0,
            continuation_end(line@, quote),
            is_id,
        ),
        r == (if value_stop(encode_utf8(line@), 0, quote) == encode_utf8(line@).len() {
            Some((quote, is_id))
        } else {
            None
        }),
{
    let b = line.as_bytes();
    let stop: usize = find_value_stop(b, 0, quote);
    proof {
        lemma_value_stop(b@, 0, quote);
        lemma_boundary_ends(line@);
        if stop < b@.len() {
            lemma_boundary_ascii(line@, stop as int);
        }
    }
    proof {
        lemma_names_end(line@, 0, stop as int, quote);
    }
    let end: usize = find_names_end(b, 0, stop, quote);
    collect_value_tokens(line, line_num, 0, end, is_id, refs);
    if stop == b.len() {
        Some((quote, is_id))
    } else {
        None
    }
}

/// What one line contributes: its references, and the attribute value it leaves open. `classes`
/// and `ids` are the attribute matches in the line; they are not looked at while a value from an
/// earlier line is still open at its end.
pub open spec fn line_refs(
    line: Seq<char>,
    line_num: u32,
    classes: Seq<Groups>,
    ids: Seq<Groups>,
    open: OpenAttr,
) -> (Seq<RefView>, OpenAttr) {
    let fresh = attr_refs(line, line_num, classes, false) + attr_refs(line, line_num, ids, true);
    let fresh_open = match attr_open(line, classes, false) {
        Some(o) => Some(o),
        None => attr_open(line, ids, true),
    };
    match open {
        None => (fresh, fresh_open),
        Some((quote, is_id)) => {
            let stop = value_stop(encode_utf8(line), 0, quote);
            let head = value_refs(line, line_num, 0, continuation_end(line, quote), is_id);
            if stop == encode_utf8(line).len() {
                (head, open)
            } else {
                (head + fresh, fresh_open)
            }
        },
    }
}

/// What the first `k` lines contribute.
pub open spec fn refs_upto(
    lines: Seq<Seq<char>>,
    classes: Seq<Seq<Groups>>,
    ids: Seq<Seq<Groups>>,
    k: int,
) -> (Seq<RefView>, OpenAttr)
    decreases k,
{
    if k <= 0 {
        (seq![], None)
    } else {
        let before = refs_upto(lines, classes, ids, k - 1);
        let here = line_refs(lines[k - 1], (k - 1) as u32, classes[k - 1], ids[k - 1], before.1);
        (before.0 + here.0, here.1)
    }
}

/// The attribute matches of each line.
pub open spec fn line_matches(pattern: Seq<char>, lines: Seq<Seq<char>>) -> Seq<Seq<Groups>> {
    lines.map_values(|line: Seq<char>| regex_captures(pattern, line))
}

/// The class and identifier references of a document, in order.
pub open spec fn html_refs(text: Seq<char>) -> Seq<RefView> {
    let all = lines(text);
    refs_upto(
        all,
        line_matches(CLASS_ATTR_RE@, all),
        line_matches(ID_ATTR_RE@, all),
        all.len() as int,
    ).0
}

/// The spans of the matches of several lines.
pub open spec fn match_lists(v: Seq<Matches>) -> Seq<Seq<Groups>> {
    v.map_values(|m: Matches| group_lists(m@))
}

/// Adds the references of one line.
fn collect_line(
    line: &str,
    line_num: u32,
    classes: &Matches,
    ids: &Matches,
    open: OpenAttr,
    refs: &mut Vec<SelectorRef>,
) -> (r: OpenAttr)
    requires
        attr_matches_ok(line@, group_lists(classes@)),
        attr_matches_ok(line@, group_lists(ids@)),
        open is Some ==> (open->0).0 < 0x80,
    ensures
        final(refs).deep_view() == old(refs).deep_view() + line_refs(
            line@,
            line_num,
            group_lists(classes@),
            group_lists(ids@),
            open,
        ).0,
        r == line_refs(line@, line_num, group_lists(classes@), group_lists(ids@), open).1,
        r is Some ==> (r->0).0 < 0x80,
{
    let ghost start = refs.deep_view();
    let ghost fresh = attr_refs(line@, line_num, group_lists(classes@), false) + attr_refs(
        line@,
        line_num,
        group_lists(ids@),
        true,
    );
    proof {
        lemma_attr_open(line@, group_lists(classes@), false);
        lemma_attr_open(line@, group_lists(ids@), true);
    }
    if let Some((quote, is_id)) = open {
        let rest = collect_continuation(line, line_num, quote, is_id, refs);
        if rest.is_some() {
            return rest;
        }
    }
    let ghost mid = refs.deep_view();
    let class_open = collect_attr_refs(line, line_num, classes, false, refs);
    let id_open = collect_attr_refs(line, line_num, ids, true, refs);
    proof {
        assert(refs.deep_view() =~= mid + fresh);
        assert(mid + fresh =~= start + line_refs(
            line@,
            line_num,
            group_lists(classes@),
            group_lists(ids@),
            open,
        ).0);
    }
    if class_open.is_some() {
        class_open
    } else {
        id_open
    }
}

proof fn lemma_attr_open(line: Seq<char>, matches: Seq<Groups>, is_id: bool)
    requires
        attr_matches_ok(line, matches),
    ensures
        attr_open(line, matches, is_id) is Some ==> (attr_open(line, matches, is_id)->0).0 == 0x22
            || (attr_open(line, matches, is_id)->0).0 == 0x27,
{
    if matches.len() > 0 {
        assert(ends_with_quote(line, matches[matches.len() - 1]));
    }
}

/// A reference made by the bytes from `a` to `b` of line `k`: at least one byte, and no space, tab
/// or `<`.
pub open spec fn made_at(lines: Seq<Seq<char>>, r: RefView, k: int, a: int, b: int) -> bool {
    &&& 0 <= k < lines.len()
    &&& r == token_ref(lines[k], k as u32, (a, b), r.is_id)
    &&& a < b
    &&& boundary(lines[k], a)
    &&& boundary(lines[k], b)
    &&& forall|j: int|
        a <= j < b ==> !is_separator(#[trigger] encode_utf8(lines[k])[j]) && encode_utf8(
            lines[k],
        )[j] != 0x3c
}

/// A reference that names what stands between its columns on its line.
pub open spec fn names_its_columns(lines: Seq<Seq<char>>, r: RefView) -> bool {
    exists|k: int, a: int, b: int| #[trigger] made_at(lines, r, k, a, b)
}

/// Every reference of a list names what stands between its columns.
pub open spec fn all_name_their_columns(lines: Seq<Seq<char>>, refs: Seq<RefView>) -> bool {
    forall|i: int| 0 <= i < refs.len() ==> names_its_columns(lines, #[trigger] refs[i])
}

proof fn lemma_value_refs_names(
    lines: Seq<Seq<char>>,
    k: int,
    from: int,
    quote: u8,
    is_id: bool,
)
    requires
        0 <= k < lines.len(),
        boundary(lines[k], from),
        quote < 0x80,
    ensures
        all_name_their_columns(
            lines,
            value_refs(
                lines[k],
                k as u32,
                from,
                names_end(
                    encode_utf8(lines[k]),
                    from,
                    value_stop(encode_utf8(lines[k]), from, quote),
                    quote,
                ),
                is_id,
            ),
        ),
{
    let line = lines[k];
    let b = encode_utf8(line);
    lemma_value_stop(b, from, quote);
    lemma_boundary_ends(line);
    if value_stop(b, from, quote) < b.len() {
        lemma_boundary_ascii(line, value_stop(b, from, quote));
    }
    lemma_names_end(line, from, value_stop(b, from, quote), quote);
    let stop = names_end(b, from, value_stop(b, from, quote), quote);
    lemma_tokens(b, from, stop);
    let refs = value_refs(line, k as u32, from, stop, is_id);
    assert forall|i: int| 0 <= i < refs.len() implies names_its_columns(lines, #[trigger] refs[i]) by {
        let t = tokens(b, from, stop)[i];
        assert(is_token(b, from, stop, t));
        if t.0 != from {
            lemma_boundary_ascii(line, t.0 - 1);
        }
        if t.1 != stop {
            lemma_boundary_ascii(line, t.1);
        }
        assert(refs[i] == token_ref(line, k as u32, t, is_id));
        assert(made_at(lines, refs[i], k, t.0, t.1));
    }
}

proof fn lemma_attr_refs_names(lines: Seq<Seq<char>>, k: int, matches: Seq<Groups>, is_id: bool)
    requires
        0 <= k < lines.len(),
        attr_matches_ok(lines[k], matches),
    ensures
        all_name_their_columns(lines, attr_refs(lines[k], k as u32, matches, is_id)),
    decreases matches.len(),
{
    if matches.len() > 0 {
        let last = matches[matches.len() - 1];
        assert(is_groups(lines[k], last) && ends_with_quote(lines[k], last));
        assert forall|i: int| 0 <= i < matches.drop_last().len() implies is_groups(
            lines[k],
            #[trigger] matches.drop_last()[i],
        ) && ends_with_quote(lines[k], matches.drop_last()[i]) by {
            assert(is_groups(lines[k], matches[i]));
        }
        lemma_attr_refs_names(lines, k, matches.drop_last(), is_id);
        assert(last[0] is Some);
        lemma_value_refs_names(
            lines,
            k,
            whole(last).1 as int,
            match_quote(lines[k], last),
            is_id,
        );
    }
}

/// Every reference of a document names exactly the bytes between its columns on its line, and no
/// name holds a space, a tab or a `<`.
pub proof fn law_refs_name_their_columns(
    lines: Seq<Seq<char>>,
    classes: Seq<Seq<Groups>>,
    ids: Seq<Seq<Groups>>,
    k: int,
)
    requires
        0 <= k <= lines.len(),
        classes.len() == lines.len(),
        ids.len() == lines.len(),
        forall|i: int|
            0 <= i < lines.len() ==> attr_matches_ok(#[trigger] lines[i], classes[i]),
        forall|i: int| 0 <= i < lines.len() ==> attr_matches_ok(#[trigger] lines[i], ids[i]),
    ensures
        all_name_their_columns(lines, refs_upto(lines, classes, ids, k).0),
        refs_upto(lines, classes, ids, k).1 is Some ==> (refs_upto(lines, classes, ids, k).1->0).0
            == 0x22 || (refs_upto(lines, classes, ids, k).1->0).0 == 0x27,
    decreases k,
{
    if k > 0 {
        law_refs_name_their_columns(lines, classes, ids, k - 1);
        let before = refs_upto(lines, classes, ids, k - 1);
        let line = lines[k - 1];
        lemma_attr_refs_names(lines, k - 1, classes[k - 1], false);
        lemma_attr_refs_names(lines, k - 1, ids[k - 1], true);
        lemma_attr_open(line, classes[k - 1], false);
        lemma_attr_open(line, ids[k - 1], true);
        if before.1 is Some {
            lemma_boundary_ends(line);
            lemma_value_refs_names(lines, k - 1, 0, (before.1->0).0, (before.1->0).1);
        }
    }
}

/// The class and identifier references of a document, given its lines and the attribute matches in
/// each of them.
pub fn selector_refs(
    lines: &Vec<String>,
    classes: &Vec<Matches>,
    ids: &Vec<Matches>,
) -> (r: Vec<SelectorRef>)
    requires
        classes@.len() == lines@.len(),
        ids@.len() == lines@.len(),
        forall|i: int|
            0 <= i < lines@.len() ==> attr_matches_ok(
                (#[trigger] lines@[i])@,
                group_lists(classes@[i]@),
            ),
        forall|i: int|
            0 <= i < lines@.len() ==> attr_matches_ok(
                (#[trigger] lines@[i])@,
                group_lists(ids@[i]@),
            ),
    ensures
        r.deep_view() == refs_upto(
            texts(lines@),
            match_lists(classes@),
            match_lists(ids@),
            lines@.len() as int,
        ).0,
        all_name_their_columns(texts(lines@), r.deep_view()),
{
    let n: usize = lines.len();
    let mut refs: Vec<SelectorRef> = Vec::new();
    let mut open: OpenAttr = None;
    let mut k: usize = 0;
    proof {
        assert(refs.deep_view() =~= seq![]);
    }
    while k < n
        invariant
            k <= n,
            n == lines@.len(),
            classes@.len() == lines@.len(),
            ids@.len() == lines@.len(),
            forall|i: int|
                0 <= i < lines@.len() ==> attr_matches_ok(
                    (#[trigger] lines@[i])@,
                    group_lists(classes@[i]@),
                ),
            forall|i: int|
                0 <= i < lines@.len() ==> attr_matches_ok(
                    (#[trigger] lines@[i])@,
                    group_lists(ids@[i]@),
                ),
            open is Some ==> (open->0).0 < 0x80,
            (refs.deep_view(), open) == refs_upto(
                texts(lines@),
                match_lists(classes@),
                match_lists(ids@),
                k as int,
            ),
        decreases n - k,
    {
        open = collect_line(
            lines[k].as_str(),
            k as u32,
            &classes[k],
            &ids[k],
            open,
            &mut refs,
        );
        k = k + 1;
    }
    proof {
        assert forall|i: int| 0 <= i < texts(lines@).len() implies attr_matches_ok(
            #[trigger] texts(lines@)[i],
            match_lists(classes@)[i],
        ) by {
            assert(attr_matches_ok(lines@[i]@, group_lists(classes@[i]@)));
        }
        assert forall|i: int| 0 <= i < texts(lines@).len() implies attr_matches_ok(
            #[trigger] texts(lines@)[i],
            match_lists(ids@)[i],
        ) by {
            assert(attr_matches_ok(lines@[i]@, group_lists(ids@[i]@)));
        }
        law_refs_name_their_columns(
            texts(lines@),
            match_lists(classes@),
            match_lists(ids@),
            n as int,
        );
    }
    refs
}

/// The matches of an attribute pattern in each line.
fn match_lines(pattern: &Pattern, lines: &Vec<String>) -> (r: Vec<Matches>)
    requires
        opens_attribute(pattern@),
    ensures
        match_lists(r@) == line_matches(pattern@, texts(lines@)),
        r@.len() == lines@.len(),
        forall|i: int|
            0 <= i < lines@.len() ==> attr_matches_ok(
                (#[trigger] lines@[i])@,
                group_lists(r@[i]@),
            ),
{
    let n: usize = lines.len();
    let mut r: Vec<Matches> = Vec::new();
    let mut k: usize = 0;
    while k < n
        invariant
            k <= n,
            n == lines@.len(),
            r@.len() == k,
            opens_attribute(pattern@),
            forall|i: int|
                0 <= i < k ==> group_lists((#[trigger] r@[i])@) == regex_captures(
                    pattern@,
                    lines@[i]@,
                ),
            forall|i: int|
                0 <= i < k ==> attr_matches_ok((#[trigger] lines@[i])@, group_lists(r@[i]@)),
        decreases n - k,
    {
        let found = pattern.captures_all(lines[k].as_str());
        proof {
            let all = group_lists(found@);
            assert forall|i: int| 0 <= i < all.len() implies is_groups(
                lines@[k as int]@,
                #[trigger] all[i],
            ) && ends_with_quote(lines@[k as int]@, all[i]) by {
                assert(all[i] == found@[i]@);
            }
        }
        r.push(found);
        k = k + 1;
    }
    proof {
        assert(match_lists(r@) =~= line_matches(pattern@, texts(lines@)));
    }
    r
}

/// The class and identifier references of a document, in order: those in `class` and `id`
/// attributes, over several lines where a value is not closed on its line.
pub fn html_selector_refs(patterns: &Patterns, text: &str) -> (r: Vec<SelectorRef>)
    ensures
        r.deep_view() == html_refs(text@),
        all_name_their_columns(lines(text@), r.deep_view()),
{
    let all = split_lines(text);
    let classes = match_lines(patterns.class_attr_re(), &all);
    let ids = match_lines(patterns.id_attr_re(), &all);
    selector_refs(&all, &classes, &ids)
}

} // verus!
