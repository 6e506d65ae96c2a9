//! Where the selectors of a style sheet stand, and the positions of places in a text.

use crate::css::{
    block_end, css_rules, inner_layer, inner_media, is_quote, leading_white, lemma_string_end,
    rules_from, skip_string, string_end, style_rule, without_comments, RuleView,
};
use crate::pattern::is_name_char;
use crate::protocol::Position;
use crate::text::{
    count_newlines, index_from, is_white, lemma_index_from, lemma_newlines_concat, lemma_trim,
    lemma_trim_end, lemma_trim_start, line_number, newlines, string_of, to_line, trim, trim_end,
    trim_start, trimmed,
};
use vstd::prelude::*;
use vstd::slice::slice_subrange;
use vstd::string::StringExecFns;
use vstd::utf8::encode_utf8;

verus! {

/// The index at which the line of the place `i` begins.
pub open spec fn line_begin(s: Seq<char>, i: int) -> int
    decreases i,
{
    if i <= 0 || s[i - 1] == '\n' {
        i
    } else {
        line_begin(s, i - 1)
    }
}

/// The position of the place `i` of a text: its line, and the bytes before it on that line.
pub open spec fn position_in(s: Seq<char>, i: int) -> Position {
    Position {
        line: line_number(newlines(s.take(i)) as int),
        character: encode_utf8(s.subrange(line_begin(s, i), i)).len() as u32,
    }
}

/// The beginning of a line lies on the line.
pub proof fn lemma_line_begin(s: Seq<char>, i: int)
    requires
        0 <= i <= s.len(),
    ensures
        0 <= line_begin(s, i) <= i,
        line_begin(s, i) > 0 ==> s[line_begin(s, i) - 1] == '\n',
        forall|j: int| line_begin(s, i) <= j < i ==> s[j] != '\n',
    decreases i,
{
    if i > 0 && s[i - 1] != '\n' {
        lemma_line_begin(s, i - 1);
    }
}

/// The index at which the line of the place `i` begins.
pub fn begin_of_line(chars: &[char], i: usize) -> (r: usize)
    requires
        i <= chars@.len(),
    ensures
        r == line_begin(chars@, i as int),
        r <= i,
{
    let n: usize = chars.len();
    let mut k: usize = i;
    while k > 0 && chars[k - 1] != '\n'
        invariant
            k <= i <= n,
            n == chars@.len(),
            line_begin(chars@, i as int) == line_begin(chars@, k as int),
        decreases k,
    {
        k = k - 1;
    }
    k
}

/// The position of the place `i` of a text.
pub fn position_of(chars: &[char], i: usize) -> (r: Position)
    requires
        i <= chars@.len(),
    ensures
        r == position_in(chars@, i as int),
{
    let line: usize = count_newlines(slice_subrange(chars, 0, i));
    let begin: usize = begin_of_line(chars, i);
    let before = string_of(slice_subrange(chars, begin, i));
    proof {
        assert(chars@.subrange(0, i as int) =~= chars@.take(i as int));
    }
    Position { line: to_line(line as u128), character: before.as_str().as_bytes().len() as u32 }
}

/// What stands between `chunk` and the brace at `open`, without the white space around it.
pub open spec fn head_span(s: Seq<char>, chunk: int, open: int) -> (int, int) {
    let raw = s.subrange(chunk, open);
    let from = chunk + raw.len() - trim_start(raw).len();
    (from, from + trim(raw).len())
}

/// Whether a text can be a selector: it is not empty and begins no at-rule.
pub open spec fn is_selector(head: Seq<char>) -> bool {
    head.len() > 0 && head[0] != '@'
}

/// Where the selectors stand in a text without comments from `i` on, where the chunk that may be a
/// selector begins at `chunk`: what stands before each opening brace, back to the brace or semicolon
/// before it.
pub open spec fn heads_from(s: Seq<char>, i: int, chunk: int) -> Seq<(int, int)>
    decreases s.len() - i,
{
    if !(0 <= chunk <= i < s.len()) {
        seq![]
    } else if is_quote(s[i]) {
        let e = string_end(s, i + 1, s[i]);
        if i < e < s.len() {
            heads_from(s, e + 1, chunk)
        } else {
            seq![]
        }
    } else if s[i] == ';' || s[i] == '}' {
        heads_from(s, i + 1, i + 1)
    } else if s[i] == '{' {
        if is_selector(trim(s.subrange(chunk, i))) {
            seq![head_span(s, chunk, i)] + heads_from(s, i + 1, i + 1)
        } else {
            heads_from(s, i + 1, i + 1)
        }
    } else {
        heads_from(s, i + 1, chunk)
    }
}

/// The places that a list of index pairs gives.
pub open spec fn spans(v: Seq<(usize, usize)>) -> Seq<(int, int)> {
    v.map_values(|p: (usize, usize)| (p.0 as int, p.1 as int))
}

/// Where the selectors stand in a text without comments.
pub fn find_heads(chars: &[char]) -> (r: Vec<(usize, usize)>)
    ensures
        spans(r@) == heads_from(chars@, 0, 0),
        forall|j: int| 0 <= j < r@.len() ==> (#[trigger] r@[j]).0 <= r@[j].1 <= chars@.len(),
{
    let n: usize = chars.len();
    let mut r: Vec<(usize, usize)> = Vec::new();
    let mut i: usize = 0;
    let mut chunk: usize = 0;
    let ghost s = chars@;
    let ghost all = heads_from(s, 0, 0);
    proof {
        assert(spans(r@) + all =~= all);
    }
    while i < n
        invariant
            chunk <= i <= n,
            n == chars@.len(),
            s == chars@,
            all == spans(r@) + heads_from(s, i as int, chunk as int),
            forall|j: int| 0 <= j < r@.len() ==> (#[trigger] r@[j]).0 <= r@[j].1 <= n,
        decreases n - i,
    {
        let c = chars[i];
        if c == '"' || c == '\'' {
            let e: usize = skip_string(chars, i + 1, c);
            if e >= n {
                i = n;
            } else {
                i = e + 1;
            }
        } else if c == ';' || c == '}' {
            i = i + 1;
            chunk = i;
        } else if c == '{' {
            let raw = slice_subrange(chars, chunk, i);
            let head = trimmed(raw);
            if head.len() > 0 && head[0] != '@' {
                let lead: usize = leading_white(raw);
                proof {
                    lemma_trim(raw@);
                }
                let from: usize = chunk + lead;
                let to: usize = from + head.len();
                let ghost before = r@;
                r.push((from, to));
                proof {
                    let here = head_span(s, chunk as int, i as int);
                    assert(here == (from as int, to as int));
                    assert(spans(r@) =~= spans(before).push(here));
                    assert(spans(before) + (seq![here] + heads_from(s, i + 1, i + 1)) =~= spans(r@)
                        + heads_from(s, i + 1, i + 1));
                }
            }
            i = i + 1;
            chunk = i;
        } else {
            i = i + 1;
        }
    }
    proof {
        assert(spans(r@) + Seq::<(int, int)>::empty() =~= spans(r@));
    }
    r
}

/// A stretch of a text that is not empty.
pub open spec fn is_span(s: Seq<char>, h: (int, int)) -> bool {
    0 <= h.0 < h.1 <= s.len()
}

/// Every selector is a stretch of the text.
pub proof fn lemma_heads(s: Seq<char>, i: int, chunk: int)
    ensures
        forall|j: int|
            0 <= j < heads_from(s, i, chunk).len() ==> is_span(
                s,
                #[trigger] heads_from(s, i, chunk)[j],
            ),
    decreases s.len() - i,
{
    let all = heads_from(s, i, chunk);
    if 0 <= chunk <= i < s.len() {
        if is_quote(s[i]) {
            let e = string_end(s, i + 1, s[i]);
            if i < e < s.len() {
                lemma_heads(s, e + 1, chunk);
                assert(all == heads_from(s, e + 1, chunk));
            } else {
                assert(all.len() == 0);
            }
        } else if s[i] == ';' || s[i] == '}' {
            lemma_heads(s, i + 1, i + 1);
            assert(all == heads_from(s, i + 1, i + 1));
        } else if s[i] == '{' {
            lemma_trim(s.subrange(chunk, i));
            lemma_heads(s, i + 1, i + 1);
            let rest = heads_from(s, i + 1, i + 1);
            assert forall|j: int| 0 <= j < all.len() implies is_span(s, #[trigger] all[j]) by {
                if is_selector(trim(s.subrange(chunk, i))) {
                    if j > 0 {
                        assert(all[j] == rest[j - 1]);
                    } else {
                        assert(all[j] == head_span(s, chunk, i));
                    }
                } else {
                    assert(all[j] == rest[j]);
                }
            }
        } else {
            lemma_heads(s, i + 1, chunk);
            assert(all == heads_from(s, i + 1, chunk));
        }
    } else {
        assert(all.len() == 0);
    }
}

/// No name goes on behind a selector: white space or the opening brace follows.
pub proof fn lemma_heads_end(s: Seq<char>, i: int, chunk: int, j: int)
    requires
        0 <= j < heads_from(s, i, chunk).len(),
    ensures
        heads_from(s, i, chunk)[j].1 < s.len(),
        !is_name_char(s[heads_from(s, i, chunk)[j].1]),
    decreases s.len() - i,
{
    if 0 <= chunk <= i < s.len() {
        if is_quote(s[i]) {
            let e = string_end(s, i + 1, s[i]);
            if i < e < s.len() {
                lemma_heads_end(s, e + 1, chunk, j);
            }
        } else if s[i] == ';' || s[i] == '}' {
            lemma_heads_end(s, i + 1, i + 1, j);
        } else if s[i] == '{' {
            let raw = s.subrange(chunk, i);
            if is_selector(trim(raw)) {
                if j > 0 {
                    assert(heads_from(s, i, chunk)[j] == heads_from(s, i + 1, i + 1)[j - 1]);
                    lemma_heads_end(s, i + 1, i + 1, j - 1);
                } else {
                    let h = head_span(s, chunk, i);
                    assert(heads_from(s, i, chunk)[j] == h);
                    lemma_trim(raw);
                    lemma_white_behind(raw);
                    if h.1 < i {
                        assert(raw[h.1 - chunk] == s[h.1]);
                    }
                }
            } else {
                lemma_heads_end(s, i + 1, i + 1, j);
            }
        } else {
            lemma_heads_end(s, i + 1, chunk, j);
        }
    }
}

/// The opening brace behind a selector is the next one there is.
pub proof fn lemma_heads_open(s: Seq<char>, i: int, chunk: int, j: int)
    requires
        0 <= j < heads_from(s, i, chunk).len(),
    ensures
        heads_from(s, i, chunk)[j].1 <= index_from(s, '{', heads_from(s, i, chunk)[j].1) < s.len(),
    decreases s.len() - i,
{
    if 0 <= chunk <= i < s.len() {
        if is_quote(s[i]) {
            let e = string_end(s, i + 1, s[i]);
            if i < e < s.len() {
                lemma_heads_open(s, e + 1, chunk, j);
            }
        } else if s[i] == ';' || s[i] == '}' {
            lemma_heads_open(s, i + 1, i + 1, j);
        } else if s[i] == '{' {
            let raw = s.subrange(chunk, i);
            if is_selector(trim(raw)) {
                if j > 0 {
                    assert(heads_from(s, i, chunk)[j] == heads_from(s, i + 1, i + 1)[j - 1]);
                    lemma_heads_open(s, i + 1, i + 1, j - 1);
                } else {
                    let h = head_span(s, chunk, i);
                    assert(heads_from(s, i, chunk)[j] == h);
                    lemma_trim(raw);
                    lemma_index_from(s, '{', h.1);
                }
            } else {
                lemma_heads_open(s, i + 1, i + 1, j);
            }
        } else {
            lemma_heads_open(s, i + 1, chunk, j);
        }
    }
}

/// Behind a trimmed text only white space is left.
proof fn lemma_white_behind(raw: Seq<char>)
    ensures
        forall|k: int|
            raw.len() - trim_start(raw).len() + trim(raw).len() <= k < raw.len() ==> is_white(
                #[trigger] raw[k],
            ),
{
    let t = trim_start(raw);
    lemma_trim_start(raw);
    lemma_white_at_the_end(t);
    assert forall|k: int|
        raw.len() - t.len() + trim(raw).len() <= k < raw.len() implies is_white(
        #[trigger] raw[k],
    ) by {
        assert(t[k - (raw.len() - t.len())] == raw[k]);
    }
}

proof fn lemma_white_at_the_end(t: Seq<char>)
    ensures
        trim_end(t).len() <= t.len(),
        forall|k: int| trim_end(t).len() <= k < t.len() ==> is_white(#[trigger] t[k]),
    decreases t.len(),
{
    lemma_trim_end(t);
    if t.len() > 0 && is_white(t.last()) {
        lemma_white_at_the_end(t.drop_last());
        assert forall|k: int| trim_end(t).len() <= k < t.len() implies is_white(#[trigger] t[k]) by {
            if k < t.len() - 1 {
                assert(t.drop_last()[k] == t[k]);
            }
        }
    }
}

/// The selectors behind a block are among those from a place inside the block on.
proof fn lemma_heads_over_block(s: Seq<char>, i: int, chunk: int, depth: nat, h: (int, int))
    requires
        0 <= chunk <= i <= s.len(),
        block_end(s, i, depth) is Some,
        block_end(s, i, depth)->0 < s.len(),
        heads_from(s, block_end(s, i, depth)->0 + 1, block_end(s, i, depth)->0 + 1).contains(h),
    ensures
        heads_from(s, i, chunk).contains(h),
    decreases s.len() - i,
{
    if i < s.len() {
        if is_quote(s[i]) {
            lemma_string_end(s, i + 1, s[i]);
            let e = string_end(s, i + 1, s[i]);
            if i < e < s.len() {
                lemma_heads_over_block(s, e + 1, chunk, depth, h);
            }
        } else if s[i] == '{' {
            lemma_heads_over_block(s, i + 1, i + 1, depth + 1, h);
            lemma_behind_a_head(s, i, chunk, h);
        } else if s[i] == '}' {
            if depth > 1 {
                lemma_heads_over_block(s, i + 1, i + 1, (depth - 1) as nat, h);
            }
        } else if s[i] == ';' {
            lemma_heads_over_block(s, i + 1, i + 1, depth, h);
        } else {
            lemma_heads_over_block(s, i + 1, chunk, depth, h);
        }
    }
}

/// The selectors behind an opening brace follow the one before it.
proof fn lemma_behind_a_head(s: Seq<char>, i: int, chunk: int, h: (int, int))
    requires
        0 <= chunk <= i < s.len(),
        s[i] == '{',
        heads_from(s, i + 1, i + 1).contains(h),
    ensures
        heads_from(s, i, chunk).contains(h),
{
    let rest = heads_from(s, i + 1, i + 1);
    let k = choose|k: int| 0 <= k < rest.len() && rest[k] == h;
    if is_selector(trim(s.subrange(chunk, i))) {
        assert((seq![head_span(s, chunk, i)] + rest)[k + 1] == h);
    }
}

/// The selectors inside a stretch of a text are selectors of the text.
proof fn lemma_heads_inside(
    s: Seq<char>,
    from: int,
    to: int,
    i: int,
    chunk: int,
    h: (int, int),
)
    requires
        0 <= from <= to <= s.len(),
        heads_from(s.subrange(from, to), i, chunk).contains(h),
    ensures
        heads_from(s, from + i, from + chunk).contains((from + h.0, from + h.1)),
    decreases to - from - i,
{
    let t = s.subrange(from, to);
    if 0 <= chunk <= i < t.len() {
        assert(t[i] == s[from + i]);
        if is_quote(t[i]) {
            lemma_string_end(t, i + 1, t[i]);
            let e = string_end(t, i + 1, t[i]);
            if i < e < t.len() {
                lemma_string_end_inside(s, from, to, i + 1, t[i]);
                lemma_heads_inside(s, from, to, e + 1, chunk, h);
            }
        } else if t[i] == ';' || t[i] == '}' {
            lemma_heads_inside(s, from, to, i + 1, i + 1, h);
        } else if t[i] == '{' {
            assert(t.subrange(chunk, i) =~= s.subrange(from + chunk, from + i));
            let all = heads_from(t, i, chunk);
            let rest = heads_from(t, i + 1, i + 1);
            let span = head_span(t, chunk, i);
            if is_selector(trim(t.subrange(chunk, i))) {
                let k = choose|k: int| 0 <= k < all.len() && all[k] == h;
                if k == 0 {
                    let outer = heads_from(s, from + i, from + chunk);
                    assert(outer[0] == (from + h.0, from + h.1));
                } else {
                    assert(rest[k - 1] == h);
                    lemma_heads_inside(s, from, to, i + 1, i + 1, h);
                    lemma_behind_a_head(s, from + i, from + chunk, (from + h.0, from + h.1));
                }
            } else {
                lemma_heads_inside(s, from, to, i + 1, i + 1, h);
            }
        } else {
            lemma_heads_inside(s, from, to, i + 1, chunk, h);
        }
    }
}

/// A string that is closed inside a stretch of a text ends there in the text.
proof fn lemma_string_end_inside(s: Seq<char>, from: int, to: int, i: int, quote: char)
    requires
        0 <= from <= to <= s.len(),
        0 <= i <= to - from,
        string_end(s.subrange(from, to), i, quote) < to - from,
    ensures
        string_end(s, from + i, quote) == from + string_end(s.subrange(from, to), i, quote),
    decreases to - from - i,
{
    let t = s.subrange(from, to);
    if i < t.len() {
        assert(t[i] == s[from + i]);
        if t[i] == '\\' {
            if i + 1 < t.len() {
                lemma_string_end_inside(s, from, to, i + 2, quote);
            }
        } else if t[i] != quote {
            lemma_string_end_inside(s, from, to, i + 1, quote);
        }
    }
}

/// A place at which the selector of a rule stands, on the rule's line.
pub open spec fn is_head_of(s: Seq<char>, base: int, rule: RuleView, h: (int, int)) -> bool {
    s.subrange(h.0, h.1) == rule.selector && rule.line == line_number(
        base + newlines(s.take(h.0)),
    )
}

/// A rule whose selector is among those found from a place on.
pub open spec fn has_head(
    s: Seq<char>,
    i: int,
    chunk: int,
    base: int,
    rule: RuleView,
) -> bool {
    exists|h: (int, int)|
        heads_from(s, i, chunk).contains(h) && #[trigger] is_head_of(s, base, rule, h)
}

/// Rules that all have their selectors among those found from a place on.
pub open spec fn all_have_heads(
    s: Seq<char>,
    i: int,
    chunk: int,
    base: int,
    rules: Seq<RuleView>,
) -> bool {
    forall|k: int| 0 <= k < rules.len() ==> has_head(s, i, chunk, base, #[trigger] rules[k])
}

proof fn lemma_own_head(
    s: Seq<char>,
    i: int,
    chunk: int,
    close: int,
    base: int,
    media: Option<Seq<char>>,
    layer: Option<Seq<char>>,
)
    requires
        0 <= chunk <= i < close <= s.len(),
        s[i] == '{',
        is_selector(trim(s.subrange(chunk, i))),
    ensures
        all_have_heads(s, i, chunk, base, style_rule(s, chunk, i, close, base, media, layer)),
{
    let rules = style_rule(s, chunk, i, close, base, media, layer);
    let h = head_span(s, chunk, i);
    let raw = s.subrange(chunk, i);
    lemma_trim(raw);
    assert(s.subrange(h.0, h.1) =~= trim(raw));
    assert(heads_from(s, i, chunk)[0] == h);
    assert(is_head_of(s, base, rules[0], h));
}

proof fn lemma_inner_heads(
    s: Seq<char>,
    i: int,
    chunk: int,
    e: int,
    base: int,
    rules: Seq<RuleView>,
)
    requires
        0 <= chunk <= i < e <= s.len(),
        s[i] == '{',
        all_have_heads(s.subrange(i + 1, e), 0, 0, base + newlines(s.take(i + 1)), rules),
    ensures
        all_have_heads(s, i, chunk, base, rules),
{
    let t = s.subrange(i + 1, e);
    let inner = base + newlines(s.take(i + 1));
    assert forall|k: int| 0 <= k < rules.len() implies has_head(
        s,
        i,
        chunk,
        base,
        #[trigger] rules[k],
    ) by {
        assert(has_head(t, 0, 0, inner, rules[k]));
        let h = choose|h: (int, int)|
            heads_from(t, 0, 0).contains(h) && #[trigger] is_head_of(t, inner, rules[k], h);
        lemma_heads(t, 0, 0);
        let own = (i + 1 + h.0, i + 1 + h.1);
        lemma_heads_inside(s, i + 1, e, 0, 0, h);
        lemma_behind_a_head(s, i, chunk, own);
        assert(s.subrange(own.0, own.1) =~= t.subrange(h.0, h.1));
        lemma_newlines_concat(s.take(i + 1), t.take(h.0));
        assert(s.take(i + 1) + t.take(h.0) =~= s.take(own.0));
        assert(is_head_of(s, base, rules[k], own));
    }
}

proof fn lemma_later_heads(
    s: Seq<char>,
    i: int,
    chunk: int,
    base: int,
    rules: Seq<RuleView>,
)
    requires
        0 <= chunk <= i < s.len(),
        s[i] == '{',
        block_end(s, i + 1, 1) is Some,
        block_end(s, i + 1, 1)->0 < s.len(),
        all_have_heads(
            s,
            block_end(s, i + 1, 1)->0 + 1,
            block_end(s, i + 1, 1)->0 + 1,
            base,
            rules,
        ),
    ensures
        all_have_heads(s, i, chunk, base, rules),
{
    let e = block_end(s, i + 1, 1)->0;
    assert forall|k: int| 0 <= k < rules.len() implies has_head(
        s,
        i,
        chunk,
        base,
        #[trigger] rules[k],
    ) by {
        assert(has_head(s, e + 1, e + 1, base, rules[k]));
        let h = choose|h: (int, int)|
            heads_from(s, e + 1, e + 1).contains(h) && #[trigger] is_head_of(s, base, rules[k], h);
        lemma_heads_over_block(s, i + 1, i + 1, 1, h);
        lemma_behind_a_head(s, i, chunk, h);
    }
}

proof fn lemma_rules_have_heads(
    s: Seq<char>,
    i: int,
    chunk: int,
    base: int,
    media: Option<Seq<char>>,
    layer: Option<Seq<char>>,
)
    ensures
        rules_from(s, i, chunk, base, media, layer) is Some ==> all_have_heads(
            s,
            i,
            chunk,
            base,
            rules_from(s, i, chunk, base, media, layer)->0,
        ),
    decreases s.len(), s.len() - i,
{
    if 0 <= chunk <= i < s.len() {
        if is_quote(s[i]) {
            let e = string_end(s, i + 1, s[i]);
            if i < e < s.len() {
                lemma_rules_have_heads(s, e + 1, chunk, base, media, layer);
                lemma_same_heads(s, i, chunk, e + 1, chunk, base, media, layer);
            }
        } else if s[i] == ';' || s[i] == '}' {
            lemma_rules_have_heads(s, i + 1, i + 1, base, media, layer);
            lemma_same_heads(s, i, chunk, i + 1, i + 1, base, media, layer);
        } else if s[i] == '{' {
            let head = trim(s.subrange(chunk, i));
            if head.len() == 0 {
                lemma_rules_have_heads(s, i + 1, i + 1, base, media, layer);
                lemma_same_heads(s, i, chunk, i + 1, i + 1, base, media, layer);
            } else if block_end(s, i + 1, 1) is Some {
                let e = block_end(s, i + 1, 1)->0;
                if i < e <= s.len() {
                    if head[0] == '@' {
                        let inner = base + newlines(s.take(i + 1));
                        let block = s.subrange(i + 1, e);
                        let m = inner_media(head, media);
                        let l = inner_layer(head, layer);
                        lemma_rules_have_heads(block, 0, 0, inner, m, l);
                        if rules_from(block, 0, 0, inner, m, l) is Some {
                            lemma_inner_heads(
                                s,
                                i,
                                chunk,
                                e,
                                base,
                                rules_from(block, 0, 0, inner, m, l)->0,
                            );
                        }
                    } else {
                        lemma_own_head(s, i, chunk, e, base, media, layer);
                    }
                    if e < s.len() {
                        lemma_rules_have_heads(s, e + 1, e + 1, base, media, layer);
                        if rules_from(s, e + 1, e + 1, base, media, layer) is Some {
                            lemma_later_heads(
                                s,
                                i,
                                chunk,
                                base,
                                rules_from(s, e + 1, e + 1, base, media, layer)->0,
                            );
                        }
                    }
                }
            }
        } else {
            lemma_rules_have_heads(s, i + 1, chunk, base, media, layer);
            lemma_same_heads(s, i, chunk, i + 1, chunk, base, media, layer);
        }
    }
}

/// Where neither the rules nor the selectors change, every rule still has its selector.
proof fn lemma_same_heads(
    s: Seq<char>,
    i: int,
    chunk: int,
    j: int,
    next: int,
    base: int,
    media: Option<Seq<char>>,
    layer: Option<Seq<char>>,
)
    requires
        heads_from(s, i, chunk) == heads_from(s, j, next),
        rules_from(s, i, chunk, base, media, layer) == rules_from(s, j, next, base, media, layer),
        rules_from(s, j, next, base, media, layer) is Some ==> all_have_heads(
            s,
            j,
            next,
            base,
            rules_from(s, j, next, base, media, layer)->0,
        ),
    ensures
        rules_from(s, i, chunk, base, media, layer) is Some ==> all_have_heads(
            s,
            i,
            chunk,
            base,
            rules_from(s, i, chunk, base, media, layer)->0,
        ),
{
    if rules_from(s, i, chunk, base, media, layer) is Some {
        let rules = rules_from(s, i, chunk, base, media, layer)->0;
        assert forall|k: int| 0 <= k < rules.len() implies has_head(
            s,
            i,
            chunk,
            base,
            #[trigger] rules[k],
        ) by {
            assert(has_head(s, j, next, base, rules[k]));
        }
    }
}

/// Every rule of a style sheet has its selector among those that are found, on the rule's line.
pub proof fn law_every_rule_has_its_selector(content: Seq<char>)
    requires
        css_rules(content, 0) is Some,
    ensures
        forall|k: int|
            0 <= k < (css_rules(content, 0)->0).len() ==> has_head(
                without_comments(content),
                0,
                0,
                0,
                #[trigger] (css_rules(content, 0)->0)[k],
            ),
{
    let s = without_comments(content);
    lemma_rules_have_heads(s, 0, 0, 0, None, None);
}

} // verus!
