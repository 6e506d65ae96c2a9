//! How the blocks, strings and comments of a style sheet are told apart.

use crate::css::{
    blanked, block_end, inner_layer, inner_media, is_flat, is_plain, is_quote, join_rules,
    lemma_block_end_behind, lemma_rules_behind, lemma_rules_over_plain, rules_at_level, rules_from,
    string_end, style_rule, without_comments, RuleView,
};
use crate::text::{
    is_white, lemma_newlines_concat, lemma_trim, line_number, newlines, trim, trim_end, trim_start,
};
use vstd::prelude::*;

verus! {

/// A text that holds neither the quote nor a backslash, so that a string can hold it as it is.
pub open spec fn fits_in_string(s: Seq<char>, quote: char) -> bool {
    forall|i: int| 0 <= i < s.len() ==> #[trigger] s[i] != quote && s[i] != '\\'
}

/// A string ends at the first quote of its kind, and a backslash hides the character behind it.
pub proof fn law_strings_end_at_their_quote(
    before: Seq<char>,
    hidden: char,
    after: Seq<char>,
    rest: Seq<char>,
    quote: char,
)
    requires
        is_quote(quote),
        fits_in_string(before, quote),
        fits_in_string(after, quote),
    ensures
        string_end(before.push(quote) + rest, 0, quote) == before.len(),
        string_end(
            before.push('\\').push(hidden) + after.push(quote) + rest,
            0,
            quote,
        ) == before.len() + 2 + after.len(),
        string_end(before, 0, quote) == before.len(),
{
    let a = before.push(quote) + rest;
    lemma_string_over(a, 0, before.len() as int, quote);
    let b = before.push('\\').push(hidden) + after.push(quote) + rest;
    let n = before.len() as int;
    lemma_string_over(b, 0, n, quote);
    assert(b[n] == '\\');
    assert forall|i: int| n + 2 <= i < n + 2 + after.len() implies #[trigger] b[i] != quote && b[i]
        != '\\' by {
        assert(b[i] == after[i - (n + 2)]);
    }
    lemma_string_over(b, n + 2, n + 2 + after.len(), quote);
    assert(b[n + 2 + after.len()] == quote);
    lemma_string_over(before, 0, n, quote);
}

proof fn lemma_string_over(s: Seq<char>, i: int, n: int, quote: char)
    requires
        0 <= i <= n <= s.len(),
        forall|j: int| i <= j < n ==> #[trigger] s[j] != quote && s[j] != '\\',
    ensures
        string_end(s, i, quote) == string_end(s, n, quote),
    decreases n - i,
{
    if i < n {
        assert(s[i] != quote);
        lemma_string_over(s, i + 1, n, quote);
    }
}

proof fn lemma_block_skips_flat(s: Seq<char>, i: int, n: int, depth: nat)
    requires
        0 <= i <= n <= s.len(),
        forall|j: int| i <= j < n ==> !is_quote(#[trigger] s[j]) && s[j] != '{' && s[j] != '}',
    ensures
        block_end(s, i, depth) == block_end(s, n, depth),
    decreases n - i,
{
    if i < n {
        assert(s[i] != '{');
        lemma_block_skips_flat(s, i + 1, n, depth);
    }
}

/// A block ends at the brace that closes it: one opened inside is closed first, and a brace in a
/// string does not count.
pub proof fn law_blocks_end_at_their_brace(
    a: Seq<char>,
    inner: Seq<char>,
    b: Seq<char>,
    text: Seq<char>,
    quote: char,
    rest: Seq<char>,
)
    requires
        is_flat(a),
        is_flat(inner),
        is_flat(b),
        is_quote(quote),
        fits_in_string(text, quote),
    ensures
        block_end(a.push('{') + inner.push('}') + b.push('}') + rest, 0, 1) == Some(
            (a.len() + inner.len() + b.len() + 2) as int,
        ),
        block_end(a.push(quote) + text.push(quote) + b.push('}') + rest, 0, 1) == Some(
            (a.len() + text.len() + b.len() + 2) as int,
        ),
{
    let s = a.push('{') + inner.push('}') + b.push('}') + rest;
    let n = a.len() as int;
    let m = n + 1 + inner.len();
    let e = m + 1 + b.len();
    assert forall|j: int| 0 <= j < n implies !is_quote(#[trigger] s[j]) && s[j] != '{' && s[j]
        != '}' by {
        assert(s[j] == a[j]);
    }
    lemma_block_skips_flat(s, 0, n, 1);
    assert(s[n] == '{');
    assert forall|j: int| n + 1 <= j < m implies !is_quote(#[trigger] s[j]) && s[j] != '{' && s[j]
        != '}' by {
        assert(s[j] == inner[j - (n + 1)]);
    }
    lemma_block_skips_flat(s, n + 1, m, 2);
    assert(s[m] == '}');
    assert forall|j: int| m + 1 <= j < e implies !is_quote(#[trigger] s[j]) && s[j] != '{' && s[j]
        != '}' by {
        assert(s[j] == b[j - (m + 1)]);
    }
    lemma_block_skips_flat(s, m + 1, e, 1);
    assert(s[e] == '}');
    let t = a.push(quote) + text.push(quote) + b.push('}') + rest;
    let q = n + 1 + text.len();
    let f = q + 1 + b.len();
    assert forall|j: int| 0 <= j < n implies !is_quote(#[trigger] t[j]) && t[j] != '{' && t[j]
        != '}' by {
        assert(t[j] == a[j]);
    }
    lemma_block_skips_flat(t, 0, n, 1);
    assert(t[n] == quote);
    assert forall|j: int| n + 1 <= j < q implies #[trigger] t[j] != quote && t[j] != '\\' by {
        assert(t[j] == text[j - (n + 1)]);
    }
    lemma_string_over(t, n + 1, q, quote);
    assert(t[q] == quote);
    assert forall|j: int| q + 1 <= j < f implies !is_quote(#[trigger] t[j]) && t[j] != '{' && t[j]
        != '}' by {
        assert(t[j] == b[j - (q + 1)]);
    }
    lemma_block_skips_flat(t, q + 1, f, 1);
    assert(t[f] == '}');
}

/// A rule with strings in its selector or among its declarations is read as it stands: `selector`
/// is `head`, a string and `tail`, and the block is whatever a closing brace ends.
pub proof fn law_rules_may_hold_strings(
    head: Seq<char>,
    text: Seq<char>,
    quote: char,
    tail: Seq<char>,
    declarations: Seq<char>,
    rest: Seq<char>,
    base: int,
    media: Option<Seq<char>>,
    layer: Option<Seq<char>>,
)
    requires
        is_plain(head),
        is_plain(tail),
        is_quote(quote),
        fits_in_string(text, quote),
        trim(head + seq![quote] + text + seq![quote] + tail).len() > 0,
        trim(head + seq![quote] + text + seq![quote] + tail)[0] != '@',
        block_end(declarations.push('}') + rest, 0, 1) == Some(declarations.len() as int),
    ensures
        ({
            let selector = head + seq![quote] + text + seq![quote] + tail;
            let rule = selector.push('{') + declarations.push('}');
            let lead = selector.len() - trim_start(selector).len();
            rules_at_level(rule + rest, base, media, layer) == join_rules(
                seq![
                    RuleView {
                        selector: trim(selector),
                        properties: trim(declarations),
                        line: line_number(base + newlines(selector.take(lead))),
                        media_query: media,
                        layer,
                    },
                ],
                rules_at_level(rest, base + newlines(rule), media, layer),
            )
        }),
{
    let selector = head + seq![quote] + text + seq![quote] + tail;
    let more = seq!['{'] + declarations.push('}') + rest;
    lemma_over_string_head(head, text, quote, tail, more, base, media, layer);
    assert(selector.push('{') + declarations.push('}') + rest =~= selector + more);
    lemma_rule_is_read(selector, declarations, rest, base, media, layer);
}

/// A selector with a string is passed over as a whole.
proof fn lemma_over_string_head(
    head: Seq<char>,
    text: Seq<char>,
    quote: char,
    tail: Seq<char>,
    more: Seq<char>,
    base: int,
    media: Option<Seq<char>>,
    layer: Option<Seq<char>>,
)
    requires
        is_plain(head),
        is_plain(tail),
        is_quote(quote),
        fits_in_string(text, quote),
        more.len() > 0,
    ensures
        ({
            let selector = head + seq![quote] + text + seq![quote] + tail;
            rules_from(selector + more, 0, 0, base, media, layer) == rules_from(
                selector + more,
                selector.len() as int,
                0,
                base,
                media,
                layer,
            )
        }),
{
    let selector = head + seq![quote] + text + seq![quote] + tail;
    let s = selector + more;
    let h = head.len() as int;
    let q = h + 1 + text.len();
    let n = selector.len() as int;
    assert(s.take(h) =~= head);
    lemma_rules_over_plain(s, 0, h, base, media, layer);
    assert(s[h] == quote);
    assert forall|j: int| h + 1 <= j < q implies #[trigger] s[j] != quote && s[j] != '\\' by {
        assert(s[j] == text[j - (h + 1)]);
    }
    lemma_string_over(s, h + 1, q, quote);
    assert(s[q] == quote);
    assert forall|j: int| q + 1 <= j < n implies !is_quote(#[trigger] s[j]) && s[j] != '{' && s[j]
        != '}' && s[j] != ';' by {
        assert(s[j] == tail[j - (q + 1)]);
    }
    lemma_rules_over_plain_from(s, q + 1, n, base, media, layer);
}

/// A rule is read once its selector is passed over.
proof fn lemma_rule_is_read(
    selector: Seq<char>,
    declarations: Seq<char>,
    rest: Seq<char>,
    base: int,
    media: Option<Seq<char>>,
    layer: Option<Seq<char>>,
)
    requires
        trim(selector).len() > 0,
        trim(selector)[0] != '@',
        block_end(declarations.push('}') + rest, 0, 1) == Some(declarations.len() as int),
        rules_from(
            selector.push('{') + declarations.push('}') + rest,
            0,
            0,
            base,
            media,
            layer,
        ) == rules_from(
            selector.push('{') + declarations.push('}') + rest,
            selector.len() as int,
            0,
            base,
            media,
            layer,
        ),
    ensures
        ({
            let rule = selector.push('{') + declarations.push('}');
            let lead = selector.len() - trim_start(selector).len();
            rules_at_level(rule + rest, base, media, layer) == join_rules(
                seq![
                    RuleView {
                        selector: trim(selector),
                        properties: trim(declarations),
                        line: line_number(base + newlines(selector.take(lead))),
                        media_query: media,
                        layer,
                    },
                ],
                rules_at_level(rest, base + newlines(rule), media, layer),
            )
        }),
{
    let rule = selector.push('{') + declarations.push('}');
    let s = rule + rest;
    let n = selector.len() as int;
    let e = n + 1 + declarations.len();
    assert(s[n] == '{');
    assert(s.subrange(0, n) =~= selector);
    assert(s.subrange(n + 1, e) =~= declarations);
    assert(s.skip(n + 1) =~= declarations.push('}') + rest);
    lemma_block_end_behind(s, n + 1, n + 1, 1);
    assert(s[e] == '}');
    lemma_trim(selector);
    let lead = n - trim_start(selector).len();
    assert(s.take(lead) =~= selector.take(lead));
    let here = style_rule(s, 0, n, e, base, media, layer);
    lemma_rules_behind(s, e + 1, e + 1, e + 1, base, media, layer);
    assert(s.skip(e + 1) =~= rest);
    assert(s.take(e + 1) =~= rule);
    assert(rules_from(s, n, 0, base, media, layer) == join_rules(
        here,
        rules_from(s, e + 1, e + 1, base, media, layer),
    ));
}

proof fn lemma_rules_over_plain_from(
    s: Seq<char>,
    i: int,
    n: int,
    base: int,
    media: Option<Seq<char>>,
    layer: Option<Seq<char>>,
)
    requires
        0 <= i <= n < s.len(),
        forall|j: int|
            i <= j < n ==> !is_quote(#[trigger] s[j]) && s[j] != '{' && s[j] != '}' && s[j] != ';',
    ensures
        rules_from(s, i, 0, base, media, layer) == rules_from(s, n, 0, base, media, layer),
    decreases n - i,
{
    if i < n {
        assert(s[i] != '{');
        lemma_rules_over_plain_from(s, i + 1, n, base, media, layer);
    }
}

/// A statement that ends with a semicolon, and a stray closing brace, are passed over: what follows
/// is read as if it stood alone.
pub proof fn law_statements_are_passed_over(
    statement: Seq<char>,
    end: char,
    rest: Seq<char>,
    base: int,
    media: Option<Seq<char>>,
    layer: Option<Seq<char>>,
)
    requires
        is_plain(statement),
        end == ';' || end == '}',
    ensures
        rules_at_level(statement.push(end) + rest, base, media, layer) == rules_at_level(
            rest,
            base + newlines(statement.push(end)),
            media,
            layer,
        ),
        rules_at_level(statement, base, media, layer) == Some(Seq::<RuleView>::empty()),
{
    let s = statement.push(end) + rest;
    let n = statement.len() as int;
    assert(s.take(n) =~= statement);
    lemma_rules_over_plain(s, 0, n, base, media, layer);
    assert(s[n] == end);
    lemma_rules_behind(s, n + 1, n + 1, n + 1, base, media, layer);
    assert(s.skip(n + 1) =~= rest);
    assert(s.take(n + 1) =~= statement.push(end));
    lemma_plain_alone(statement, 0, base, media, layer);
}

proof fn lemma_plain_alone(
    s: Seq<char>,
    i: int,
    base: int,
    media: Option<Seq<char>>,
    layer: Option<Seq<char>>,
)
    requires
        0 <= i <= s.len(),
        is_plain(s),
    ensures
        rules_from(s, i, 0, base, media, layer) == Some(Seq::<RuleView>::empty()),
    decreases s.len() - i,
{
    if i < s.len() {
        assert(s[i] != '{');
        lemma_plain_alone(s, i + 1, base, media, layer);
    }
}

/// What stands inside `@media` or `@supports` belongs to that conditional group, what stands inside
/// a named `@layer` to that layer; every other at-rule leaves both as they are outside.
pub proof fn law_groups_and_layers(
    condition: Seq<char>,
    name: Seq<char>,
    other: Seq<char>,
    group: Option<Seq<char>>,
    layer: Option<Seq<char>>,
)
    requires
        trim(name).len() > 0,
        !"@media"@.is_prefix_of(other),
        !"@supports"@.is_prefix_of(other),
        !"@layer"@.is_prefix_of(other),
    ensures
        inner_media("@media"@ + condition, group) == Some("@media"@ + condition),
        inner_media("@supports"@ + condition, group) == Some("@supports"@ + condition),
        inner_layer("@media"@ + condition, layer) == layer,
        inner_layer("@supports"@ + condition, layer) == layer,
        inner_layer("@layer"@ + name, layer) == Some(trim(name)),
        inner_media("@layer"@ + name, group) == group,
        inner_layer("@layer"@, layer) == layer,
        inner_media("@layer"@, group) == group,
        inner_media(other, group) == group,
        inner_layer(other, layer) == layer,
{
    reveal_strlit("@media");
    reveal_strlit("@supports");
    reveal_strlit("@layer");
    let m = "@media"@ + condition;
    let s = "@supports"@ + condition;
    let l = "@layer"@ + name;
    assert(m.subrange(0, 6) =~= "@media"@);
    assert(s.subrange(0, 9) =~= "@supports"@);
    assert(l.subrange(0, 6) =~= "@layer"@);
    assert(l.skip(6) =~= name);
    assert(m[1] == 'm' && s[1] == 's' && l[1] == 'l');
    assert("@layer"@[1] == 'l' && "@media"@[1] == 'm' && "@supports"@[1] == 's');
    if "@layer"@.is_prefix_of(m) {
        assert(m.subrange(0, 6)[1] == m[1]);
    }
    if "@layer"@.is_prefix_of(s) {
        assert(s.subrange(0, 6)[1] == s[1]);
    }
    if "@media"@.is_prefix_of(l) {
        assert(l.subrange(0, 6)[1] == l[1]);
    }
    if "@supports"@.is_prefix_of(l) {
        assert(l.subrange(0, 9)[1] == l[1]);
    }
    let bare = "@layer"@;
    if "@media"@.is_prefix_of(bare) {
        assert(bare.subrange(0, 6)[1] == bare[1]);
    }
    assert(bare.skip(6) =~= Seq::<char>::empty());
    assert(bare.subrange(0, 6) =~= bare);
}

/// The white space around a text does not count, and nothing else is cut off.
pub proof fn law_trimming(before: Seq<char>, text: Seq<char>, after: Seq<char>)
    requires
        forall|i: int| 0 <= i < before.len() ==> is_white(#[trigger] before[i]),
        forall|i: int| 0 <= i < after.len() ==> is_white(#[trigger] after[i]),
        text.len() > 0 ==> !is_white(text[0]) && !is_white(text.last()),
    ensures
        trim(before + text + after) == text,
{
    let s = before + text + after;
    lemma_trim_white_start(before, text + after);
    assert(s =~= before + (text + after));
    if text.len() > 0 {
        assert((text + after)[0] == text[0]);
        assert(trim_start(text + after) == text + after);
        lemma_trim_white_end(text, after);
        assert(trim_end(text) == text);
    } else {
        assert(text + after =~= after);
        lemma_trim_white_start(after, text);
        assert(after + text =~= after);
        assert(trim_start(text) == text);
        assert(trim_end(text) =~= text);
    }
}

proof fn lemma_trim_white_start(white: Seq<char>, t: Seq<char>)
    requires
        forall|i: int| 0 <= i < white.len() ==> is_white(#[trigger] white[i]),
    ensures
        trim_start(white + t) == trim_start(t),
    decreases white.len(),
{
    if white.len() == 0 {
        assert(white + t =~= t);
    } else {
        assert((white + t)[0] == white[0]);
        assert((white + t).skip(1) =~= white.skip(1) + t);
        lemma_trim_white_start(white.skip(1), t);
    }
}

proof fn lemma_trim_white_end(t: Seq<char>, white: Seq<char>)
    requires
        forall|i: int| 0 <= i < white.len() ==> is_white(#[trigger] white[i]),
    ensures
        trim_end(t + white) == trim_end(t),
    decreases white.len(),
{
    if white.len() == 0 {
        assert(t + white =~= t);
    } else {
        assert((t + white).last() == white.last());
        assert((t + white).drop_last() =~= t + white.drop_last());
        assert forall|i: int| 0 <= i < white.drop_last().len() implies is_white(
            #[trigger] white.drop_last()[i],
        ) by {
            assert(white.drop_last()[i] == white[i]);
        }
        lemma_trim_white_end(t, white.drop_last());
    }
}

/// The white space that counts is that of Unicode: tabs, line ends and form feeds, the space and
/// the no-break space, and the spaces and separators of other scripts.
pub proof fn law_white_space(c: char)
    ensures
        is_white(c) == ({
            let u = c as u32;
            (9 <= u && u <= 13) || u == 32 || u == 0x85 || u == 0xa0 || u == 0x1680 || (0x2000 <= u
                && u <= 0x200a) || u == 0x2028 || u == 0x2029 || u == 0x202f || u == 0x205f || u
                == 0x3000
        }),
{
}

/// Lines are counted by their line feeds, and a count that fits is the line's number.
pub proof fn law_lines_are_counted(a: Seq<char>, b: Seq<char>, base: u32)
    requires
        !a.contains('\n'),
        base + newlines(b) <= u32::MAX,
    ensures
        newlines(a) == 0,
        newlines(a.push('\n') + b) == 1 + newlines(b),
        line_number(base + newlines(b)) == base + newlines(b),
{
    lemma_no_line_feed(a);
    lemma_newlines_concat(a.push('\n'), b);
    assert(a.push('\n').drop_last() =~= a);
}

proof fn lemma_no_line_feed(a: Seq<char>)
    requires
        !a.contains('\n'),
    ensures
        newlines(a) == 0,
    decreases a.len(),
{
    if a.len() > 0 {
        assert(a.contains(a[a.len() - 1]));
        assert forall|i: int| 0 <= i < a.drop_last().len() implies a.drop_last()[i] != '\n' by {
            assert(a.contains(a[i]));
        }
        lemma_no_line_feed(a.drop_last());
    }
}

/// Two characters that follow each other in a text.
pub open spec fn has_pair(s: Seq<char>, first: char, second: char) -> bool {
    exists|i: int| 0 <= i && i + 1 < s.len() && #[trigger] s[i] == first && s[i + 1] == second
}

/// A text with blanks in place of its characters, but for the line feeds.
pub open spec fn blanks_for(s: Seq<char>) -> Seq<char> {
    s.map_values(
        |c: char|
            if c == '\n' {
                '\n'
            } else {
                ' '
            },
    )
}

/// A comment is blanked from its opening to its closing mark, and nothing else is: what stands
/// before it stays, and what stands behind it is treated as if it stood alone.
pub proof fn law_comments_are_blanked(before: Seq<char>, comment: Seq<char>, rest: Seq<char>)
    requires
        !has_pair(before, '/', '*'),
        !has_pair(comment, '*', '/'),
    ensures
        without_comments(before) == before,
        without_comments(before + seq!['/', '*'] + comment + seq!['*', '/'] + rest) == before
            + seq![' ', ' '] + blanks_for(comment) + seq![' ', ' '] + without_comments(rest),
{
    let close = seq!['*', '/'] + rest;
    let open = seq!['/', '*'] + (comment + close);
    lemma_outside_comment(before, open);
    assert(before + seq!['/', '*'] + comment + seq!['*', '/'] + rest =~= before + open);
    assert(open.skip(2) =~= comment + close);
    lemma_inside_comment(comment, close);
    assert(close.skip(2) =~= rest);
    assert(before + seq![' ', ' '] + blanks_for(comment) + seq![' ', ' '] + without_comments(rest)
        =~= before + (seq![' ', ' '] + (blanks_for(comment) + (seq![' ', ' ']
        + without_comments(rest)))));
    lemma_outside_comment(before, Seq::empty());
    assert(before + Seq::<char>::empty() =~= before);
}

proof fn lemma_outside_comment(a: Seq<char>, t: Seq<char>)
    requires
        !has_pair(a, '/', '*'),
        t.len() > 0 ==> t[0] == '/',
    ensures
        blanked(a + t, false) == a + blanked(t, false),
    decreases a.len(),
{
    let s = a + t;
    if a.len() == 0 {
        assert(s =~= t);
        assert(a + blanked(t, false) =~= blanked(t, false));
    } else {
        if s.len() >= 2 && s[0] == '/' && s[1] == '*' {
            if a.len() >= 2 {
                assert(a[0] == '/' && a[0int + 1] == '*');
            }
        }
        assert(s.skip(1) =~= a.skip(1) + t);
        if has_pair(a.skip(1), '/', '*') {
            let i = choose|i: int|
                0 <= i && i + 1 < a.skip(1).len() && #[trigger] a.skip(1)[i] == '/' && a.skip(
                    1,
                )[i + 1] == '*';
            assert(a[i + 1] == '/' && a[i + 1 + 1] == '*');
        }
        lemma_outside_comment(a.skip(1), t);
        assert(seq![a[0]] + (a.skip(1) + blanked(t, false)) =~= a + blanked(t, false));
    }
}

proof fn lemma_inside_comment(c: Seq<char>, close: Seq<char>)
    requires
        !has_pair(c, '*', '/'),
        close.len() >= 2,
        close[0] == '*',
        close[1] == '/',
    ensures
        blanked(c + close, true) == blanks_for(c) + (seq![' ', ' '] + blanked(
            close.skip(2),
            false,
        )),
    decreases c.len(),
{
    let s = c + close;
    let end = seq![' ', ' '] + blanked(close.skip(2), false);
    if c.len() == 0 {
        assert(s =~= close);
        assert(blanks_for(c) + end =~= end);
    } else {
        if s[0] == '*' && s[1] == '/' {
            if c.len() >= 2 {
                assert(c[0] == '*' && c[0int + 1] == '/');
            }
        }
        assert(s.skip(1) =~= c.skip(1) + close);
        if has_pair(c.skip(1), '*', '/') {
            let i = choose|i: int|
                0 <= i && i + 1 < c.skip(1).len() && #[trigger] c.skip(1)[i] == '*' && c.skip(
                    1,
                )[i + 1] == '/';
            assert(c[i + 1] == '*' && c[i + 1 + 1] == '/');
        }
        lemma_inside_comment(c.skip(1), close);
        assert(blanks_for(c) =~= seq![
            if c[0] == '\n' {
                '\n'
            } else {
                ' '
            },
        ] + blanks_for(c.skip(1)));
        assert(blanked(s, true) =~= blanks_for(c) + end);
    }
}

/// Texts that are cut off: a rule whose block nothing closes is read up to the end of the text; a
/// string that nothing closes ends the reading where it stands before any block, and leaves no rules
/// to be read where it stands in one.
pub proof fn law_texts_that_are_cut_off(
    selector: Seq<char>,
    declarations: Seq<char>,
    quote: char,
    text: Seq<char>,
    base: int,
    media: Option<Seq<char>>,
    layer: Option<Seq<char>>,
)
    requires
        is_plain(selector),
        is_flat(declarations),
        trim(selector).len() > 0,
        trim(selector)[0] != '@',
        declarations.len() > 0,
        is_quote(quote),
        fits_in_string(text, quote),
    ensures
        ({
            let lead = selector.len() - trim_start(selector).len();
            rules_at_level(selector.push('{') + declarations, base, media, layer) == Some(
                seq![
                    RuleView {
                        selector: trim(selector),
                        properties: trim(declarations),
                        line: line_number(base + newlines(selector.take(lead))),
                        media_query: media,
                        layer,
                    },
                ],
            )
        }),
        rules_at_level(selector.push(quote) + text, base, media, layer) == Some(
            Seq::<RuleView>::empty(),
        ),
        rules_at_level(
            selector.push('{') + declarations.push(quote) + text,
            base,
            media,
            layer,
        ) is None,
{
    let n = selector.len() as int;
    let s = selector.push('{') + declarations;
    let e = s.len() as int;
    assert(s.take(n) =~= selector);
    lemma_rules_over_plain(s, 0, n, base, media, layer);
    assert(s[n] == '{');
    assert(s.subrange(0, n) =~= selector);
    assert forall|j: int| n + 1 <= j < e implies !is_quote(#[trigger] s[j]) && s[j] != '{' && s[j]
        != '}' by {
        assert(s[j] == declarations[j - (n + 1)]);
    }
    lemma_block_skips_flat(s, n + 1, e, 1);
    assert(s.subrange(n + 1, e) =~= declarations);
    lemma_trim(selector);
    let lead = n - trim_start(selector).len();
    assert(s.take(lead) =~= selector.take(lead));
    let t = selector.push(quote) + text;
    assert(t.take(n) =~= selector);
    lemma_rules_over_plain(t, 0, n, base, media, layer);
    assert(t[n] == quote);
    assert forall|j: int| n + 1 <= j < t.len() implies #[trigger] t[j] != quote && t[j] != '\\' by {
        assert(t[j] == text[j - (n + 1)]);
    }
    lemma_string_over(t, n + 1, t.len() as int, quote);
    let u = selector.push('{') + declarations.push(quote) + text;
    let q = n + 1 + declarations.len();
    assert(u.take(n) =~= selector);
    lemma_rules_over_plain(u, 0, n, base, media, layer);
    assert(u[n] == '{');
    assert(u.subrange(0, n) =~= selector);
    assert forall|j: int| n + 1 <= j < q implies !is_quote(#[trigger] u[j]) && u[j] != '{' && u[j]
        != '}' by {
        assert(u[j] == declarations[j - (n + 1)]);
    }
    lemma_block_skips_flat(u, n + 1, q, 1);
    assert(u[q] == quote);
    assert forall|j: int| q + 1 <= j < u.len() implies #[trigger] u[j] != quote && u[j] != '\\' by {
        assert(u[j] == text[j - (q + 1)]);
    }
    lemma_string_over(u, q + 1, u.len() as int, quote);
}

} // verus!
