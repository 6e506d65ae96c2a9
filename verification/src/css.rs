//! Style sheets: comments, rules, selectors and imports.

use crate::model::{
    add_definitions, clone_opt, opt_text, ClassInfo, ClassInfoView, ClassMap, ClassRows,
};
use crate::pattern::{is_marked_name, is_name_char, is_name_start, marked_names, Patterns};
use crate::table::{lemma_append_all_concat, lemma_row_of, row_of};
use crate::text::{
    chars_of, count_newlines, lemma_newlines_bound, lemma_newlines_concat, lemma_newlines_push,
    lemma_trim, line_number, newlines, skip_chars, starts_with, string_of, texts, to_line, trim,
    trim_start, trimmed, trimmed_text, white,
};
use vstd::prelude::*;
use vstd::slice::slice_subrange;

verus! {

/// A text with its comments blanked: each character of a comment becomes a space, except that line
/// feeds stay. `in_comment` tells whether the text begins inside a comment.
pub open spec fn blanked(s: Seq<char>, in_comment: bool) -> Seq<char>
    decreases s.len(),
{
    if s.len() == 0 {
        seq![]
    } else if in_comment && s.len() >= 2 && s[0] == '*' && s[1] == '/' {
        seq![' ', ' '] + blanked(s.skip(2), false)
    } else if in_comment {
        seq![
            if s[0] == '\n' {
                '\n'
            } else {
                ' '
            },
        ] + blanked(s.skip(1), true)
    } else if s.len() >= 2 && s[0] == '/' && s[1] == '*' {
        seq![' ', ' '] + blanked(s.skip(2), true)
    } else {
        seq![s[0]] + blanked(s.skip(1), false)
    }
}

/// A style sheet with its comments blanked.
pub open spec fn without_comments(s: Seq<char>) -> Seq<char> {
    blanked(s, false)
}

/// Blanks the comments of a style sheet; every other character keeps its place.
pub fn strip_comments(content: &str) -> (r: String)
    ensures
        r@ == without_comments(content@),
{
    let chars = chars_of(content);
    let n: usize = chars.len();
    let mut r = String::new();
    let mut in_comment = false;
    let mut i: usize = 0;
    proof {
        assert(chars@.skip(0) =~= chars@);
        assert(r@ + blanked(chars@, false) =~= blanked(chars@, false));
    }
    while i < n
        invariant
            i <= n,
            n == chars@.len(),
            r@ + blanked(chars@.skip(i as int), in_comment) == blanked(chars@, false),
        decreases n - i,
    {
        let ghost rest = chars@.skip(i as int);
        let ghost done = r@;
        let c = chars[i];
        if in_comment && c == '*' && i + 1 < n && chars[i + 1] == '/' {
            r.push(' ');
            r.push(' ');
            proof {
                assert(rest[1] == chars@[i + 1]);
                assert(rest.skip(2) =~= chars@.skip(i + 2));
                assert(r@ + blanked(chars@.skip(i + 2), false) =~= done + (seq![' ', ' ']
                    + blanked(chars@.skip(i + 2), false)));
            }
            in_comment = false;
            i = i + 2;
        } else if in_comment {
            let blank = if c == '\n' {
                '\n'
            } else {
                ' '
            };
            r.push(blank);
            proof {
                if rest.len() >= 2 {
                    assert(rest[1] == chars@[i + 1]);
                }
                assert(rest.skip(1) =~= chars@.skip(i + 1));
                assert(r@ + blanked(chars@.skip(i + 1), true) =~= done + (seq![blank] + blanked(
                    chars@.skip(i + 1),
                    true,
                )));
            }
            i = i + 1;
        } else if c == '/' && i + 1 < n && chars[i + 1] == '*' {
            r.push(' ');
            r.push(' ');
            proof {
                assert(rest[1] == chars@[i + 1]);
                assert(rest.skip(2) =~= chars@.skip(i + 2));
                assert(r@ + blanked(chars@.skip(i + 2), true) =~= done + (seq![' ', ' '] + blanked(
                    chars@.skip(i + 2),
                    true,
                )));
            }
            in_comment = true;
            i = i + 2;
        } else {
            r.push(c);
            proof {
                if rest.len() >= 2 {
                    assert(rest[1] == chars@[i + 1]);
                }
                assert(rest.skip(1) =~= chars@.skip(i + 1));
                assert(r@ + blanked(chars@.skip(i + 1), false) =~= done + (seq![c] + blanked(
                    chars@.skip(i + 1),
                    false,
                )));
            }
            i = i + 1;
        }
    }
    proof {
        assert(chars@.skip(n as int).len() == 0);
        assert(r@ + blanked(chars@.skip(n as int), in_comment) =~= r@);
    }
    r
}

proof fn lemma_blanked_line_feeds(s: Seq<char>, in_comment: bool)
    ensures
        blanked(s, in_comment).len() == s.len(),
        forall|i: int|
            0 <= i < s.len() ==> (#[trigger] blanked(s, in_comment)[i] == '\n') == (s[i] == '\n'),
        forall|i: int|
            0 <= i < s.len() ==> #[trigger] blanked(s, in_comment)[i] == s[i] || blanked(
                s,
                in_comment,
            )[i] == ' ',
    decreases s.len(),
{
    if s.len() > 0 {
        let two = s.len() >= 2 && ((in_comment && s[0] == '*' && s[1] == '/') || (!in_comment
            && s[0] == '/' && s[1] == '*'));
        let k = if two {
            2int
        } else {
            1int
        };
        let next = if two {
            !in_comment
        } else {
            in_comment
        };
        lemma_blanked_line_feeds(s.skip(k), next);
        let out = blanked(s, in_comment);
        assert forall|i: int| 0 <= i < s.len() implies (out[i] == '\n') == (s[i] == '\n') && (out[i]
            == s[i] || out[i] == ' ') by {
            if i >= k {
                assert(out[i] == blanked(s.skip(k), next)[i - k]);
                assert(s.skip(k)[i - k] == s[i]);
            }
        }
    }
}

/// Blanking comments keeps every position: the text has as many characters as before, its line
/// feeds are where they were, and a character is either kept or turned into a space.
pub proof fn law_comments_keep_positions(s: Seq<char>)
    ensures
        without_comments(s).len() == s.len(),
        forall|i: int|
            0 <= i < s.len() ==> (#[trigger] without_comments(s)[i] == '\n') == (s[i] == '\n'),
        forall|i: int|
            0 <= i < s.len() ==> #[trigger] without_comments(s)[i] == s[i] || without_comments(s)[i]
                == ' ',
{
    lemma_blanked_line_feeds(s, false);
}

/// Texts of equal length with line feeds at the same places have them in equal number.
proof fn lemma_newlines_same(a: Seq<char>, b: Seq<char>)
    requires
        a.len() == b.len(),
        forall|i: int| 0 <= i < a.len() ==> (#[trigger] a[i] == '\n') == (b[i] == '\n'),
    ensures
        newlines(a) == newlines(b),
    decreases a.len(),
{
    if a.len() > 0 {
        assert forall|i: int| 0 <= i < a.len() - 1 implies (#[trigger] a.drop_last()[i] == '\n')
            == (b.drop_last()[i] == '\n') by {
            assert(a[i] == a.drop_last()[i]);
        }
        assert((a[a.len() - 1] == '\n') == (b[a.len() - 1] == '\n'));
        lemma_newlines_same(a.drop_last(), b.drop_last());
    }
}

/// Blanking comments keeps line numbers: every prefix has as many line feeds as before.
pub proof fn law_comments_keep_line_numbers(s: Seq<char>, i: int)
    requires
        0 <= i <= s.len(),
    ensures
        newlines(without_comments(s).take(i)) == newlines(s.take(i)),
{
    law_comments_keep_positions(s);
    let t = without_comments(s);
    assert forall|j: int| 0 <= j < i implies (#[trigger] t.take(i)[j] == '\n') == (s.take(i)[j]
        == '\n') by {
        assert(t[j] == t.take(i)[j]);
    }
    lemma_newlines_same(t.take(i), s.take(i));
}

/// Whether the character opens a string.
pub open spec fn is_quote(c: char) -> bool {
    c == '"' || c == '\''
}

/// The index of the quote that closes a string whose content begins at `i`, or the length of the
/// text if nothing closes it. A backslash hides the character behind it.
pub open spec fn string_end(s: Seq<char>, i: int, quote: char) -> int
    decreases s.len() - i,
{
    if i >= s.len() {
        s.len() as int
    } else if s[i] == '\\' {
        if i + 1 >= s.len() {
            s.len() as int
        } else {
            string_end(s, i + 2, quote)
        }
    } else if s[i] == quote {
        i
    } else {
        string_end(s, i + 1, quote)
    }
}

pub proof fn lemma_string_end(s: Seq<char>, i: int, quote: char)
    requires
        0 <= i <= s.len(),
    ensures
        i <= string_end(s, i, quote) <= s.len(),
        string_end(s, i, quote) < s.len() ==> s[string_end(s, i, quote)] == quote,
    decreases s.len() - i,
{
    if i < s.len() {
        if s[i] == '\\' {
            if i + 1 < s.len() {
                lemma_string_end(s, i + 2, quote);
            }
        } else if s[i] != quote {
            lemma_string_end(s, i + 1, quote);
        }
    }
}

/// The index of the quote that closes a string, or the length of the text.
pub fn skip_string(chars: &[char], from: usize, quote: char) -> (r: usize)
    requires
        from <= chars@.len(),
    ensures
        r == string_end(chars@, from as int, quote),
        from <= r <= chars@.len(),
{
    let n: usize = chars.len();
    let mut i: usize = from;
    while i < n
        invariant
            from <= i <= n,
            n == chars@.len(),
            string_end(chars@, from as int, quote) == string_end(chars@, i as int, quote),
        decreases n - i,
    {
        if chars[i] == '\\' {
            if i + 1 >= n {
                return n;
            }
            i = i + 2;
        } else if chars[i] == quote {
            return i;
        } else {
            i = i + 1;
        }
    }
    n
}

/// Where a block ends whose content goes on at `i`, with `depth` braces open: at the brace that
/// closes it, or at the end of the text. A block has no end if a string in it is not closed.
pub open spec fn block_end(s: Seq<char>, i: int, depth: nat) -> Option<int>
    decreases s.len() - i,
{
    if i >= s.len() {
        Some(s.len() as int)
    } else if is_quote(s[i]) {
        let e = string_end(s, i + 1, s[i]);
        if i < e < s.len() {
            block_end(s, e + 1, depth)
        } else {
            None
        }
    } else if s[i] == '{' {
        block_end(s, i + 1, depth + 1)
    } else if s[i] == '}' {
        if depth <= 1 {
            Some(i)
        } else {
            block_end(s, i + 1, (depth - 1) as nat)
        }
    } else {
        block_end(s, i + 1, depth)
    }
}

pub proof fn lemma_block_end(s: Seq<char>, i: int, depth: nat)
    requires
        0 <= i <= s.len(),
    ensures
        block_end(s, i, depth) is Some ==> i <= block_end(s, i, depth)->0 <= s.len(),
    decreases s.len() - i,
{
    if i < s.len() {
        if is_quote(s[i]) {
            lemma_string_end(s, i + 1, s[i]);
            let e = string_end(s, i + 1, s[i]);
            if i < e < s.len() {
                lemma_block_end(s, e + 1, depth);
            }
        } else if s[i] == '{' {
            lemma_block_end(s, i + 1, depth + 1);
        } else if s[i] == '}' {
            if depth > 1 {
                lemma_block_end(s, i + 1, (depth - 1) as nat);
            }
        } else {
            lemma_block_end(s, i + 1, depth);
        }
    }
}

/// Where the block ends whose content begins at `from`.
pub fn advance_past_block(chars: &[char], from: usize) -> (r: Option<usize>)
    requires
        1 <= from <= chars@.len(),
    ensures
        r is Some == (block_end(chars@, from as int, 1) is Some),
        r is Some ==> r->0 == block_end(chars@, from as int, 1)->0 && from <= r->0
            <= chars@.len(),
{
    let n: usize = chars.len();
    let mut i: usize = from;
    let mut depth: usize = 1;
    proof {
        lemma_block_end(chars@, from as int, 1);
    }
    while i < n
        invariant
            1 <= from <= i <= n,
            n == chars@.len(),
            1 <= depth <= i - from + 1,
            block_end(chars@, from as int, 1) == block_end(chars@, i as int, depth as nat),
        decreases n - i,
    {
        let c = chars[i];
        if c == '"' || c == '\'' {
            let e: usize = skip_string(chars, i + 1, c);
            if e >= n {
                return None;
            }
            i = e + 1;
        } else if c == '{' {
            depth = depth + 1;
            i = i + 1;
        } else if c == '}' {
            if depth == 1 {
                return Some(i);
            }
            depth = depth - 1;
            i = i + 1;
        } else {
            i = i + 1;
        }
    }
    Some(n)
}

/// A style rule: its selector and declarations, the line on which the selector begins, and the
/// conditional group and layer it stands in.
pub struct Rule {
    pub selector: String,
    pub properties: String,
    pub line: u32,
    pub media_query: Option<String>,
    pub layer: Option<String>,
}

/// What a `Rule` says.
#[verifier::ext_equal]
pub ghost struct RuleView {
    pub selector: Seq<char>,
    pub properties: Seq<char>,
    pub line: u32,
    pub media_query: Option<Seq<char>>,
    pub layer: Option<Seq<char>>,
}

impl DeepView for Rule {
    type V = RuleView;

    open spec fn deep_view(&self) -> RuleView {
        RuleView {
            selector: self.selector@,
            properties: self.properties@,
            line: self.line,
            media_query: opt_text(self.media_query),
            layer: opt_text(self.layer),
        }
    }
}

/// The conditional group for what stands inside the at-rule `head`.
pub open spec fn inner_media(head: Seq<char>, outer: Option<Seq<char>>) -> Option<Seq<char>> {
    if "@media"@.is_prefix_of(head) || "@supports"@.is_prefix_of(head) {
        Some(head)
    } else {
        outer
    }
}

/// The layer for what stands inside the at-rule `head`.
pub open spec fn inner_layer(head: Seq<char>, outer: Option<Seq<char>>) -> Option<Seq<char>> {
    if "@layer"@.is_prefix_of(head) && trim(head.skip("@layer"@.len() as int)).len() > 0 {
        Some(trim(head.skip("@layer"@.len() as int)))
    } else {
        outer
    }
}

/// The rule that a selector chunk and its block make.
pub open spec fn style_rule(
    s: Seq<char>,
    chunk: int,
    open: int,
    close: int,
    base: int,
    media: Option<Seq<char>>,
    layer: Option<Seq<char>>,
) -> Seq<RuleView> {
    let raw = s.subrange(chunk, open);
    let lead = raw.len() - trim_start(raw).len();
    seq![
        RuleView {
            selector: trim(raw),
            properties: trim(s.subrange(open + 1, close)),
            line: line_number(base + newlines(s.take(chunk + lead))),
            media_query: media,
            layer,
        },
    ]
}

/// Rules found so far followed by the rest.
pub open spec fn join_rules(done: Seq<RuleView>, rest: Option<Seq<RuleView>>) -> Option<
    Seq<RuleView>,
> {
    match rest {
        Some(rest) => Some(done + rest),
        None => None,
    }
}

/// The rules of a text from `i` on, where the chunk that may become a selector begins at `chunk`
/// and the text begins on line `base`. At-rules are entered; their conditional group and layer
/// pass on to the rules inside. There is no list of rules if a string inside a block is not
/// closed.
pub open spec fn rules_from(
    s: Seq<char>,
    i: int,
    chunk: int,
    base: int,
    media: Option<Seq<char>>,
    layer: Option<Seq<char>>,
) -> Option<Seq<RuleView>>
    decreases s.len(), s.len() - i,
{
    if !(0 <= chunk <= i < s.len()) {
        Some(seq![])
    } else if is_quote(s[i]) {
        let e = string_end(s, i + 1, s[i]);
        if i < e < s.len() {
            rules_from(s, e + 1, chunk, base, media, layer)
        } else {
            Some(seq![])
        }
    } else if s[i] == ';' || s[i] == '}' {
        rules_from(s, i + 1, i + 1, base, media, layer)
    } else if s[i] == '{' {
        let head = trim(s.subrange(chunk, i));
        if head.len() == 0 {
            rules_from(s, i + 1, i + 1, base, media, layer)
        } else {
            match block_end(s, i + 1, 1) {
                None => None,
                Some(e) => if i < e <= s.len() {
                    let here = if head[0] == '@' {
                        rules_from(
                            s.subrange(i + 1, e),
                            0,
                            0,
                            base + newlines(s.take(i + 1)),
                            inner_media(head, media),
                            inner_layer(head, layer),
                        )
                    } else {
                        Some(style_rule(s, chunk, i, e, base, media, layer))
                    };
                    match here {
                        None => None,
                        Some(here) => if e < s.len() {
                            join_rules(here, rules_from(s, e + 1, e + 1, base, media, layer))
                        } else {
                            Some(here)
                        },
                    }
                } else {
                    None
                },
            }
        }
    } else {
        rules_from(s, i + 1, chunk, base, media, layer)
    }
}

/// The rules of a text without comments that begins on line `base`.
pub open spec fn rules_at_level(
    s: Seq<char>,
    base: int,
    media: Option<Seq<char>>,
    layer: Option<Seq<char>>,
) -> Option<Seq<RuleView>> {
    rules_from(s, 0, 0, base, media, layer)
}

/// The rules of a style sheet that begins on line `base`.
pub open spec fn css_rules(content: Seq<char>, base: int) -> Option<Seq<RuleView>> {
    rules_at_level(without_comments(content), base, None, None)
}

proof fn lemma_newlines_prefix(s: Seq<char>, k: int)
    requires
        0 <= k <= s.len(),
    ensures
        newlines(s.take(k)) <= newlines(s),
        newlines(s.skip(k)) == newlines(s) - newlines(s.take(k)),
{
    lemma_newlines_concat(s.take(k), s.skip(k));
    assert(s.take(k) + s.skip(k) =~= s);
}

/// Length of the white space that a chunk begins with.
pub fn leading_white(chars: &[char]) -> (r: usize)
    ensures
        r == chars@.len() - trim_start(chars@).len(),
        r <= chars@.len(),
{
    let n: usize = chars.len();
    let mut a: usize = 0;
    proof {
        assert(chars@.skip(0) =~= chars@);
    }
    while a < n && white(chars[a])
        invariant
            a <= n,
            n == chars@.len(),
            trim_start(chars@) == trim_start(chars@.skip(a as int)),
        decreases n - a,
    {
        proof {
            assert(chars@.skip(a as int).skip(1) =~= chars@.skip(a + 1));
        }
        a = a + 1;
    }
    a
}

/// Reads the rules of a text without comments that begins on line `base_line`.
pub fn parse_rules(
    chars: &[char],
    base_line: u128,
    media_query: &Option<String>,
    layer: &Option<String>,
) -> (r: Option<Vec<Rule>>)
    requires
        base_line + newlines(chars@) <= u128::MAX,
    ensures
        r is Some == (rules_at_level(
            chars@,
            base_line as int,
            opt_text(*media_query),
            opt_text(*layer),
        ) is Some),
        r is Some ==> (r->0).deep_view() == rules_at_level(
            chars@,
            base_line as int,
            opt_text(*media_query),
            opt_text(*layer),
        )->0,
    decreases chars@.len(),
{
    let n: usize = chars.len();
    let mut r: Vec<Rule> = Vec::new();
    let mut i: usize = 0;
    let mut chunk: usize = 0;
    let ghost s = chars@;
    let ghost base = base_line as int;
    let ghost mq = opt_text(*media_query);
    let ghost ly = opt_text(*layer);
    let ghost all = rules_at_level(s, base, mq, ly);
    proof {
        let rest = rules_from(s, 0, 0, base, mq, ly);
        assert(r.deep_view() =~= seq![]);
        if rest is Some {
            assert(r.deep_view() + rest->0 =~= rest->0);
        }
    }
    while i < n
        invariant
            chunk <= i <= n,
            n == chars@.len(),
            s == chars@,
            base == base_line,
            base_line + newlines(chars@) <= u128::MAX,
            mq == opt_text(*media_query),
            ly == opt_text(*layer),
            all == join_rules(r.deep_view(), rules_from(s, i as int, chunk as int, base, mq, ly)),
            all == rules_at_level(s, base, mq, ly),
        decreases n - i,
    {
        let c = chars[i];
        if c == '"' || c == '\'' {
            let e: usize = skip_string(chars, i + 1, c);
            if e >= n {
                i = n;
                proof {
                    assert(r.deep_view() + Seq::<RuleView>::empty() =~= r.deep_view());
                }
            } else {
                i = e + 1;
            }
        } else if c == ';' || c == '}' {
            i = i + 1;
            chunk = i;
        } else if c == '{' {
            let raw = slice_subrange(chars, chunk, i);
            let head = trimmed(raw);
            if head.len() == 0 {
                i = i + 1;
                chunk = i;
            } else {
                let e: usize = match advance_past_block(chars, i + 1) {
                    Some(e) => e,
                    None => {
                        return None;
                    },
                };
                let block = slice_subrange(chars, i + 1, e);
                let ghost before = r.deep_view();
                let ghost here = if head@[0] == '@' {
                    rules_from(
                        s.subrange(i + 1, e as int),
                        0,
                        0,
                        base + newlines(s.take(i + 1)),
                        inner_media(head@, mq),
                        inner_layer(head@, ly),
                    )
                } else {
                    Some(style_rule(s, chunk as int, i as int, e as int, base, mq, ly))
                };
                if head[0] == '@' {
                    let head_text = string_of(head);
                    let child_media = if starts_with(head_text.as_str(), "@media") || starts_with(
                        head_text.as_str(),
                        "@supports",
                    ) {
                        Some(head_text.clone())
                    } else {
                        clone_opt(media_query)
                    };
                    let child_layer = layer_inside(&head_text, layer);
                    proof {
                        lemma_newlines_prefix(s, i + 1);
                        lemma_newlines_prefix(s.skip(i + 1), e - (i + 1));
                        assert(s.skip(i + 1).take(e - (i + 1)) =~= block@);
                    }
                    let lines_before: usize = count_newlines(slice_subrange(chars, 0, i + 1));
                    proof {
                        assert(s.subrange(0, i + 1) =~= s.take(i + 1));
                    }
                    let block_base: u128 = base_line + lines_before as u128;
                    let inner = match parse_rules(block, block_base, &child_media, &child_layer) {
                        Some(inner) => inner,
                        None => {
                            return None;
                        },
                    };
                    proof {
                        assert(inner.deep_view() == here->0);
                    }
                    append_rules(&mut r, inner);
                    proof {
                        assert(r.deep_view() =~= before + here->0);
                    }
                } else {
                    let lead: usize = leading_white(raw);
                    let properties = trimmed(block);
                    proof {
                        lemma_newlines_prefix(s, chunk + lead);
                        assert(s.subrange(0, chunk + lead) =~= s.take(chunk + lead));
                    }
                    let lines_before: usize = count_newlines(
                        slice_subrange(chars, 0, chunk + lead),
                    );
                    let rule = Rule {
                        selector: string_of(head),
                        properties: string_of(properties),
                        line: to_line(base_line + lines_before as u128),
                        media_query: clone_opt(media_query),
                        layer: clone_opt(layer),
                    };
                    r.push(rule);
                    proof {
                        assert(r.deep_view() =~= before.push(rule.deep_view()));
                        assert(r.deep_view() =~= before + here->0);
                    }
                }
                proof {
                    if e < n {
                        let rest = rules_from(s, e + 1, e + 1, base, mq, ly);
                        if rest is Some {
                            assert(before + (here->0 + rest->0) =~= r.deep_view() + rest->0);
                        }
                    } else {
                        assert(r.deep_view() + Seq::<RuleView>::empty() =~= r.deep_view());
                    }
                }
                if e < n {
                    i = e + 1;
                } else {
                    i = n;
                }
                chunk = i;
            }
        } else {
            i = i + 1;
        }
    }
    proof {
        assert(r.deep_view() + Seq::<RuleView>::empty() =~= r.deep_view());
    }
    Some(r)
}

/// The layer for what stands inside the at-rule `head`.
fn layer_inside(head: &String, outer: &Option<String>) -> (r: Option<String>)
    ensures
        opt_text(r) == inner_layer(head@, opt_text(*outer)),
{
    if starts_with(head.as_str(), "@layer") {
        let chars = chars_of(head.as_str());
        proof {
            reveal_strlit("@layer");
        }
        let rest = slice_subrange(chars.as_slice(), 6, chars.len());
        proof {
            assert(rest@ =~= head@.skip(6));
        }
        let name = trimmed(rest);
        if name.len() > 0 {
            return Some(string_of(name));
        }
    }
    clone_opt(outer)
}

/// Moves the rules of `more` behind those of `rules`.
fn append_rules(rules: &mut Vec<Rule>, more: Vec<Rule>)
    ensures
        final(rules).deep_view() == old(rules).deep_view() + more.deep_view(),
{
    let mut more = more;
    let ghost before = rules.deep_view();
    let ghost tail = more.deep_view();
    rules.append(&mut more);
    proof {
        assert(rules.deep_view() =~= before + tail);
    }
}

/// The definition that a rule makes of each name in its selector.
pub open spec fn rule_info(
    rule: RuleView,
    source_file: Seq<char>,
    source_path: Seq<char>,
) -> ClassInfoView {
    ClassInfoView {
        properties: rule.properties,
        selector: trim(rule.selector),
        media_query: rule.media_query,
        layer: rule.layer,
        source_file,
        source_path,
        definition_line: rule.line,
    }
}

/// The names under which a selector is filed, given its class and identifier tokens: the classes
/// without their dot, then the identifiers with their `#`.
pub open spec fn filed_names(classes: Seq<Seq<char>>, ids: Seq<Seq<char>>) -> Seq<Seq<char>> {
    classes.map_values(|t: Seq<char>| t.skip(1)) + ids
}

/// The names in a selector.
pub open spec fn selector_names(selector: Seq<char>) -> Seq<Seq<char>> {
    filed_names(marked_names(selector, '.'), marked_names(selector, '#'))
}

/// One definition for each of several names.
pub open spec fn define_each(names: Seq<Seq<char>>, info: ClassInfoView) -> Seq<
    (Seq<char>, ClassInfoView),
> {
    names.map_values(|n: Seq<char>| (n, info))
}

/// The definitions that a list of rules makes, in order.
pub open spec fn rule_definitions(
    rules: Seq<RuleView>,
    source_file: Seq<char>,
    source_path: Seq<char>,
) -> Seq<(Seq<char>, ClassInfoView)>
    decreases rules.len(),
{
    if rules.len() == 0 {
        seq![]
    } else {
        rule_definitions(rules.drop_last(), source_file, source_path) + define_each(
            selector_names(rules.last().selector),
            rule_info(rules.last(), source_file, source_path),
        )
    }
}

/// The rules of a list as a class map keeps them.
pub open spec fn rule_infos(
    rules: Seq<RuleView>,
    source_file: Seq<char>,
    source_path: Seq<char>,
) -> Seq<ClassInfoView> {
    rules.map_values(|rule: RuleView| rule_info(rule, source_file, source_path))
}

/// The rules of a style sheet that begins on line `base`, as a class map keeps them.
pub open spec fn css_rule_infos(
    content: Seq<char>,
    base: int,
    source_file: Seq<char>,
    source_path: Seq<char>,
) -> Seq<ClassInfoView> {
    rule_infos(css_rules(content, base)->0, source_file, source_path)
}

/// The definitions in a style sheet that begins on line `base`.
pub open spec fn css_definitions(
    content: Seq<char>,
    base: int,
    source_file: Seq<char>,
    source_path: Seq<char>,
) -> Seq<(Seq<char>, ClassInfoView)> {
    rule_definitions(css_rules(content, base)->0, source_file, source_path)
}

/// A name as it is filed: a class without its dot, or an identifier with its `#`.
pub open spec fn is_filed_name(name: Seq<char>) -> bool {
    ||| is_marked_name(name, '#')
    ||| {
        &&& name.len() > 0
        &&& is_name_start(name[0])
        &&& forall|i: int| 0 <= i < name.len() ==> is_name_char(#[trigger] name[i])
    }
}

/// A class map files names only.
pub open spec fn only_names(rows: ClassRows) -> bool {
    forall|i: int| 0 <= i < rows.len() ==> is_filed_name((#[trigger] rows[i]).0)
}

proof fn lemma_only_names(rows: ClassRows, names: Seq<Seq<char>>, info: ClassInfoView)
    requires
        only_names(rows),
        forall|i: int| 0 <= i < names.len() ==> is_filed_name(#[trigger] names[i]),
    ensures
        only_names(add_definitions(rows, define_each(names, info))),
    decreases names.len(),
{
    let added = define_each(names, info);
    if names.len() > 0 {
        let head = names.drop_last();
        assert forall|i: int| 0 <= i < head.len() implies is_filed_name(#[trigger] head[i]) by {
            assert(names[i] == head[i]);
        }
        lemma_only_names(rows, head, info);
        assert(added.drop_last() =~= define_each(head, info));
        let mid = add_definitions(rows, define_each(head, info));
        lemma_row_of(mid, added.last().0);
        let after = add_definitions(rows, added);
        assert(is_filed_name(names[names.len() - 1]));
        assert forall|i: int| 0 <= i < after.len() implies is_filed_name(
            (#[trigger] after[i]).0,
        ) by {
            if i < mid.len() && i != row_of(mid, added.last().0) {
                assert(after[i] == mid[i]);
            }
        }
    }
}

proof fn lemma_filed_names_ok(classes: Seq<Seq<char>>, ids: Seq<Seq<char>>)
    requires
        forall|i: int| 0 <= i < classes.len() ==> is_marked_name(#[trigger] classes[i], '.'),
        forall|i: int| 0 <= i < ids.len() ==> is_marked_name(#[trigger] ids[i], '#'),
    ensures
        forall|i: int|
            0 <= i < filed_names(classes, ids).len() ==> is_filed_name(
                #[trigger] filed_names(classes, ids)[i],
            ),
{
    let all = filed_names(classes, ids);
    assert forall|i: int| 0 <= i < all.len() implies is_filed_name(#[trigger] all[i]) by {
        if i < classes.len() {
            let t = classes[i];
            assert(is_marked_name(t, '.'));
            assert(all[i] == t.skip(1));
            assert forall|j: int| 0 <= j < all[i].len() implies is_name_char(
                #[trigger] all[i][j],
            ) by {
                assert(all[i][j] == t[j + 1]);
            }
        } else {
            assert(all[i] == ids[i - classes.len()]);
        }
    }
}

/// Files a definition under each name of a list, the first `skip` characters of each left out.
fn file_each(names: &Vec<String>, skip: usize, info: &ClassInfo, class_map: &mut ClassMap)
    requires
        forall|i: int| 0 <= i < names@.len() ==> skip <= (#[trigger] names@[i])@.len(),
    ensures
        final(class_map)@ == add_definitions(
            old(class_map)@,
            define_each(
                texts(names@).map_values(|t: Seq<char>| t.skip(skip as int)),
                info.deep_view(),
            ),
        ),
        final(class_map).rules() == old(class_map).rules(),
{
    let n: usize = names.len();
    let mut i: usize = 0;
    let ghost all = define_each(
        texts(names@).map_values(|t: Seq<char>| t.skip(skip as int)),
        info.deep_view(),
    );
    while i < n
        invariant
            i <= n,
            n == names@.len(),
            all == define_each(
                texts(names@).map_values(|t: Seq<char>| t.skip(skip as int)),
                info.deep_view(),
            ),
            forall|i: int| 0 <= i < names@.len() ==> skip <= (#[trigger] names@[i])@.len(),
            class_map@ == add_definitions(old(class_map)@, all.take(i as int)),
            class_map.rules() == old(class_map).rules(),
        decreases n - i,
    {
        let name = skip_chars(names[i].as_str(), skip);
        class_map.append(name, info.clone());
        proof {
            assert(all.take(i + 1).drop_last() =~= all.take(i as int));
            assert(all.take(i + 1).last() == (name@, info.deep_view()));
        }
        i = i + 1;
    }
    proof {
        assert(all.take(n as int) =~= all);
    }
}

/// Adds a rule and files it under the names in its selector, given the class and identifier tokens
/// in it.
pub fn file_rule(
    classes: &Vec<String>,
    ids: &Vec<String>,
    rule: &Rule,
    source_file: &str,
    source_path: &str,
    class_map: &mut ClassMap,
)
    requires
        forall|i: int|
            0 <= i < classes@.len() ==> is_marked_name((#[trigger] classes@[i])@, '.'),
        forall|i: int| 0 <= i < ids@.len() ==> is_marked_name((#[trigger] ids@[i])@, '#'),
    ensures
        only_names(old(class_map)@) ==> only_names(final(class_map)@),
        final(class_map)@ == add_definitions(
            old(class_map)@,
            define_each(
                filed_names(texts(classes@), texts(ids@)),
                rule_info(rule.deep_view(), source_file@, source_path@),
            ),
        ),
        final(class_map).rules() == old(class_map).rules().push(
            rule_info(rule.deep_view(), source_file@, source_path@),
        ),
{
    let info = ClassInfo {
        properties: rule.properties.clone(),
        selector: trimmed_text(rule.selector.as_str()),
        media_query: clone_opt(&rule.media_query),
        layer: clone_opt(&rule.layer),
        source_file: source_file.to_owned(),
        source_path: source_path.to_owned(),
        definition_line: rule.line,
    };
    file_each(classes, 1, &info, class_map);
    file_each(ids, 0, &info, class_map);
    class_map.add_rule(info.clone());
    proof {
        let view = info.deep_view();
        assert(view == rule_info(rule.deep_view(), source_file@, source_path@));
        let a = define_each(texts(classes@).map_values(|t: Seq<char>| t.skip(1)), view);
        let b = define_each(texts(ids@).map_values(|t: Seq<char>| t.skip(0)), view);
        assert(texts(ids@).map_values(|t: Seq<char>| t.skip(0)) =~= texts(ids@)) by {
            assert forall|i: int| 0 <= i < ids@.len() implies (#[trigger] texts(ids@)[i]).skip(0)
                == texts(ids@)[i] by {
                assert(texts(ids@)[i].skip(0) =~= texts(ids@)[i]);
            }
        }
        lemma_append_all_concat(old(class_map)@, a, b);
        assert(a + b =~= define_each(filed_names(texts(classes@), texts(ids@)), view));
        assert forall|i: int| 0 <= i < classes@.len() implies is_marked_name(
            #[trigger] texts(classes@)[i],
            '.',
        ) by {
            assert(is_marked_name(classes@[i]@, '.'));
        }
        assert forall|i: int| 0 <= i < ids@.len() implies is_marked_name(
            #[trigger] texts(ids@)[i],
            '#',
        ) by {
            assert(is_marked_name(ids@[i]@, '#'));
        }
        lemma_filed_names_ok(texts(classes@), texts(ids@));
        if only_names(old(class_map)@) {
            lemma_only_names(old(class_map)@, filed_names(texts(classes@), texts(ids@)), view);
        }
    }
}

/// Adds a rule and files it under every class and identifier in its selector. Names inside `:is()`,
/// `:has()`, `:where()` and `:not()` count too.
pub fn process_selector(
    patterns: &Patterns,
    rule: &Rule,
    source_file: &str,
    source_path: &str,
    class_map: &mut ClassMap,
)
    ensures
        only_names(old(class_map)@) ==> only_names(final(class_map)@),
        final(class_map)@ == add_definitions(
            old(class_map)@,
            define_each(
                selector_names(rule.selector@),
                rule_info(rule.deep_view(), source_file@, source_path@),
            ),
        ),
        final(class_map).rules() == old(class_map).rules().push(
            rule_info(rule.deep_view(), source_file@, source_path@),
        ),
{
    let classes = patterns.class_re().find_all(rule.selector.as_str());
    let ids = patterns.id_re().find_all(rule.selector.as_str());
    file_rule(&classes, &ids, rule, source_file, source_path, class_map);
}

/// Files the rules of a text without comments that begins on line `base_line`.
pub fn parse_rules_at_level(
    patterns: &Patterns,
    content: &str,
    base_line: u32,
    media_query: &Option<String>,
    layer: &Option<String>,
    source_file: &str,
    source_path: &str,
    class_map: &mut ClassMap,
)
    requires
        rules_at_level(
            content@,
            base_line as int,
            opt_text(*media_query),
            opt_text(*layer),
        ) is Some,
    ensures
        only_names(old(class_map)@) ==> only_names(final(class_map)@),
        final(class_map)@ == add_definitions(
            old(class_map)@,
            rule_definitions(
                rules_at_level(
                    content@,
                    base_line as int,
                    opt_text(*media_query),
                    opt_text(*layer),
                )->0,
                source_file@,
                source_path@,
            ),
        ),
        final(class_map).rules() == old(class_map).rules() + rule_infos(
            rules_at_level(
                content@,
                base_line as int,
                opt_text(*media_query),
                opt_text(*layer),
            )->0,
            source_file@,
            source_path@,
        ),
{
    let chars = chars_of(content);
    proof {
        lemma_newlines_bound(chars@);
    }
    let rules = match parse_rules(chars.as_slice(), base_line as u128, media_query, layer) {
        Some(rules) => rules,
        None => {
            return ;
        },
    };
    let n: usize = rules.len();
    let mut i: usize = 0;
    let ghost all = rules.deep_view();
    let ghost infos = rule_infos(all, source_file@, source_path@);
    proof {
        assert(old(class_map).rules() + infos.take(0) =~= old(class_map).rules());
    }
    while i < n
        invariant
            i <= n,
            n == rules@.len(),
            all == rules.deep_view(),
            infos == rule_infos(all, source_file@, source_path@),
            class_map.rules() == old(class_map).rules() + infos.take(i as int),
            only_names(old(class_map)@) ==> only_names(class_map@),
            class_map@ == add_definitions(
                old(class_map)@,
                rule_definitions(all.take(i as int), source_file@, source_path@),
            ),
        decreases n - i,
    {
        process_selector(patterns, &rules[i], source_file, source_path, class_map);
        proof {
            assert(all.take(i + 1).drop_last() =~= all.take(i as int));
            assert(all.take(i + 1).last() == rules@[i as int].deep_view());
            assert(class_map.rules() =~= old(class_map).rules() + infos.take(i + 1));
            lemma_append_all_concat(
                old(class_map)@,
                rule_definitions(all.take(i as int), source_file@, source_path@),
                define_each(
                    selector_names(all[i as int].selector),
                    rule_info(all[i as int], source_file@, source_path@),
                ),
            );
        }
        i = i + 1;
    }
    proof {
        assert(all.take(n as int) =~= all);
        assert(infos.take(n as int) =~= infos);
    }
}

/// Files the rules of a style sheet that begins on line `base_line`.
pub fn parse_css_content(
    patterns: &Patterns,
    content: &str,
    base_line: u32,
    source_file: &str,
    source_path: &str,
    class_map: &mut ClassMap,
)
    requires
        css_rules(content@, base_line as int) is Some,
    ensures
        only_names(old(class_map)@) ==> only_names(final(class_map)@),
        final(class_map)@ == add_definitions(
            old(class_map)@,
            css_definitions(content@, base_line as int, source_file@, source_path@),
        ),
        final(class_map).rules() == old(class_map).rules() + css_rule_infos(
            content@,
            base_line as int,
            source_file@,
            source_path@,
        ),
{
    let stripped = strip_comments(content);
    parse_rules_at_level(
        patterns,
        stripped.as_str(),
        base_line,
        &None,
        &None,
        source_file,
        source_path,
        class_map,
    );
}

/// A rule whose selector stands in the text at a place on the rule's line.
pub open spec fn stands_on_its_line(s: Seq<char>, base: int, rule: RuleView) -> bool {
    exists|p: int| #[trigger] stands_at_place(s, base, rule, p)
}

/// A rule whose selector stands in the text at `p`, which is on the rule's line.
pub open spec fn stands_at_place(s: Seq<char>, base: int, rule: RuleView, p: int) -> bool {
    &&& 0 <= p
    &&& p + rule.selector.len() <= s.len()
    &&& rule.selector.len() > 0
    &&& s.subrange(p, p + rule.selector.len()) == rule.selector
    &&& rule.line == line_number(base + newlines(s.take(p)))
}

/// The rules of a list all stand on their lines.
pub open spec fn all_stand_on_their_lines(
    s: Seq<char>,
    base: int,
    rules: Seq<RuleView>,
) -> bool {
    forall|i: int| 0 <= i < rules.len() ==> stands_on_its_line(s, base, #[trigger] rules[i])
}

proof fn lemma_style_rule_line(
    s: Seq<char>,
    chunk: int,
    open: int,
    close: int,
    base: int,
    media: Option<Seq<char>>,
    layer: Option<Seq<char>>,
)
    requires
        0 <= chunk <= open < close <= s.len(),
        trim(s.subrange(chunk, open)).len() > 0,
    ensures
        all_stand_on_their_lines(
            s,
            base,
            style_rule(s, chunk, open, close, base, media, layer),
        ),
{
    let raw = s.subrange(chunk, open);
    let lead = raw.len() - trim_start(raw).len();
    lemma_trim(raw);
    let rules = style_rule(s, chunk, open, close, base, media, layer);
    assert forall|i: int| 0 <= i < rules.len() implies stands_on_its_line(
        s,
        base,
        #[trigger] rules[i],
    ) by {
        let p = chunk + lead;
        let n = trim(raw).len();
        assert(s.subrange(p, p + n) =~= raw.subrange(lead, lead + n));
        assert(stands_at_place(s, base, rules[i], p));
    }
}

proof fn lemma_inner_lines(s: Seq<char>, from: int, to: int, base: int, rules: Seq<RuleView>)
    requires
        0 <= from <= to <= s.len(),
        all_stand_on_their_lines(s.subrange(from, to), base + newlines(s.take(from)), rules),
    ensures
        all_stand_on_their_lines(s, base, rules),
{
    let block = s.subrange(from, to);
    let inner = base + newlines(s.take(from));
    assert forall|i: int| 0 <= i < rules.len() implies stands_on_its_line(
        s,
        base,
        #[trigger] rules[i],
    ) by {
        assert(stands_on_its_line(block, inner, rules[i]));
        let p = choose|p: int| #[trigger] stands_at_place(block, inner, rules[i], p);
        let n = rules[i].selector.len();
        assert(s.subrange(from + p, from + p + n) =~= block.subrange(p, p + n));
        lemma_newlines_concat(s.take(from), block.take(p));
        assert(s.take(from) + block.take(p) =~= s.take(from + p));
        assert(stands_at_place(s, base, rules[i], from + p));
    }
}

proof fn lemma_rules_stand_on_their_lines(
    s: Seq<char>,
    i: int,
    chunk: int,
    base: int,
    media: Option<Seq<char>>,
    layer: Option<Seq<char>>,
)
    ensures
        rules_from(s, i, chunk, base, media, layer) is Some ==> all_stand_on_their_lines(
            s,
            base,
            rules_from(s, i, chunk, base, media, layer)->0,
        ),
    decreases s.len(), s.len() - i,
{
    if 0 <= chunk <= i < s.len() {
        if is_quote(s[i]) {
            let e = string_end(s, i + 1, s[i]);
            if i < e < s.len() {
                lemma_rules_stand_on_their_lines(s, e + 1, chunk, base, media, layer);
            }
        } else if s[i] == ';' || s[i] == '}' {
            lemma_rules_stand_on_their_lines(s, i + 1, i + 1, base, media, layer);
        } else if s[i] == '{' {
            let head = trim(s.subrange(chunk, i));
            if head.len() == 0 {
                lemma_rules_stand_on_their_lines(s, i + 1, i + 1, base, media, layer);
            } else if block_end(s, i + 1, 1) is Some {
                let e = block_end(s, i + 1, 1)->0;
                if i < e <= s.len() {
                    if head[0] == '@' {
                        let inner = base + newlines(s.take(i + 1));
                        let block = s.subrange(i + 1, e);
                        let m = inner_media(head, media);
                        let l = inner_layer(head, layer);
                        lemma_rules_stand_on_their_lines(block, 0, 0, inner, m, l);
                        if rules_from(block, 0, 0, inner, m, l) is Some {
                            lemma_inner_lines(
                                s,
                                i + 1,
                                e,
                                base,
                                rules_from(block, 0, 0, inner, m, l)->0,
                            );
                        }
                    } else {
                        lemma_style_rule_line(s, chunk, i, e, base, media, layer);
                    }
                    if e < s.len() {
                        lemma_rules_stand_on_their_lines(s, e + 1, e + 1, base, media, layer);
                    }
                }
            }
        } else {
            lemma_rules_stand_on_their_lines(s, i + 1, chunk, base, media, layer);
        }
    }
}

/// A rule whose selector stands in a style sheet, comments blanked, at a place with as many line
/// feeds before it in the style sheet as the rule's line says.
pub open spec fn line_is_right(content: Seq<char>, base: int, rule: RuleView) -> bool {
    exists|p: int| #[trigger]
        stands_at_place(without_comments(content), base, rule, p) && rule.line == line_number(
            base + newlines(content.take(p)),
        )
}

/// The line of every rule of a style sheet is the one on which its selector begins, also inside
/// at-rules and behind comments.
pub proof fn law_rules_stand_on_their_lines(content: Seq<char>, base: int)
    requires
        css_rules(content, base) is Some,
    ensures
        forall|i: int|
            0 <= i < (css_rules(content, base)->0).len() ==> line_is_right(
                content,
                base,
                #[trigger] (css_rules(content, base)->0)[i],
            ),
{
    let s = without_comments(content);
    let rules = css_rules(content, base)->0;
    lemma_rules_stand_on_their_lines(s, 0, 0, base, None, None);
    law_comments_keep_positions(content);
    assert forall|i: int| 0 <= i < rules.len() implies line_is_right(
        content,
        base,
        #[trigger] rules[i],
    ) by {
        assert(stands_on_its_line(s, base, rules[i]));
        let p = choose|p: int| #[trigger] stands_at_place(s, base, rules[i], p);
        law_comments_keep_line_numbers(content, p);
    }
}

/// Whether a text has a list of rules does not depend on the line it begins on nor on what it stands
/// in.
proof fn lemma_rules_independent(
    s: Seq<char>,
    i: int,
    chunk: int,
    base1: int,
    media1: Option<Seq<char>>,
    layer1: Option<Seq<char>>,
    base2: int,
    media2: Option<Seq<char>>,
    layer2: Option<Seq<char>>,
)
    ensures
        rules_from(s, i, chunk, base1, media1, layer1) is Some == (rules_from(
            s,
            i,
            chunk,
            base2,
            media2,
            layer2,
        ) is Some),
    decreases s.len(), s.len() - i,
{
    if 0 <= chunk <= i < s.len() {
        if is_quote(s[i]) {
            let e = string_end(s, i + 1, s[i]);
            if i < e < s.len() {
                lemma_rules_independent(
                    s,
                    e + 1,
                    chunk,
                    base1,
                    media1,
                    layer1,
                    base2,
                    media2,
                    layer2,
                );
            }
        } else if s[i] == ';' || s[i] == '}' {
            lemma_rules_independent(
                s,
                i + 1,
                i + 1,
                base1,
                media1,
                layer1,
                base2,
                media2,
                layer2,
            );
        } else if s[i] == '{' {
            let head = trim(s.subrange(chunk, i));
            if head.len() == 0 {
                lemma_rules_independent(
                    s,
                    i + 1,
                    i + 1,
                    base1,
                    media1,
                    layer1,
                    base2,
                    media2,
                    layer2,
                );
            } else if block_end(s, i + 1, 1) is Some {
                let e = block_end(s, i + 1, 1)->0;
                if i < e <= s.len() {
                    if head[0] == '@' {
                        let lines = newlines(s.take(i + 1));
                        lemma_rules_independent(
                            s.subrange(i + 1, e),
                            0,
                            0,
                            base1 + lines,
                            inner_media(head, media1),
                            inner_layer(head, layer1),
                            base2 + lines,
                            inner_media(head, media2),
                            inner_layer(head, layer2),
                        );
                    }
                    if e < s.len() {
                        lemma_rules_independent(
                            s,
                            e + 1,
                            e + 1,
                            base1,
                            media1,
                            layer1,
                            base2,
                            media2,
                            layer2,
                        );
                    }
                }
            }
        } else {
            lemma_rules_independent(
                s,
                i + 1,
                chunk,
                base1,
                media1,
                layer1,
                base2,
                media2,
                layer2,
            );
        }
    }
}

/// Whether a style sheet can be read does not depend on the line it begins on.
pub proof fn lemma_css_rules_base(content: Seq<char>, base1: int, base2: int)
    ensures
        css_rules(content, base1) is Some == (css_rules(content, base2) is Some),
{
    lemma_rules_independent(
        without_comments(content),
        0,
        0,
        base1,
        None,
        None,
        base2,
        None,
        None,
    );
}

/// Whether every block of a style sheet has an end, so that its rules can be read.
pub fn blocks_closed(content: &str) -> (r: bool)
    ensures
        r == (css_rules(content@, 0) is Some),
{
    let stripped = strip_comments(content);
    let chars = chars_of(stripped.as_str());
    proof {
        lemma_newlines_bound(chars@);
    }
    parse_rules(chars.as_slice(), 0, &None, &None).is_some()
}

pub proof fn lemma_string_end_behind(s: Seq<char>, p: int, i: int, quote: char)
    requires
        0 <= p <= i <= s.len(),
    ensures
        string_end(s.skip(p), i - p, quote) + p == string_end(s, i, quote),
    decreases s.len() - i,
{
    if i < s.len() {
        assert(s.skip(p)[i - p] == s[i]);
        if s[i] == '\\' {
            if i + 1 < s.len() {
                lemma_string_end_behind(s, p, i + 2, quote);
            }
        } else if s[i] != quote {
            lemma_string_end_behind(s, p, i + 1, quote);
        }
    }
}

pub proof fn lemma_block_end_behind(s: Seq<char>, p: int, i: int, depth: nat)
    requires
        0 <= p <= i <= s.len(),
    ensures
        block_end(s, i, depth) == (match block_end(s.skip(p), i - p, depth) {
            Some(e) => Some(e + p),
            None => None,
        }),
    decreases s.len() - i,
{
    if i < s.len() {
        assert(s.skip(p)[i - p] == s[i]);
        if is_quote(s[i]) {
            lemma_string_end(s, i + 1, s[i]);
            lemma_string_end_behind(s, p, i + 1, s[i]);
            let e = string_end(s, i + 1, s[i]);
            if i < e < s.len() {
                lemma_block_end_behind(s, p, e + 1, depth);
            }
        } else if s[i] == '{' {
            lemma_block_end_behind(s, p, i + 1, depth + 1);
        } else if s[i] == '}' {
            if depth > 1 {
                lemma_block_end_behind(s, p, i + 1, (depth - 1) as nat);
            }
        } else {
            lemma_block_end_behind(s, p, i + 1, depth);
        }
    }
}

proof fn lemma_newlines_behind(s: Seq<char>, p: int, k: int)
    requires
        0 <= p <= k <= s.len(),
    ensures
        newlines(s.take(k)) == newlines(s.take(p)) + newlines(s.skip(p).take(k - p)),
{
    lemma_newlines_concat(s.take(p), s.skip(p).take(k - p));
    assert(s.take(p) + s.skip(p).take(k - p) =~= s.take(k));
}

proof fn lemma_style_rule_behind(
    s: Seq<char>,
    p: int,
    chunk: int,
    open: int,
    close: int,
    base: int,
    media: Option<Seq<char>>,
    layer: Option<Seq<char>>,
)
    requires
        0 <= p <= chunk <= open < close <= s.len(),
    ensures
        style_rule(s, chunk, open, close, base, media, layer) == style_rule(
            s.skip(p),
            chunk - p,
            open - p,
            close - p,
            base + newlines(s.take(p)),
            media,
            layer,
        ),
{
    let t = s.skip(p);
    let raw = s.subrange(chunk, open);
    assert(raw =~= t.subrange(chunk - p, open - p));
    assert(s.subrange(open + 1, close) =~= t.subrange(open + 1 - p, close - p));
    lemma_trim(raw);
    let lead = raw.len() - trim_start(raw).len();
    lemma_newlines_behind(s, p, chunk + lead);
}

/// The rules behind a place do not depend on what stands before it, except for their lines.
pub proof fn lemma_rules_behind(
    s: Seq<char>,
    p: int,
    i: int,
    chunk: int,
    base: int,
    media: Option<Seq<char>>,
    layer: Option<Seq<char>>,
)
    requires
        0 <= p <= chunk <= i <= s.len(),
    ensures
        rules_from(s, i, chunk, base, media, layer) == rules_from(
            s.skip(p),
            i - p,
            chunk - p,
            base + newlines(s.take(p)),
            media,
            layer,
        ),
    decreases s.len() - i,
{
    let t = s.skip(p);
    let lines = newlines(s.take(p));
    if i < s.len() {
        assert(t[i - p] == s[i]);
        if is_quote(s[i]) {
            lemma_string_end(s, i + 1, s[i]);
            lemma_string_end_behind(s, p, i + 1, s[i]);
            let e = string_end(s, i + 1, s[i]);
            if i < e < s.len() {
                lemma_rules_behind(s, p, e + 1, chunk, base, media, layer);
            }
        } else if s[i] == ';' || s[i] == '}' {
            lemma_rules_behind(s, p, i + 1, i + 1, base, media, layer);
        } else if s[i] == '{' {
            assert(s.subrange(chunk, i) =~= t.subrange(chunk - p, i - p));
            let head = trim(s.subrange(chunk, i));
            if head.len() == 0 {
                lemma_rules_behind(s, p, i + 1, i + 1, base, media, layer);
            } else {
                lemma_block_end_behind(s, p, i + 1, 1);
                lemma_block_end(s, i + 1, 1);
                if block_end(s, i + 1, 1) is Some {
                    let e = block_end(s, i + 1, 1)->0;
                    assert(s.subrange(i + 1, e) =~= t.subrange(i + 1 - p, e - p));
                    lemma_newlines_behind(s, p, i + 1);
                    if head[0] != '@' {
                        lemma_style_rule_behind(s, p, chunk, i, e, base, media, layer);
                    }
                    if e < s.len() {
                        lemma_rules_behind(s, p, e + 1, e + 1, base, media, layer);
                    }
                }
            }
        } else {
            lemma_rules_behind(s, p, i + 1, chunk, base, media, layer);
        }
    }
}

/// A text without quotes, braces and semicolons.
pub open spec fn is_plain(s: Seq<char>) -> bool {
    forall|i: int|
        0 <= i < s.len() ==> !is_quote(#[trigger] s[i]) && s[i] != '{' && s[i] != '}' && s[i]
            != ';'
}

/// A text without quotes and braces.
pub open spec fn is_flat(s: Seq<char>) -> bool {
    forall|i: int|
        0 <= i < s.len() ==> !is_quote(#[trigger] s[i]) && s[i] != '{' && s[i] != '}'
}

pub proof fn lemma_rules_over_plain(
    s: Seq<char>,
    i: int,
    n: int,
    base: int,
    media: Option<Seq<char>>,
    layer: Option<Seq<char>>,
)
    requires
        0 <= i <= n < s.len(),
        is_plain(s.take(n)),
    ensures
        rules_from(s, i, 0, base, media, layer) == rules_from(s, n, 0, base, media, layer),
    decreases n - i,
{
    if i < n {
        assert(s.take(n)[i] == s[i]);
        lemma_rules_over_plain(s, i + 1, n, base, media, layer);
    }
}

pub proof fn lemma_block_over_flat(s: Seq<char>, i: int, n: int)
    requires
        0 <= i <= n < s.len(),
        is_flat(s.subrange(i, n)),
        s[n] == '}',
    ensures
        block_end(s, i, 1) == Some(n),
    decreases n - i,
{
    if i < n {
        assert(s.subrange(i, n)[0] == s[i]);
        assert forall|j: int| 0 <= j < n - (i + 1) implies !is_quote(
            #[trigger] s.subrange(i + 1, n)[j],
        ) && s.subrange(i + 1, n)[j] != '{' && s.subrange(i + 1, n)[j] != '}' by {
            assert(s.subrange(i + 1, n)[j] == s.subrange(i, n)[j + 1]);
        }
        lemma_block_over_flat(s, i + 1, n);
    }
}

/// Rules are read one after another: a rule with a plain selector and flat declarations is read as
/// it stands, on the line on which its selector begins, and what follows is read as if it stood
/// alone, its lines counted from where it begins.
pub proof fn law_rules_are_read_one_by_one(
    selector: Seq<char>,
    declarations: Seq<char>,
    rest: Seq<char>,
    base: int,
    media: Option<Seq<char>>,
    layer: Option<Seq<char>>,
)
    requires
        is_plain(selector),
        is_flat(declarations),
        trim(selector).len() > 0,
        trim(selector)[0] != '@',
    ensures
        ({
            let rule = selector.push('{') + declarations.push('}');
            let lead = selector.len() - trim_start(selector).len();
            rules_at_level(rule + rest, base, media, layer) == join_rules(
                seq![
                    RuleView {
                        selector: trim(selector),
                        properties: trim(declarations),
                        line: line_number(base + newlines(selector.take(lead))),
                        media_query: media,
                        layer,
                    },
                ],
                rules_at_level(rest, base + newlines(rule), media, layer),
            )
        }),
{
    let rule = selector.push('{') + declarations.push('}');
    let s = rule + rest;
    let n = selector.len() as int;
    let e = n + 1 + declarations.len();
    let lead = n - trim_start(selector).len();
    assert(s.take(n) =~= selector);
    lemma_rules_over_plain(s, 0, n, base, media, layer);
    assert(s[n] == '{');
    assert(s.subrange(0, n) =~= selector);
    assert(s.subrange(n + 1, e) =~= declarations);
    assert(s[e] == '}');
    lemma_block_over_flat(s, n + 1, e);
    lemma_trim(selector);
    assert(s.take(lead) =~= selector.take(lead));
    let here = style_rule(s, 0, n, e, base, media, layer);
    lemma_rules_behind(s, e + 1, e + 1, e + 1, base, media, layer);
    assert(s.skip(e + 1) =~= rest);
    assert(s.take(e + 1) =~= rule);
    assert(rules_from(s, n, 0, base, media, layer) == join_rules(
        here,
        rules_from(s, e + 1, e + 1, base, media, layer),
    ));
}

pub proof fn lemma_string_end_before(t: Seq<char>, r: Seq<char>, i: int, quote: char)
    requires
        0 <= i <= t.len(),
        string_end(t, i, quote) < t.len(),
    ensures
        string_end(t + r, i, quote) == string_end(t, i, quote),
    decreases t.len() - i,
{
    if i < t.len() {
        assert((t + r)[i] == t[i]);
        if t[i] == '\\' {
            if i + 1 < t.len() {
                lemma_string_end_before(t, r, i + 2, quote);
            }
        } else if t[i] != quote {
            lemma_string_end_before(t, r, i + 1, quote);
        }
    }
}

proof fn lemma_block_end_before(t: Seq<char>, r: Seq<char>, i: int, depth: nat)
    requires
        0 <= i <= t.len(),
        block_end(t, i, depth) is Some,
        block_end(t, i, depth)->0 < t.len(),
    ensures
        block_end(t + r, i, depth) == block_end(t, i, depth),
    decreases t.len() - i,
{
    if i < t.len() {
        assert((t + r)[i] == t[i]);
        if is_quote(t[i]) {
            lemma_string_end(t, i + 1, t[i]);
            let e = string_end(t, i + 1, t[i]);
            if i < e < t.len() {
                lemma_string_end_before(t, r, i + 1, t[i]);
                lemma_block_end_before(t, r, e + 1, depth);
            }
        } else if t[i] == '{' {
            lemma_block_end_before(t, r, i + 1, depth + 1);
        } else if t[i] == '}' {
            if depth > 1 {
                lemma_block_end_before(t, r, i + 1, (depth - 1) as nat);
            }
        } else {
            lemma_block_end_before(t, r, i + 1, depth);
        }
    }
}

/// At-rules are entered: the rules inside are read as if they stood alone, in the conditional group
/// and the layer that the at-rule makes or, if it makes none, in the enclosing ones. `body` is what
/// stands between the at-rule's braces.
pub proof fn law_at_rules_are_entered(
    head: Seq<char>,
    body: Seq<char>,
    rest: Seq<char>,
    base: int,
    media: Option<Seq<char>>,
    layer: Option<Seq<char>>,
)
    requires
        is_plain(head),
        trim(head).len() > 0,
        trim(head)[0] == '@',
        block_end(body.push('}'), 0, 1) == Some(body.len() as int),
        rules_at_level(
            body,
            base + newlines(head),
            inner_media(trim(head), media),
            inner_layer(trim(head), layer),
        ) is Some,
    ensures
        ({
            let rule = head.push('{') + body.push('}');
            rules_at_level(rule + rest, base, media, layer) == join_rules(
                rules_at_level(
                    body,
                    base + newlines(head),
                    inner_media(trim(head), media),
                    inner_layer(trim(head), layer),
                )->0,
                rules_at_level(rest, base + newlines(rule), media, layer),
            )
        }),
{
    let rule = head.push('{') + body.push('}');
    let s = rule + rest;
    let n = head.len() as int;
    let e = n + 1 + body.len();
    assert(s.take(n) =~= head);
    lemma_rules_over_plain(s, 0, n, base, media, layer);
    assert(s[n] == '{');
    assert(s.subrange(0, n) =~= head);
    assert(s.subrange(n + 1, e) =~= body);
    lemma_block_end_before(body.push('}'), rest, 0, 1);
    assert(s.skip(n + 1) =~= body.push('}') + rest);
    lemma_block_end_behind(s, n + 1, n + 1, 1);
    assert(s.take(n + 1) =~= head.push('{'));
    lemma_newlines_push(head, '{');
    lemma_rules_behind(s, e + 1, e + 1, e + 1, base, media, layer);
    assert(s.skip(e + 1) =~= rest);
    assert(s.take(e + 1) =~= rule);
    assert(rules_from(s, n, 0, base, media, layer) == join_rules(
        rules_at_level(
            body,
            base + newlines(head),
            inner_media(trim(head), media),
            inner_layer(trim(head), layer),
        )->0,
        rules_from(s, e + 1, e + 1, base, media, layer),
    ));
}

} // verus!
