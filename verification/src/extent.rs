//! The extent of a rule in a style sheet.

use crate::css::{is_quote, lemma_string_end, skip_string, string_end};
use crate::text::{
    chars_of, count_newlines, lemma_newlines_concat, lemma_newlines_push, line_number, newlines,
    to_line,
};
use vstd::prelude::*;
use vstd::slice::slice_subrange;

verus! {

/// The index at which the line begins that lies `count` lines below the one that `i` is on.
pub open spec fn line_start(s: Seq<char>, i: int, count: nat) -> Option<int>
    decreases s.len() - i,
{
    if count == 0 {
        Some(i)
    } else if i >= s.len() {
        None
    } else if s[i] == '\n' {
        line_start(s, i + 1, (count - 1) as nat)
    } else {
        line_start(s, i + 1, count)
    }
}

/// The index behind the comment whose content goes on at `i`.
pub open spec fn comment_end(s: Seq<char>, i: int) -> int
    decreases s.len() - i,
{
    if i >= s.len() {
        s.len() as int
    } else if i + 1 < s.len() && s[i] == '*' && s[i + 1] == '/' {
        i + 2
    } else {
        comment_end(s, i + 1)
    }
}

/// The index of the brace that closes the first block that opens at or after `i`, where `depth`
/// braces are open. Braces in comments and strings do not count.
pub open spec fn closing_brace(s: Seq<char>, i: int, depth: nat) -> Option<int>
    decreases s.len() - i,
{
    if i >= s.len() {
        None
    } else if s[i] == '/' && i + 1 < s.len() && s[i + 1] == '*' {
        let e = comment_end(s, i + 2);
        if i < e <= s.len() {
            closing_brace(s, e, depth)
        } else {
            None
        }
    } else if is_quote(s[i]) {
        let e = string_end(s, i + 1, s[i]);
        if i < e < s.len() {
            closing_brace(s, e + 1, depth)
        } else {
            None
        }
    } else if s[i] == '{' {
        closing_brace(s, i + 1, depth + 1)
    } else if s[i] == '}' && depth == 1 {
        Some(i)
    } else if s[i] == '}' && depth > 1 {
        closing_brace(s, i + 1, (depth - 1) as nat)
    } else {
        closing_brace(s, i + 1, depth)
    }
}

/// The first and last line of the rule that is defined on line `definition_line`: that line, and
/// the line of the brace that closes its block.
pub open spec fn rule_extent(s: Seq<char>, definition_line: nat) -> Option<(int, int)> {
    match line_start(s, 0, definition_line) {
        None => None,
        Some(i) => match closing_brace(s, i, 0) {
            None => None,
            Some(brace) => Some((definition_line as int, newlines(s.take(brace)) as int)),
        },
    }
}

proof fn lemma_comment_end(s: Seq<char>, i: int)
    requires
        0 <= i <= s.len(),
    ensures
        i <= comment_end(s, i) <= s.len(),
    decreases s.len() - i,
{
    if i < s.len() && !(i + 1 < s.len() && s[i] == '*' && s[i + 1] == '/') {
        lemma_comment_end(s, i + 1);
    }
}

proof fn lemma_newlines_step(s: Seq<char>, i: int)
    requires
        0 <= i < s.len(),
    ensures
        newlines(s.take(i + 1)) == newlines(s.take(i)) + (if s[i] == '\n' {
            1nat
        } else {
            0nat
        }),
{
    assert(s.take(i + 1) =~= s.take(i).push(s[i]));
    lemma_newlines_push(s.take(i), s[i]);
}

proof fn lemma_newlines_between(s: Seq<char>, a: int, b: int)
    requires
        0 <= a <= b <= s.len(),
    ensures
        newlines(s.take(b)) == newlines(s.take(a)) + newlines(s.subrange(a, b)),
{
    lemma_newlines_concat(s.take(a), s.subrange(a, b));
    assert(s.take(b) =~= s.take(a) + s.subrange(a, b));
}

proof fn lemma_line_start(s: Seq<char>, i: int, count: nat)
    requires
        0 <= i <= s.len(),
    ensures
        line_start(s, i, count) is Some ==> {
            let k = line_start(s, i, count)->0;
            i <= k <= s.len() && newlines(s.take(k)) == newlines(s.take(i)) + count
        },
    decreases s.len() - i,
{
    if count > 0 && i < s.len() {
        lemma_newlines_step(s, i);
        if s[i] == '\n' {
            lemma_line_start(s, i + 1, (count - 1) as nat);
        } else {
            lemma_line_start(s, i + 1, count);
        }
    }
}

proof fn lemma_closing_brace(s: Seq<char>, i: int, depth: nat)
    requires
        0 <= i <= s.len(),
    ensures
        closing_brace(s, i, depth) is Some ==> {
            let brace = closing_brace(s, i, depth)->0;
            i <= brace < s.len() && s[brace] == '}'
        },
    decreases s.len() - i,
{
    if i < s.len() {
        if s[i] == '/' && i + 1 < s.len() && s[i + 1] == '*' {
            lemma_comment_end(s, i + 2);
            lemma_closing_brace(s, comment_end(s, i + 2), depth);
        } else if is_quote(s[i]) {
            lemma_string_end(s, i + 1, s[i]);
            let e = string_end(s, i + 1, s[i]);
            if i < e < s.len() {
                lemma_closing_brace(s, e + 1, depth);
            }
        } else if s[i] == '{' {
            lemma_closing_brace(s, i + 1, depth + 1);
        } else if s[i] == '}' && depth > 1 {
            lemma_closing_brace(s, i + 1, (depth - 1) as nat);
        } else if !(s[i] == '}' && depth == 1) {
            lemma_closing_brace(s, i + 1, depth);
        }
    }
}

/// A rule begins on the line on which it is defined, does not end before it, and ends on a line of
/// the text.
pub proof fn law_rule_extent_order(s: Seq<char>, definition_line: nat)
    ensures
        rule_extent(s, definition_line) is Some ==> {
            let extent = rule_extent(s, definition_line)->0;
            extent.0 == definition_line && extent.0 <= extent.1 <= newlines(s)
        },
{
    if line_start(s, 0, definition_line) is Some {
        let i = line_start(s, 0, definition_line)->0;
        lemma_line_start(s, 0, definition_line);
        assert(s.take(0).len() == 0);
        lemma_closing_brace(s, i, 0);
        if closing_brace(s, i, 0) is Some {
            let brace = closing_brace(s, i, 0)->0;
            lemma_newlines_between(s, i, brace);
            lemma_newlines_between(s, brace, s.len() as int);
            assert(s.take(s.len() as int) =~= s);
        }
    }
}

/// The index behind the comment whose content goes on at `from`.
fn skip_comment(chars: &[char], from: usize) -> (r: usize)
    requires
        from <= chars@.len(),
    ensures
        r == comment_end(chars@, from as int),
        from <= r <= chars@.len(),
{
    let n: usize = chars.len();
    let mut i: usize = from;
    while i < n
        invariant
            from <= i <= n,
            n == chars@.len(),
            comment_end(chars@, from as int) == comment_end(chars@, i as int),
        decreases n - i,
    {
        if i + 1 < n && chars[i] == '*' && chars[i + 1] == '/' {
            return i + 2;
        }
        i = i + 1;
    }
    n
}

/// The index of the brace that closes the first block that opens at or after `from`.
fn find_closing_brace(chars: &[char], from: usize) -> (r: Option<usize>)
    requires
        from <= chars@.len(),
    ensures
        r is Some == (closing_brace(chars@, from as int, 0) is Some),
        r is Some ==> r->0 == closing_brace(chars@, from as int, 0)->0 && r->0 < chars@.len(),
{
    let n: usize = chars.len();
    let mut i: usize = from;
    let mut depth: usize = 0;
    while i < n
        invariant
            from <= i <= n,
            n == chars@.len(),
            depth <= i,
            closing_brace(chars@, from as int, 0) == closing_brace(
                chars@,
                i as int,
                depth as nat,
            ),
        decreases n - i,
    {
        let c = chars[i];
        if c == '/' && i + 1 < n && chars[i + 1] == '*' {
            i = skip_comment(chars, i + 2);
        } else if c == '"' || c == '\'' {
            let e: usize = skip_string(chars, i + 1, c);
            if e >= n {
                return None;
            }
            i = e + 1;
        } else if c == '{' {
            depth = depth + 1;
            i = i + 1;
        } else if c == '}' && depth == 1 {
            return Some(i);
        } else if c == '}' && depth > 1 {
            depth = depth - 1;
            i = i + 1;
        } else {
            i = i + 1;
        }
    }
    None
}

/// The extent of the rule defined on `definition_line`, as the numbers of its first and last line.
/// There is none if the text has no such line or no block closes below it.
pub fn find_rule_extent(content: &str, definition_line: u32) -> (r: Option<(u32, u32)>)
    ensures
        r is Some == (rule_extent(content@, definition_line as nat) is Some),
        r is Some ==> r->0 == (
            definition_line,
            line_number((rule_extent(content@, definition_line as nat)->0).1),
        ),
{
    let chars = chars_of(content);
    let n: usize = chars.len();
    let ghost s = chars@;
    let mut i: usize = 0;
    let mut line: u32 = 0;
    while i < n && line < definition_line
        invariant
            i <= n,
            n == chars@.len(),
            s == chars@,
            line <= definition_line,
            line_start(s, 0, definition_line as nat) == line_start(
                s,
                i as int,
                (definition_line - line) as nat,
            ),
        decreases n - i,
    {
        if chars[i] == '\n' {
            line = line + 1;
        }
        i = i + 1;
    }
    if line < definition_line {
        return None;
    }
    match find_closing_brace(chars.as_slice(), i) {
        None => None,
        Some(brace) => {
            let last: usize = count_newlines(slice_subrange(chars.as_slice(), 0, brace));
            proof {
                assert(s.subrange(0, brace as int) =~= s.take(brace as int));
            }
            Some((definition_line, to_line(last as u128)))
        },
    }
}

proof fn lemma_newlines_first(s: Seq<char>, i: int, p: int)
    requires
        0 <= i < p <= s.len(),
    ensures
        newlines(s.subrange(i, p)) == newlines(s.subrange(i + 1, p)) + (if s[i] == '\n' {
            1nat
        } else {
            0nat
        }),
{
    let first = seq![s[i]];
    assert(s.subrange(i, p) =~= first + s.subrange(i + 1, p));
    lemma_newlines_concat(first, s.subrange(i + 1, p));
    assert(Seq::<char>::empty().push(s[i]) =~= first);
    lemma_newlines_push(Seq::<char>::empty(), s[i]);
    assert(newlines(Seq::<char>::empty()) == 0);
}

/// The start of a line lies as many lines below an earlier place as there are line feeds between.
proof fn lemma_line_start_is(s: Seq<char>, i: int, p: int)
    requires
        0 <= i <= p <= s.len(),
        i < p ==> s[p - 1] == '\n',
    ensures
        line_start(s, i, newlines(s.subrange(i, p))) == Some(p),
    decreases p - i,
{
    if i < p {
        lemma_newlines_first(s, i, p);
        if i + 1 < p {
            lemma_line_start_is(s, i + 1, p);
            lemma_some_line_feed(s, i + 1, p);
        } else {
            assert(s.subrange(i + 1, p) =~= Seq::<char>::empty());
            assert(newlines(Seq::<char>::empty()) == 0);
        }
    } else {
        assert(s.subrange(i, p) =~= Seq::<char>::empty());
        assert(newlines(Seq::<char>::empty()) == 0);
    }
}

proof fn lemma_some_line_feed(s: Seq<char>, i: int, p: int)
    requires
        0 <= i < p <= s.len(),
        s[p - 1] == '\n',
    ensures
        newlines(s.subrange(i, p)) > 0,
{
    assert(s.subrange(i, p).last() == '\n');
}

/// A text without quotes, braces and slashes.
pub open spec fn is_bare(s: Seq<char>) -> bool {
    forall|i: int|
        0 <= i < s.len() ==> !is_quote(#[trigger] s[i]) && s[i] != '{' && s[i] != '}' && s[i] != '/'
}

proof fn lemma_closing_over_bare(s: Seq<char>, i: int, n: int, depth: nat)
    requires
        0 <= i <= n <= s.len(),
        is_bare(s.subrange(i, n)),
    ensures
        closing_brace(s, i, depth) == closing_brace(s, n, depth),
    decreases n - i,
{
    if i < n {
        assert(s.subrange(i, n)[0] == s[i]);
        assert forall|j: int| 0 <= j < n - (i + 1) implies !is_quote(
            #[trigger] s.subrange(i + 1, n)[j],
        ) && s.subrange(i + 1, n)[j] != '{' && s.subrange(i + 1, n)[j] != '}' && s.subrange(
            i + 1,
            n,
        )[j] != '/' by {
            assert(s.subrange(i + 1, n)[j] == s.subrange(i, n)[j + 1]);
        }
        lemma_closing_over_bare(s, i + 1, n, depth);
    }
}

/// The extent of a bare rule that begins a line: from that line to the line of its closing brace,
/// whatever stands before and behind.
pub proof fn law_extent_of_a_bare_rule(
    before: Seq<char>,
    selector: Seq<char>,
    declarations: Seq<char>,
    rest: Seq<char>,
)
    requires
        before.len() > 0 ==> before.last() == '\n',
        is_bare(selector),
        is_bare(declarations),
    ensures
        ({
            let open = before + selector.push('{') + declarations;
            rule_extent(open.push('}') + rest, newlines(before)) == Some(
                (newlines(before) as int, newlines(open) as int),
            )
        }),
{
    let open = before + selector.push('{') + declarations;
    let s = open.push('}') + rest;
    let p = before.len() as int;
    let n = p + selector.len();
    let e = n + 1 + declarations.len();
    assert(s.subrange(0, p) =~= before);
    if p > 0 {
        assert(s[p - 1] == before.last());
    }
    lemma_line_start_is(s, 0, p);
    assert(s.subrange(p, n) =~= selector);
    lemma_closing_over_bare(s, p, n, 0);
    assert(s[n] == '{');
    assert(s.subrange(n + 1, e) =~= declarations);
    lemma_closing_over_bare(s, n + 1, e, 1);
    assert(s[e] == '}');
    assert(s.take(e) =~= open);
}

} // verus!
