//! The extent of a rule.

use crate::css::{is_quote, string_end};
use crate::extent::{closing_brace, comment_end, line_start, rule_extent};
use crate::text::newlines;
use vstd::prelude::*;

verus! {

/// A comment that begins at `i` and ends before `n`.
pub open spec fn is_comment(s: Seq<char>, i: int, n: int) -> bool {
    &&& 0 <= i && i + 4 <= n <= s.len()
    &&& s[i] == '/'
    &&& s[i + 1] == '*'
    &&& s[n - 2] == '*'
    &&& s[n - 1] == '/'
    &&& forall|j: int| i + 2 <= j < n - 2 ==> !(#[trigger] s[j] == '*' && s[j + 1] == '/')
}

/// A string that begins at `i` and ends before `n`.
pub open spec fn is_string(s: Seq<char>, i: int, n: int) -> bool {
    &&& 0 <= i && i + 2 <= n <= s.len()
    &&& is_quote(s[i])
    &&& s[n - 1] == s[i]
    &&& forall|j: int| i + 1 <= j < n - 1 ==> #[trigger] s[j] != s[i] && s[j] != '\\'
}

proof fn lemma_comment(s: Seq<char>, i: int, n: int)
    requires
        0 <= i <= n - 2,
        n <= s.len(),
        s[n - 2] == '*',
        s[n - 1] == '/',
        forall|j: int| i <= j < n - 2 ==> !(#[trigger] s[j] == '*' && s[j + 1] == '/'),
    ensures
        comment_end(s, i) == n,
    decreases n - i,
{
    if i < n - 2 {
        assert(!(s[i] == '*' && s[i + 1] == '/'));
        lemma_comment(s, i + 1, n);
    }
}

proof fn lemma_string(s: Seq<char>, i: int, n: int, quote: char)
    requires
        0 <= i <= n - 1,
        n <= s.len(),
        s[n - 1] == quote,
        quote != '\\',
        forall|j: int| i <= j < n - 1 ==> #[trigger] s[j] != quote && s[j] != '\\',
    ensures
        string_end(s, i, quote) == n - 1,
    decreases n - i,
{
    if i < n - 1 {
        assert(s[i] != quote);
        lemma_string(s, i + 1, n, quote);
    }
}

/// Braces in comments and strings do not count: the brace that closes a block is looked for behind
/// them, with as many braces open as before.
pub proof fn law_comments_and_strings_are_passed_over(s: Seq<char>, i: int, n: int, depth: nat)
    requires
        is_comment(s, i, n) || is_string(s, i, n),
    ensures
        closing_brace(s, i, depth) == closing_brace(s, n, depth),
{
    if is_comment(s, i, n) {
        lemma_comment(s, i + 2, n);
    } else {
        lemma_string(s, i + 1, n, s[i]);
    }
}

/// A brace that opens a block is closed before the block around it is, and the first brace that
/// closes the first block is the one that is looked for.
pub proof fn law_braces_nest(s: Seq<char>, i: int, depth: nat)
    requires
        0 <= i < s.len(),
    ensures
        s[i] == '{' ==> closing_brace(s, i, depth) == closing_brace(s, i + 1, depth + 1),
        s[i] == '}' && depth == 1 ==> closing_brace(s, i, depth) == Some(i),
        s[i] == '}' && depth > 1 ==> closing_brace(s, i, depth) == closing_brace(
            s,
            i + 1,
            (depth - 1) as nat,
        ),
        closing_brace(s, s.len() as int, depth) is None,
{
}

/// The extent of a rule: from the line on which it is defined to that of the brace that closes its
/// block. There is none without such a line or such a brace.
pub proof fn law_extents(s: Seq<char>, line: nat)
    ensures
        line_start(s, 0, line) is None ==> rule_extent(s, line) is None,
        line_start(s, 0, line) is Some ==> {
            let brace = closing_brace(s, line_start(s, 0, line)->0, 0);
            &&& brace is None ==> rule_extent(s, line) is None
            &&& brace is Some ==> rule_extent(s, line) == Some(
                (line as int, newlines(s.take(brace->0)) as int),
            )
        },
{
}

} // verus!
