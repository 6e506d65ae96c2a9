//! Whether selectors name the classes and identifiers without which they match nothing.

use crate::css::{is_quote, skip_string, string_end};
use crate::cursor::name_char;
use crate::pattern::{is_name_char, is_name_start};
use crate::text::chars_of;
use vstd::prelude::*;
use vstd::slice::slice_subrange;

verus! {

/// The index of the bracket that closes a group whose content goes on at `i`, with `depth` brackets
/// open. Brackets in strings and behind a backslash do not count.
pub open spec fn group_end(s: Seq<char>, i: int, depth: nat) -> Option<int>
    decreases s.len() - i,
{
    if i >= s.len() {
        None
    } else if s[i] == '\\' && i + 1 < s.len() {
        group_end(s, i + 2, depth)
    } else if is_quote(s[i]) {
        let e = string_end(s, i + 1, s[i]);
        if i < e < s.len() {
            group_end(s, e + 1, depth)
        } else {
            None
        }
    } else if s[i] == '(' || s[i] == '[' {
        group_end(s, i + 1, depth + 1)
    } else if s[i] == ')' || s[i] == ']' {
        if depth <= 1 {
            Some(i)
        } else {
            group_end(s, i + 1, (depth - 1) as nat)
        }
    } else {
        group_end(s, i + 1, depth)
    }
}

/// Where the name begins that ends at `i`.
pub open spec fn name_begin(s: Seq<char>, i: int) -> int
    decreases i,
{
    if i > 0 && is_name_char(s[i - 1]) {
        name_begin(s, i - 1)
    } else {
        i
    }
}

/// The word `not`, in any letter case.
pub open spec fn is_not(word: Seq<char>) -> bool {
    &&& word.len() == 3
    &&& word[0] == 'n' || word[0] == 'N'
    &&& word[1] == 'o' || word[1] == 'O'
    &&& word[2] == 't' || word[2] == 'T'
}

/// Whether the parenthesis at `i` opens the arguments of a pseudo-class that asks for a match of
/// one of them, which all do but `:not`.
pub open spec fn asks_for_match(s: Seq<char>, i: int) -> bool {
    let from = name_begin(s, i);
    0 < from < i && s[from - 1] == ':' && !is_not(s.subrange(from, i))
}

/// Whether every selector of a list from `i` on names a class or an identifier that what it matches
/// must have: outside brackets and strings, or in every argument of a pseudo-class that asks for a
/// match of one of them. `named` tells whether the selector that `i` is in has named one before.
pub open spec fn each_is_named(s: Seq<char>, i: int, named: bool) -> bool
    decreases s.len(), s.len() - i,
{
    if i >= s.len() {
        named
    } else if s[i] == '\\' && i + 1 < s.len() {
        each_is_named(s, i + 2, named)
    } else if is_quote(s[i]) {
        let e = string_end(s, i + 1, s[i]);
        i < e < s.len() && each_is_named(s, e + 1, named)
    } else if s[i] == '(' || s[i] == '[' {
        match group_end(s, i + 1, 1) {
            Some(e) => 0 <= i < e < s.len() && each_is_named(
                s,
                e + 1,
                named || (s[i] == '(' && asks_for_match(s, i) && each_is_named(
                    s.subrange(i + 1, e),
                    0,
                    false,
                )),
            ),
            None => false,
        }
    } else if s[i] == ',' {
        named && each_is_named(s, i + 1, false)
    } else if (s[i] == '.' || s[i] == '#') && i + 1 < s.len() && is_name_start(s[i + 1]) {
        each_is_named(s, i + 1, true)
    } else {
        each_is_named(s, i + 1, named)
    }
}

/// Whether every selector of a list names a class or an identifier that what it matches must have,
/// so that nothing matches the list where none of its names is used.
pub open spec fn names_throughout(selector: Seq<char>) -> bool {
    each_is_named(selector, 0, false)
}

proof fn lemma_group_end(s: Seq<char>, i: int, depth: nat)
    requires
        0 <= i,
    ensures
        group_end(s, i, depth) is Some ==> i <= group_end(s, i, depth)->0 < s.len(),
    decreases s.len() - i,
{
    if i < s.len() {
        if s[i] == '\\' && i + 1 < s.len() {
            lemma_group_end(s, i + 2, depth);
        } else if is_quote(s[i]) {
            let e = string_end(s, i + 1, s[i]);
            if i < e < s.len() {
                lemma_group_end(s, e + 1, depth);
            }
        } else if s[i] == '(' || s[i] == '[' {
            lemma_group_end(s, i + 1, depth + 1);
        } else if s[i] == ')' || s[i] == ']' {
            if depth > 1 {
                lemma_group_end(s, i + 1, (depth - 1) as nat);
            }
        } else {
            lemma_group_end(s, i + 1, depth);
        }
    }
}

/// The index of the bracket that closes a group whose content begins at `from`.
fn find_group_end(s: &[char], from: usize) -> (r: Option<usize>)
    requires
        1 <= from <= s@.len(),
    ensures
        r is Some == (group_end(s@, from as int, 1) is Some),
        r is Some ==> r->0 == group_end(s@, from as int, 1)->0 && from <= r->0 < s@.len(),
{
    let n: usize = s.len();
    let mut i: usize = from;
    let mut depth: usize = 1;
    proof {
        lemma_group_end(s@, from as int, 1);
    }
    while i < n
        invariant
            1 <= from <= i <= n,
            n == s@.len(),
            1 <= depth <= i - from + 1,
            group_end(s@, from as int, 1) == group_end(s@, i as int, depth as nat),
        decreases n - i,
    {
        let c = s[i];
        if c == '\\' && i + 1 < n {
            i = i + 2;
        } else if c == '"' || c == '\'' {
            let e: usize = skip_string(s, i + 1, c);
            if e >= n {
                return None;
            }
            i = e + 1;
        } else if c == '(' || c == '[' {
            depth = depth + 1;
            i = i + 1;
        } else if c == ')' || c == ']' {
            if depth == 1 {
                return Some(i);
            }
            depth = depth - 1;
            i = i + 1;
        } else {
            i = i + 1;
        }
    }
    None
}

/// Whether the parenthesis at `i` opens the arguments of a pseudo-class that asks for a match of
/// one of them.
fn is_asking(s: &[char], i: usize) -> (r: bool)
    requires
        i <= s@.len(),
    ensures
        r == asks_for_match(s@, i as int),
{
    let n: usize = s.len();
    let mut from: usize = i;
    while from > 0 && name_char(s[from - 1])
        invariant
            from <= i <= n,
            n == s@.len(),
            name_begin(s@, i as int) == name_begin(s@, from as int),
        decreases from,
    {
        from = from - 1;
    }
    if from == 0 || from == i || s[from - 1] != ':' {
        return false;
    }
    let negates = i - from == 3 && (s[from] == 'n' || s[from] == 'N') && (s[from + 1] == 'o'
        || s[from + 1] == 'O') && (s[from + 2] == 't' || s[from + 2] == 'T');
    !negates
}

/// Whether every selector of a list names a class or an identifier that what it matches must have.
fn all_named(s: &[char]) -> (r: bool)
    ensures
        r == names_throughout(s@),
    decreases s@.len(),
{
    let n: usize = s.len();
    let mut i: usize = 0;
    let mut named = false;
    while i < n
        invariant
            i <= n,
            n == s@.len(),
            names_throughout(s@) == each_is_named(s@, i as int, named),
        decreases n - i,
    {
        let c = s[i];
        if c == '\\' && i + 1 < n {
            i = i + 2;
        } else if c == '"' || c == '\'' {
            let e: usize = skip_string(s, i + 1, c);
            if e >= n {
                return false;
            }
            i = e + 1;
        } else if c == '(' || c == '[' {
            let e: usize = match find_group_end(s, i + 1) {
                Some(e) => e,
                None => {
                    return false;
                },
            };
            if c == '(' && !named && is_asking(s, i) {
                named = all_named(slice_subrange(s, i + 1, e));
            }
            i = e + 1;
        } else if c == ',' {
            if !named {
                return false;
            }
            named = false;
            i = i + 1;
        } else {
            if (c == '.' || c == '#') && i + 1 < n && name_starter(s[i + 1]) {
                named = true;
            }
            i = i + 1;
        }
    }
    named
}

/// Whether every selector of a list names a class or an identifier that what it matches must have.
pub fn is_named_throughout(selector: &str) -> (r: bool)
    ensures
        r == names_throughout(selector@),
{
    let chars = chars_of(selector);
    all_named(chars.as_slice())
}

/// Whether a name can begin with a character.
fn name_starter(c: char) -> (r: bool)
    ensures
        r == is_name_start(c),
{
    ('a' <= c && c <= 'z') || ('A' <= c && c <= 'Z') || c == '_' || c == '-'
}

} // verus!
