//! Text primitives: characters, lines, trimming, searching and number formatting.
//!
//! A text is modelled by its sequence of characters. Where a position inside a
//! line matters, it is a byte offset into the UTF-8 encoding of that line.

use vstd::prelude::*;
use vstd::slice::slice_subrange;
use vstd::string::StringExecFns;
use vstd::utf8::{encode_utf8, encode_utf8_decode_utf8};

verus! {

/// `String::push` appends the character to the text.
pub assume_specification[ String::push ](s: &mut String, ch: char)
    ensures
        final(s)@ == old(s)@.push(ch),
;

/// The lowercase form that Unicode assigns to a text.
pub uninterp spec fn lowercase(s: Seq<char>) -> Seq<char>;

/// `str::to_lowercase` depends on the text alone; its result is named `lowercase`.
pub assume_specification[ str::to_lowercase ](s: &str) -> (r: String)
    ensures
        r@ == lowercase(s@),
;

/// The texts of a list of strings.
pub open spec fn texts(v: Seq<String>) -> Seq<Seq<char>> {
    v.map_values(|s: String| s@)
}

/// The characters of a text.
pub fn chars_of(s: &str) -> (r: Vec<char>)
    ensures
        r@ == s@,
{
    let mut r: Vec<char> = Vec::new();
    for c in it: s.chars()
        invariant
            r@ == it.seq().take(it.index() as int),
            it.seq() == s@,
    {
        proof {
            assert(it.seq().take(it.index() as int).push(c) =~= it.seq().take(it.index() + 1));
        }
        r.push(c);
    }
    proof {
        assert(s@.take(s@.len() as int) =~= s@);
    }
    r
}

/// The text made of the given characters.
pub fn string_of(chars: &[char]) -> (r: String)
    ensures
        r@ == chars@,
{
    let mut r = String::new();
    let n: usize = chars.len();
    let mut i: usize = 0;
    while i < n
        invariant
            i <= n,
            n == chars@.len(),
            r@ == chars@.take(i as int),
        decreases n - i,
    {
        r.push(chars[i]);
        proof {
            assert(chars@.take(i as int).push(chars@[i as int]) =~= chars@.take(i + 1));
        }
        i = i + 1;
    }
    proof {
        assert(chars@.take(n as int) =~= chars@);
    }
    r
}

/// The text without its first `k` characters.
pub fn skip_chars(s: &str, k: usize) -> (r: String)
    requires
        k <= s@.len(),
    ensures
        r@ == s@.skip(k as int),
{
    let chars = chars_of(s);
    let r = string_of(slice_subrange(chars.as_slice(), k, chars.len()));
    proof {
        assert(r@ =~= s@.skip(k as int));
    }
    r
}

/// Texts with the same UTF-8 encoding are the same text.
pub proof fn lemma_encoding_is_injective(a: Seq<char>, b: Seq<char>)
    requires
        encode_utf8(a) == encode_utf8(b),
    ensures
        a == b,
{
    encode_utf8_decode_utf8(a);
    encode_utf8_decode_utf8(b);
}

/// Whether two texts are the same.
pub fn same_text(a: &str, b: &str) -> (r: bool)
    ensures
        r == (a@ == b@),
{
    let x = a.as_bytes();
    let y = b.as_bytes();
    let n: usize = x.len();
    if n != y.len() {
        return false;
    }
    let mut i: usize = 0;
    while i < n
        invariant
            i <= n,
            n == x@.len(),
            n == y@.len(),
            x@ == encode_utf8(a@),
            y@ == encode_utf8(b@),
            forall|j: int| 0 <= j < i ==> x@[j] == y@[j],
        decreases n - i,
    {
        if x[i] != y[i] {
            return false;
        }
        i = i + 1;
    }
    proof {
        assert(x@ =~= y@);
        lemma_encoding_is_injective(a@, b@);
    }
    true
}

/// Whether the text begins with `prefix`.
pub fn starts_with(s: &str, prefix: &str) -> (r: bool)
    ensures
        r == prefix@.is_prefix_of(s@),
{
    let x = chars_of(s);
    let y = chars_of(prefix);
    let n: usize = y.len();
    if n > x.len() {
        return false;
    }
    let mut i: usize = 0;
    while i < n
        invariant
            i <= n,
            n == y@.len(),
            n <= x@.len(),
            x@ == s@,
            y@ == prefix@,
            forall|j: int| 0 <= j < i ==> x@[j] == y@[j],
        decreases n - i,
    {
        if x[i] != y[i] {
            proof {
                assert(s@.take(n as int)[i as int] == s@[i as int]);
            }
            return false;
        }
        i = i + 1;
    }
    proof {
        assert(prefix@ =~= s@.subrange(0, n as int));
    }
    true
}

/// Whether the text ends with `suffix`.
pub fn ends_with(s: &str, suffix: &str) -> (r: bool)
    ensures
        r == suffix@.is_suffix_of(s@),
{
    let x = chars_of(s);
    let y = chars_of(suffix);
    let n: usize = y.len();
    if n > x.len() {
        return false;
    }
    let off: usize = x.len() - n;
    let mut i: usize = 0;
    while i < n
        invariant
            i <= n,
            n == y@.len(),
            off + n == x.len(),
            x@ == s@,
            y@ == suffix@,
            forall|j: int| 0 <= j < i ==> #[trigger] x@[off + j] == y@[j],
        decreases n - i,
    {
        if x[off + i] != y[i] {
            proof {
                assert(s@.subrange(off as int, s@.len() as int)[i as int] == s@[off + i]);
            }
            return false;
        }
        i = i + 1;
    }
    proof {
        let tail = s@.subrange(off as int, s@.len() as int);
        assert forall|j: int| 0 <= j < n implies suffix@[j] == tail[j] by {
            assert(x@[off + j] == y@[j]);
        }
        assert(suffix@ =~= tail);
    }
    true
}

/// Whether a list of strings holds a text.
pub fn contains_text(v: &Vec<String>, name: &str) -> (r: bool)
    ensures
        r == texts(v@).contains(name@),
{
    let n: usize = v.len();
    let mut i: usize = 0;
    while i < n
        invariant
            i <= n,
            n == v@.len(),
            forall|j: int| 0 <= j < i ==> texts(v@)[j] != name@,
        decreases n - i,
    {
        if same_text(v[i].as_str(), name) {
            proof {
                assert(texts(v@)[i as int] == name@);
            }
            return true;
        }
        i = i + 1;
    }
    false
}

/// Three texts in a row.
pub fn concat3(a: &str, b: &str, c: &str) -> (r: String)
    ensures
        r@ == a@ + b@ + c@,
{
    let mut r = a.to_owned();
    r.append(b);
    r.append(c);
    r
}

/// The first index at or after `from` that holds `c`, or the length if there is none.
pub open spec fn index_from(s: Seq<char>, c: char, from: int) -> int
    decreases s.len() - from,
{
    if from >= s.len() {
        s.len() as int
    } else if s[from] == c {
        from
    } else {
        index_from(s, c, from + 1)
    }
}

/// `index_from` is the least such index.
pub proof fn lemma_index_from(s: Seq<char>, c: char, from: int)
    requires
        0 <= from <= s.len(),
    ensures
        from <= index_from(s, c, from) <= s.len(),
        index_from(s, c, from) < s.len() ==> s[index_from(s, c, from)] == c,
        forall|j: int| from <= j < index_from(s, c, from) ==> s[j] != c,
    decreases s.len() - from,
{
    if from < s.len() && s[from] != c {
        lemma_index_from(s, c, from + 1);
    }
}

/// An index that holds `c`, with none before it, is `index_from`.
pub proof fn lemma_index_from_is(s: Seq<char>, c: char, from: int, k: int)
    requires
        0 <= from <= k <= s.len(),
        forall|j: int| from <= j < k ==> s[j] != c,
        k < s.len() ==> s[k] == c,
    ensures
        index_from(s, c, from) == k,
    decreases k - from,
{
    if from < k {
        lemma_index_from_is(s, c, from + 1, k);
    }
}

/// The first index at or after `from` that holds `c`, or the length if there is none.
pub fn find_from(chars: &[char], c: char, from: usize) -> (r: usize)
    requires
        from <= chars@.len(),
    ensures
        r == index_from(chars@, c, from as int),
        from <= r <= chars@.len(),
        r < chars@.len() ==> chars@[r as int] == c,
        forall|j: int| from <= j < r ==> chars@[j] != c,
{
    let n: usize = chars.len();
    let mut i: usize = from;
    while i < n && chars[i] != c
        invariant
            from <= i <= n,
            n == chars@.len(),
            forall|j: int| from <= j < i ==> chars@[j] != c,
        decreases n - i,
    {
        i = i + 1;
    }
    proof {
        lemma_index_from_is(chars@, c, from as int, i as int);
    }
    i
}

/// Whether `sub` stands in `s` at index `i`.
pub open spec fn occurs_at(s: Seq<char>, sub: Seq<char>, i: int) -> bool {
    0 <= i && i + sub.len() <= s.len() && s.subrange(i, i + sub.len()) == sub
}

/// Whether `sub` stands somewhere in `s`.
pub open spec fn occurs(s: Seq<char>, sub: Seq<char>) -> bool {
    exists|i: int| #[trigger] occurs_at(s, sub, i)
}

/// The first index at which `sub` stands in `s`.
pub open spec fn first_occurrence(s: Seq<char>, sub: Seq<char>) -> Option<int> {
    if occurs(s, sub) {
        Some(
            choose|i: int| #[trigger]
                occurs_at(s, sub, i) && forall|j: int| j < i ==> !#[trigger] occurs_at(s, sub, j),
        )
    } else {
        None
    }
}

/// Whether `sub` stands at index `i`.
pub fn stands_at(s: &[char], sub: &[char], i: usize) -> (r: bool)
    requires
        i + sub@.len() <= s@.len(),
    ensures
        r == occurs_at(s@, sub@, i as int),
{
    let n: usize = sub.len();
    let total: usize = s.len();
    let mut k: usize = 0;
    while k < n
        invariant
            k <= n,
            n == sub@.len(),
            total == s@.len(),
            i + n <= total,
            forall|j: int| 0 <= j < k ==> #[trigger] sub@[j] == s@[i + j],
        decreases n - k,
    {
        if s[i + k] != sub[k] {
            proof {
                assert(s@.subrange(i as int, i + n)[k as int] == s@[i + k]);
            }
            return false;
        }
        k = k + 1;
    }
    proof {
        assert(s@.subrange(i as int, i + n) =~= sub@);
    }
    true
}

/// The first index at which `sub` stands in `s`.
pub fn find_sub(s: &[char], sub: &[char]) -> (r: Option<usize>)
    ensures
        r is Some == (first_occurrence(s@, sub@) is Some),
        r is Some ==> r->0 == first_occurrence(s@, sub@)->0 && occurs_at(s@, sub@, r->0 as int),
        r is Some == occurs(s@, sub@),
{
    let n: usize = s.len();
    let m: usize = sub.len();
    if m > n {
        return None;
    }
    let last: usize = n - m;
    let mut i: usize = 0;
    loop
        invariant
            i <= last,
            last + m == n,
            n == s@.len(),
            m == sub@.len(),
            forall|j: int| 0 <= j < i ==> !#[trigger] occurs_at(s@, sub@, j),
        decreases last - i,
    {
        if stands_at(s, sub, i) {
            proof {
                let f = first_occurrence(s@, sub@)->0;
                assert(occurs_at(s@, sub@, i as int));
                assert forall|j: int| j < i implies !#[trigger] occurs_at(s@, sub@, j) by {
                    if j >= 0 {
                    }
                }
                assert(occurs_at(s@, sub@, f));
                assert(forall|j: int| j < f ==> !#[trigger] occurs_at(s@, sub@, j));
                assert(f == i);
            }
            return Some(i);
        }
        if i == last {
            proof {
                assert forall|j: int| !#[trigger] occurs_at(s@, sub@, j) by {
                    if 0 <= j <= last {
                    }
                }
            }
            return None;
        }
        i = i + 1;
    }
}

/// Whether `sub` stands somewhere in `s`.
pub fn contains_sub(s: &str, sub: &str) -> (r: bool)
    ensures
        r == occurs(s@, sub@),
{
    let a = chars_of(s);
    let b = chars_of(sub);
    find_sub(a.as_slice(), b.as_slice()).is_some()
}

/// Whether the character has the Unicode property `White_Space`.
pub open spec fn is_white(c: char) -> bool {
    ||| '\u{9}' <= c <= '\u{d}'
    ||| c == '\u{20}'
    ||| c == '\u{85}'
    ||| c == '\u{a0}'
    ||| c == '\u{1680}'
    ||| '\u{2000}' <= c <= '\u{200a}'
    ||| c == '\u{2028}'
    ||| c == '\u{2029}'
    ||| c == '\u{202f}'
    ||| c == '\u{205f}'
    ||| c == '\u{3000}'
}

/// Whether the character has the Unicode property `White_Space`.
pub fn white(c: char) -> (r: bool)
    ensures
        r == is_white(c),
{
    ('\u{9}' <= c && c <= '\u{d}') || c == '\u{20}' || c == '\u{85}' || c == '\u{a0}'
        || c == '\u{1680}' || ('\u{2000}' <= c && c <= '\u{200a}') || c == '\u{2028}'
        || c == '\u{2029}' || c == '\u{202f}' || c == '\u{205f}' || c == '\u{3000}'
}

/// The text without its leading white space.
pub open spec fn trim_start(s: Seq<char>) -> Seq<char>
    decreases s.len(),
{
    if s.len() > 0 && is_white(s[0]) {
        trim_start(s.skip(1))
    } else {
        s
    }
}

/// The text without its trailing white space.
pub open spec fn trim_end(s: Seq<char>) -> Seq<char>
    decreases s.len(),
{
    if s.len() > 0 && is_white(s.last()) {
        trim_end(s.drop_last())
    } else {
        s
    }
}

/// The text without its leading and trailing white space.
pub open spec fn trim(s: Seq<char>) -> Seq<char> {
    trim_end(trim_start(s))
}

/// Trimming at the start leaves an end of the text that does not begin with white space.
pub proof fn lemma_trim_start(s: Seq<char>)
    ensures
        trim_start(s).len() <= s.len(),
        trim_start(s) == s.skip(s.len() - trim_start(s).len()),
        trim_start(s).len() > 0 ==> !is_white(trim_start(s)[0]),
    decreases s.len(),
{
    if s.len() > 0 && is_white(s[0]) {
        lemma_trim_start(s.skip(1));
        let k = s.len() - trim_start(s).len();
        assert(s.skip(1).skip(k - 1) =~= s.skip(k));
    } else {
        assert(s.skip(0) =~= s);
    }
}

/// Trimming at the end leaves a beginning of the text that does not end with white space.
pub proof fn lemma_trim_end(s: Seq<char>)
    ensures
        trim_end(s).len() <= s.len(),
        trim_end(s) == s.take(trim_end(s).len() as int),
        trim_end(s).len() > 0 ==> !is_white(trim_end(s).last()),
    decreases s.len(),
{
    if s.len() > 0 && is_white(s.last()) {
        lemma_trim_end(s.drop_last());
        let k = trim_end(s).len() as int;
        assert(s.drop_last().take(k) =~= s.take(k));
    } else {
        assert(s.take(s.len() as int) =~= s);
    }
}

/// A trimmed text stands in the text behind its leading white space.
pub proof fn lemma_trim(s: Seq<char>)
    ensures
        ({
            let lead = s.len() - trim_start(s).len();
            &&& 0 <= lead
            &&& lead + trim(s).len() <= s.len()
            &&& trim(s) == s.subrange(lead, lead + trim(s).len())
            &&& trim(s).len() > 0 ==> !is_white(trim(s)[0]) && !is_white(trim(s).last())
        }),
{
    lemma_trim_start(s);
    lemma_trim_end(trim_start(s));
    let lead = s.len() - trim_start(s).len();
    assert(trim(s) =~= s.subrange(lead, lead + trim(s).len()));
}

/// The characters without leading and trailing white space.
pub fn trimmed(chars: &[char]) -> (r: &[char])
    ensures
        r@ == trim(chars@),
{
    let n: usize = chars.len();
    let mut a: usize = 0;
    proof {
        assert(chars@.skip(0) =~= chars@);
    }
    while a < n && white(chars[a])
        invariant
            a <= n,
            n == chars@.len(),
            trim_start(chars@) == trim_start(chars@.skip(a as int)),
        decreases n - a,
    {
        proof {
            assert(chars@.skip(a as int).skip(1) =~= chars@.skip(a + 1));
        }
        a = a + 1;
    }
    let ghost t = chars@.skip(a as int);
    let mut b: usize = n;
    proof {
        assert(t =~= chars@.subrange(a as int, b as int));
    }
    while b > a && white(chars[b - 1])
        invariant
            a <= b <= n,
            n == chars@.len(),
            trim_end(t) == trim_end(chars@.subrange(a as int, b as int)),
        decreases b,
    {
        proof {
            let u = chars@.subrange(a as int, b as int);
            assert(u.last() == chars@[b - 1]);
            assert(u.drop_last() =~= chars@.subrange(a as int, b - 1));
        }
        b = b - 1;
    }
    slice_subrange(chars, a, b)
}

/// The text without its leading and trailing white space.
pub fn trimmed_text(s: &str) -> (r: String)
    ensures
        r@ == trim(s@),
{
    let chars = chars_of(s);
    string_of(trimmed(chars.as_slice()))
}

/// The first index of white space at or after `from`, or the length if there is none.
pub open spec fn white_from(s: Seq<char>, from: int) -> int
    decreases s.len() - from,
{
    if from >= s.len() {
        s.len() as int
    } else if is_white(s[from]) {
        from
    } else {
        white_from(s, from + 1)
    }
}

/// The words of a text: its longest runs without white space.
pub open spec fn words(s: Seq<char>) -> Seq<Seq<char>>
    decreases s.len(),
{
    if s.len() == 0 {
        seq![]
    } else if is_white(s[0]) {
        words(s.skip(1))
    } else {
        let k = white_from(s, 0);
        if 0 < k <= s.len() {
            seq![s.take(k)] + words(s.skip(k))
        } else {
            seq![]
        }
    }
}

proof fn lemma_white_from_shift(s: Seq<char>, a: int, k: int)
    requires
        0 <= a <= k <= s.len(),
    ensures
        white_from(s.skip(a), k - a) + a == white_from(s, k),
    decreases s.len() - k,
{
    if k < s.len() {
        assert(s.skip(a)[k - a] == s[k]);
        if !is_white(s[k]) {
            lemma_white_from_shift(s, a, k + 1);
        }
    }
}

/// The words of a text, in order.
pub fn split_words(s: &str) -> (r: Vec<String>)
    ensures
        texts(r@) == words(s@),
{
    let chars = chars_of(s);
    let n: usize = chars.len();
    let mut r: Vec<String> = Vec::new();
    let mut i: usize = 0;
    proof {
        assert(s@.skip(0) =~= s@);
        assert(texts(r@) + words(s@) =~= words(s@));
    }
    while i < n
        invariant
            i <= n,
            n == chars@.len(),
            chars@ == s@,
            texts(r@) + words(s@.skip(i as int)) == words(s@),
        decreases n - i,
    {
        let ghost rest = s@.skip(i as int);
        if white(chars[i]) {
            proof {
                assert(rest.skip(1) =~= s@.skip(i + 1));
            }
            i = i + 1;
        } else {
            let start: usize = i;
            while i < n && !white(chars[i])
                invariant
                    start <= i <= n,
                    start < n,
                    n == chars@.len(),
                    chars@ == s@,
                    i == start ==> !is_white(s@[start as int]),
                    white_from(s@, start as int) == white_from(s@, i as int),
                decreases n - i,
            {
                i = i + 1;
            }
            proof {
                lemma_white_from_shift(s@, start as int, start as int);
                assert(white_from(rest, 0) == i - start);
                assert(rest.take(i - start) =~= s@.subrange(start as int, i as int));
                assert(rest.skip(i - start) =~= s@.skip(i as int));
            }
            let word = string_of(slice_subrange(chars.as_slice(), start, i));
            let ghost before = r@;
            r.push(word);
            proof {
                assert(texts(r@) =~= texts(before).push(word@));
                assert(texts(r@) + words(s@.skip(i as int)) =~= texts(before) + (seq![word@]
                    + words(s@.skip(i as int))));
            }
        }
    }
    proof {
        assert(s@.skip(n as int).len() == 0);
        assert(texts(r@) + words(s@.skip(n as int)) =~= texts(r@));
    }
    r
}

/// How many line feeds a text holds.
pub open spec fn newlines(s: Seq<char>) -> nat
    decreases s.len(),
{
    if s.len() == 0 {
        0
    } else if s.last() == '\n' {
        newlines(s.drop_last()) + 1
    } else {
        newlines(s.drop_last())
    }
}

pub proof fn lemma_newlines_push(s: Seq<char>, c: char)
    ensures
        newlines(s.push(c)) == newlines(s) + (if c == '\n' {
            1nat
        } else {
            0nat
        }),
{
    assert(s.push(c).drop_last() =~= s);
}

pub proof fn lemma_newlines_concat(a: Seq<char>, b: Seq<char>)
    ensures
        newlines(a + b) == newlines(a) + newlines(b),
    decreases b.len(),
{
    if b.len() == 0 {
        assert(a + b =~= a);
    } else {
        lemma_newlines_concat(a, b.drop_last());
        assert((a + b).drop_last() =~= a + b.drop_last());
    }
}

pub proof fn lemma_newlines_bound(s: Seq<char>)
    ensures
        newlines(s) <= s.len(),
    decreases s.len(),
{
    if s.len() > 0 {
        lemma_newlines_bound(s.drop_last());
    }
}

/// A count of lines as a line number, which wraps around where it does not fit.
pub open spec fn line_number(count: int) -> u32 {
    (count % 0x1_0000_0000) as u32
}

/// A count of lines as a line number.
pub fn to_line(count: u128) -> (r: u32)
    ensures
        r == line_number(count as int),
{
    proof {
        assert(count as u32 == (count % 0x1_0000_0000u128) as u32) by (bit_vector);
    }
    count as u32
}

/// A line that lies further down has the number that lies further down, if it fits.
pub proof fn lemma_line_further_down(count: int, down: int)
    requires
        0 <= down,
        line_number(count) + down <= u32::MAX,
    ensures
        line_number(count + down) == line_number(count) + down,
{
}

/// Counts line feeds.
pub fn count_newlines(chars: &[char]) -> (r: usize)
    ensures
        r == newlines(chars@),
{
    let n: usize = chars.len();
    let mut i: usize = 0;
    let mut count: usize = 0;
    while i < n
        invariant
            i <= n,
            n == chars@.len(),
            count <= i,
            count == newlines(chars@.take(i as int)),
        decreases n - i,
    {
        proof {
            assert(chars@.take(i + 1) =~= chars@.take(i as int).push(chars@[i as int]));
            lemma_newlines_push(chars@.take(i as int), chars@[i as int]);
        }
        if chars[i] == '\n' {
            count = count + 1;
        }
        i = i + 1;
    }
    proof {
        assert(chars@.take(n as int) =~= chars@);
    }
    count
}

/// A line without the carriage return that precedes its line feed.
pub open spec fn strip_carriage_return(s: Seq<char>) -> Seq<char> {
    if s.len() > 0 && s.last() == '\r' {
        s.drop_last()
    } else {
        s
    }
}

/// The lines of a text, without their line endings. A line ends at a line feed or at a
/// carriage return and line feed; what follows the last ending is a line unless it is empty.
pub open spec fn lines(s: Seq<char>) -> Seq<Seq<char>>
    decreases s.len(),
{
    if s.len() == 0 {
        seq![]
    } else {
        let k = index_from(s, '\n', 0);
        if 0 <= k < s.len() {
            seq![strip_carriage_return(s.take(k))] + lines(s.skip(k + 1))
        } else {
            seq![s]
        }
    }
}

/// The lines of a text, in order.
pub fn split_lines(s: &str) -> (r: Vec<String>)
    ensures
        texts(r@) == lines(s@),
{
    let chars = chars_of(s);
    let n: usize = chars.len();
    let mut r: Vec<String> = Vec::new();
    let mut i: usize = 0;
    proof {
        assert(s@.skip(0) =~= s@);
        assert(texts(r@) + lines(s@) =~= lines(s@));
    }
    while i < n
        invariant
            i <= n,
            n == chars@.len(),
            chars@ == s@,
            texts(r@) + lines(s@.skip(i as int)) == lines(s@),
        decreases n - i,
    {
        let ghost rest = s@.skip(i as int);
        let ghost before = r@;
        let k: usize = find_from(chars.as_slice(), '\n', i);
        proof {
            assert forall|j: int| 0 <= j < k - i implies rest[j] != '\n' by {
                assert(rest[j] == s@[i + j]);
            }
            lemma_index_from_is(rest, '\n', 0, k - i);
            assert(rest.take(k - i) =~= s@.subrange(i as int, k as int));
        }
        if k < n {
            let mut e: usize = k;
            if e > i && chars[e - 1] == '\r' {
                e = e - 1;
            }
            let line = string_of(slice_subrange(chars.as_slice(), i, e));
            proof {
                assert(line@ =~= strip_carriage_return(rest.take(k - i)));
                assert(rest.skip(k - i + 1) =~= s@.skip(k + 1));
            }
            r.push(line);
            proof {
                assert(texts(r@) =~= texts(before).push(line@));
                assert(texts(r@) + lines(s@.skip(k + 1)) =~= texts(before) + (seq![line@]
                    + lines(s@.skip(k + 1))));
            }
            i = k + 1;
        } else {
            let line = string_of(slice_subrange(chars.as_slice(), i, n));
            r.push(line);
            proof {
                assert(line@ =~= rest);
                assert(lines(rest) =~= seq![rest]);
                assert(texts(r@) =~= texts(before).push(line@));
                assert(s@.skip(n as int).len() == 0);
                assert(texts(r@) + lines(s@.skip(n as int)) =~= texts(before) + lines(rest));
            }
            i = n;
        }
    }
    proof {
        assert(s@.skip(n as int).len() == 0);
        assert(texts(r@) + lines(s@.skip(n as int)) =~= texts(r@));
    }
    r
}

/// A decimal digit.
pub open spec fn digit(d: nat) -> char {
    if d == 0 {
        '0'
    } else if d == 1 {
        '1'
    } else if d == 2 {
        '2'
    } else if d == 3 {
        '3'
    } else if d == 4 {
        '4'
    } else if d == 5 {
        '5'
    } else if d == 6 {
        '6'
    } else if d == 7 {
        '7'
    } else if d == 8 {
        '8'
    } else {
        '9'
    }
}

/// A number in decimal notation, without leading zeros.
pub open spec fn decimal(n: nat) -> Seq<char>
    decreases n,
{
    if n < 10 {
        seq![digit(n)]
    } else {
        decimal(n / 10).push(digit(n % 10))
    }
}

/// A number in decimal notation.
pub fn decimal_text(n: u64) -> (r: String)
    ensures
        r@ == decimal(n as nat),
    decreases n,
{
    let mut r = if n < 10 {
        String::new()
    } else {
        decimal_text(n / 10)
    };
    let d: u64 = n % 10;
    let c = if d == 0 {
        '0'
    } else if d == 1 {
        '1'
    } else if d == 2 {
        '2'
    } else if d == 3 {
        '3'
    } else if d == 4 {
        '4'
    } else if d == 5 {
        '5'
    } else if d == 6 {
        '6'
    } else if d == 7 {
        '7'
    } else if d == 8 {
        '8'
    } else {
        '9'
    };
    r.push(c);
    proof {
        assert(Seq::<char>::empty().push(c) =~= seq![c]);
    }
    r
}

} // verus!
