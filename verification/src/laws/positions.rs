//! What a position of a document denotes.

use crate::bytes::slice;
use crate::context::{
    active_declaration, declaration_context, inside_attr, listed_words, semicolon_scan,
    style_context_at, value_close, value_words, words_at, Attribute,
};
use crate::cursor::{
    byte_column, chars_before, cursor, ident_byte, lines_behind, lines_joined, name_end, name_start,
    utf16_units, word_at_position,
};
use crate::laws::blocks::law_white_space;
use crate::laws::completion::law_typed_word;
use crate::pattern::{is_name_char, regex_captures, CLASS_ATTR_RE, ID_ATTR_RE, STYLE_ATTR_RE};
use crate::protocol::Position;
use crate::text::{is_white, lemma_index_from_is, lines, lowercase, words};
use vstd::prelude::*;
use vstd::utf8::encode_utf8;

verus! {

/// A line ends at its line feed, and the carriage return before it belongs to the ending; what
/// follows is read as lines of its own, and what follows the last ending is a line unless it is
/// empty.
pub proof fn law_lines(line: Seq<char>, rest: Seq<char>)
    requires
        !line.contains('\n'),
    ensures
        lines(Seq::empty()).len() == 0,
        line.len() > 0 ==> lines(line) == seq![line],
        line.len() == 0 || line.last() != '\r' ==> lines(line.push('\n') + rest) == seq![line]
            + lines(rest),
        lines(line.push('\r').push('\n') + rest) == seq![line] + lines(rest),
{
    let n = line.len() as int;
    assert forall|j: int| 0 <= j < n implies line[j] != '\n' by {
        assert(line.contains(line[j]));
    }
    lemma_index_from_is(line, '\n', 0, n);
    let s = line.push('\n') + rest;
    assert forall|j: int| 0 <= j < n implies s[j] != '\n' by {
        assert(s[j] == line[j]);
    }
    assert(s[n] == '\n');
    lemma_index_from_is(s, '\n', 0, n);
    assert(s.take(n) =~= line);
    assert(s.skip(n + 1) =~= rest);
    let t = line.push('\r').push('\n') + rest;
    assert forall|j: int| 0 <= j < n + 1 implies t[j] != '\n' by {
        if j < n {
            assert(t[j] == line[j]);
        }
    }
    assert(t[n + 1] == '\n');
    lemma_index_from_is(t, '\n', 0, n + 1);
    assert(t.take(n + 1) =~= line.push('\r'));
    assert(t.skip(n + 2) =~= rest);
    assert(line.push('\r').drop_last() =~= line);
}

/// How many UTF-16 code units a text takes: two for each character beyond the first 65536, one for
/// each other.
pub open spec fn utf16_length(s: Seq<char>) -> int
    decreases s.len(),
{
    if s.len() == 0 {
        0
    } else {
        (if s[0] as u32 >= 0x10000 {
            2int
        } else {
            1int
        }) + utf16_length(s.skip(1))
    }
}

/// A column is counted in UTF-16 code units: the characters before it are the fewest that take at
/// least as many, or all of the line.
pub proof fn law_columns(line: Seq<char>, column: int)
    requires
        0 <= column,
    ensures
        ({
            let k = chars_before(line, column);
            &&& 0 <= k <= line.len()
            &&& k == line.len() || utf16_length(line.take(k)) >= column
            &&& k > 0 ==> utf16_length(line.take(k - 1)) < column
            &&& byte_column(line, column) == encode_utf8(line.take(k)).len()
        }),
    decreases line.len(),
{
    if line.len() > 0 && column > 0 {
        let u = utf16_units(line[0]);
        let rest = line.skip(1);
        if column - u >= 0 {
            law_columns(rest, column - u);
        } else {
            assert(chars_before(rest, column - u) == 0);
        }
        let m = chars_before(rest, column - u);
        let k = m + 1;
        assert(chars_before(line, column) == k);
        assert(line.take(k)[0] == line[0]);
        assert(line.take(k).skip(1) =~= rest.take(m));
        assert(utf16_length(line.take(k)) == u + utf16_length(rest.take(m)));
        if m > 0 {
            assert(line.take(k - 1)[0] == line[0]);
            assert(line.take(k - 1).skip(1) =~= rest.take(m - 1));
            assert(utf16_length(line.take(k - 1)) == u + utf16_length(rest.take(m - 1)));
        } else {
            assert(line.take(0).len() == 0);
            assert(rest.take(0).len() == 0);
        }
    } else {
        assert(line.take(0).len() == 0);
    }
}

/// A position splits the document: its line in two, the lines above it before it, the lines below
/// behind it. There is no such place in a document with fewer lines.
pub proof fn law_positions_split_documents(text: Seq<char>, pos: Position)
    ensures
        cursor(text, pos) is Some == (pos.line < lines(text).len()),
        cursor(text, pos) is Some ==> {
            let c = cursor(text, pos)->0;
            let all = lines(text);
            let line = all[pos.line as int];
            let k = chars_before(line, pos.character as int);
            &&& c.line == line
            &&& c.col == encode_utf8(line.take(k)).len()
            &&& c.before == lines_joined(all, pos.line as int) + line.take(k)
            &&& c.behind == line.skip(k) + lines_behind(all, pos.line + 1)
        },
{
}

/// The lines above a position stand each with a line feed behind it, those below each with a line
/// feed before it.
pub proof fn law_lines_around(all: Seq<Seq<char>>, k: int)
    requires
        0 <= k < all.len(),
    ensures
        lines_joined(all, 0).len() == 0,
        lines_joined(all, k + 1) == lines_joined(all, k) + all[k] + seq!['\n'],
        lines_behind(all, all.len() as int).len() == 0,
        lines_behind(all, k) == seq!['\n'] + all[k] + lines_behind(all, k + 1),
{
    assert((lines_joined(all, k) + all[k]).push('\n') =~= lines_joined(all, k) + all[k]
        + seq!['\n']);
}

/// The bytes of a name are those of its characters: letters of the Latin alphabet, digits, `-` and
/// `_`.
pub proof fn law_name_bytes(b: u8)
    ensures
        ident_byte(b) == ((48 <= b && b <= 57) || (65 <= b && b <= 90) || (97 <= b && b <= 122) || b
            == 45 || b == 95),
{
}

/// The word at a position is the longest run of name bytes around it on its line; there is none
/// where the byte there belongs to no name.
pub proof fn law_word_at_a_position(text: Seq<char>, pos: Position, a: int, e: int)
    requires
        cursor(text, pos) is Some,
        ({
            let c = cursor(text, pos)->0;
            let b = encode_utf8(c.line);
            &&& 0 <= a <= c.col < e <= b.len()
            &&& forall|j: int| a <= j < e ==> ident_byte(#[trigger] b[j])
            &&& a == 0 || !ident_byte(b[a - 1])
            &&& e == b.len() || !ident_byte(b[e])
        }),
    ensures
        word_at_position(text, pos) == Some(slice((cursor(text, pos)->0).line, a, e)),
{
    let c = cursor(text, pos)->0;
    let b = encode_utf8(c.line);
    lemma_run_begins(b, a, c.col);
    lemma_run_ends(b, c.col, e);
    assert(ident_byte(b[c.col]));
}

proof fn lemma_run_begins(b: Seq<u8>, a: int, i: int)
    requires
        0 <= a <= i <= b.len(),
        forall|j: int| a <= j < i ==> ident_byte(#[trigger] b[j]),
        a == 0 || !ident_byte(b[a - 1]),
    ensures
        name_start(b, i) == a,
    decreases i - a,
{
    if a < i {
        assert(ident_byte(b[i - 1]));
        lemma_run_begins(b, a, i - 1);
    }
}

proof fn lemma_run_ends(b: Seq<u8>, i: int, e: int)
    requires
        0 <= i <= e <= b.len(),
        forall|j: int| i <= j < e ==> ident_byte(#[trigger] b[j]),
        e == b.len() || !ident_byte(b[e]),
    ensures
        name_end(b, i) == e,
    decreases e - i,
{
    if i < e {
        assert(ident_byte(b[i]));
        lemma_run_ends(b, i + 1, e);
    }
}

/// There is no word outside the document and where the byte at the position belongs to no name.
pub proof fn law_no_word(text: Seq<char>, pos: Position)
    ensures
        cursor(text, pos) is None ==> word_at_position(text, pos) is None,
        cursor(text, pos) is Some && ((cursor(text, pos)->0).col >= encode_utf8(
            (cursor(text, pos)->0).line,
        ).len() || !ident_byte(
            encode_utf8((cursor(text, pos)->0).line)[(cursor(text, pos)->0).col],
        )) ==> word_at_position(text, pos) is None,
{
}

/// A position lies inside a value of an attribute exactly if the last value of that attribute that
/// opens before it is not closed before it: no quote of its kind follows the opening one.
pub proof fn law_inside_values(text: Seq<char>, pos: Position, attribute: Attribute)
    requires
        cursor(text, pos) is Some,
    ensures
        ({
            let before = (cursor(text, pos)->0).before;
            let b = encode_utf8(before);
            let found = regex_captures(
                match attribute {
                    Attribute::Class => CLASS_ATTR_RE@,
                    Attribute::Id => ID_ATTR_RE@,
                    Attribute::Style => STYLE_ATTR_RE@,
                },
                before,
            );
            inside_attr(text, pos, attribute) == (found.len() > 0 && forall|j: int|
                (found.last()[0]->0).1 <= j < b.len() ==> #[trigger] b[j]
                    != b[(found.last()[1]->0).0 as int])
        }),
{
}

/// Outside the document no position lies inside a value.
pub proof fn law_outside_the_document(text: Seq<char>, pos: Position, attribute: Attribute)
    requires
        pos.line >= lines(text).len(),
    ensures
        !inside_attr(text, pos, attribute),
{
}

proof fn lemma_value_close(s: Seq<char>, quote: char, i: int, n: int)
    requires
        0 <= i <= n <= s.len(),
        forall|j: int| i <= j < n ==> #[trigger] s[j] != quote && s[j] != '<',
        n == s.len() || s[n] == quote || s[n] == '<',
    ensures
        value_close(s, quote, i) == n,
    decreases n - i,
{
    if i < n {
        assert(s[i] != quote);
        lemma_value_close(s, quote, i + 1, n);
    }
}

/// The words that a value lists are those before and behind the position, up to the closing quote
/// or the next `<`; the word being typed is left out where it stands alone. They are given in
/// lowercase.
pub proof fn law_words_of_a_value(
    head: Seq<char>,
    typed: Seq<char>,
    rest: Seq<char>,
    more: Seq<char>,
    quote: char,
)
    requires
        head.len() > 0 ==> is_white(head.last()),
        forall|i: int| 0 <= i < typed.len() ==> is_name_char(#[trigger] typed[i]),
        forall|i: int| 0 <= i < rest.len() ==> #[trigger] rest[i] != quote && rest[i] != '<',
        rest.len() > 0 ==> is_white(rest[0]),
        more.len() > 0 ==> more[0] == quote || more[0] == '<',
    ensures
        listed_words(head + typed, rest + more, quote) == words(head) + words(rest),
        value_words(head + typed, rest + more, quote).0 == (words(head) + words(rest)).map_values(
            |w: Seq<char>| lowercase(w),
        ),
        value_words(head + typed, rest + more, quote).1 == typed,
{
    let before = head + typed;
    let behind = rest + more;
    let n = rest.len() as int;
    if head.len() > 0 {
        law_white_space(head.last());
        assert(!is_name_char(head.last()));
    }
    law_typed_word(head, typed);
    assert forall|j: int| 0 <= j < n implies #[trigger] behind[j] != quote && behind[j] != '<' by {
        assert(behind[j] == rest[j]);
    }
    if more.len() > 0 {
        assert(behind[n] == more[0]);
    }
    lemma_value_close(behind, quote, 0, n);
    assert(behind.take(n) =~= rest);
    assert(before.take(before.len() - typed.len()) =~= head);
    if head.len() > 0 {
        assert(before[head.len() - 1] == head.last());
    }
}

/// Where the position stands inside a word, the whole word counts as listed.
pub proof fn law_words_around_a_position(
    before: Seq<char>,
    rest: Seq<char>,
    more: Seq<char>,
    quote: char,
)
    requires
        rest.len() > 0,
        !is_white(rest[0]),
        forall|i: int| 0 <= i < rest.len() ==> #[trigger] rest[i] != quote && rest[i] != '<',
        more.len() > 0 ==> more[0] == quote || more[0] == '<',
    ensures
        listed_words(before, rest + more, quote) == words(before + rest),
{
    let behind = rest + more;
    let n = rest.len() as int;
    assert forall|j: int| 0 <= j < n implies #[trigger] behind[j] != quote && behind[j] != '<' by {
        assert(behind[j] == rest[j]);
    }
    if more.len() > 0 {
        assert(behind[n] == more[0]);
    }
    lemma_value_close(behind, quote, 0, n);
    assert(behind.take(n) =~= rest);
}

/// The words at a position are those of the last value of the attribute that opens before it; there
/// are none where no value opens.
pub proof fn law_words_at_a_position(text: Seq<char>, pos: Position, attribute: Attribute)
    requires
        cursor(text, pos) is Some,
    ensures
        ({
            let c = cursor(text, pos)->0;
            let b = encode_utf8(c.before);
            let found = regex_captures(
                match attribute {
                    Attribute::Class => CLASS_ATTR_RE@,
                    Attribute::Id => ID_ATTR_RE@,
                    Attribute::Style => STYLE_ATTR_RE@,
                },
                c.before,
            );
            &&& found.len() == 0 ==> words_at(text, pos, attribute).0.len() == 0 && words_at(
                text,
                pos,
                attribute,
            ).1.len() == 0
            &&& found.len() > 0 ==> words_at(text, pos, attribute) == value_words(
                slice(c.before, (found.last()[0]->0).1 as int, b.len() as int),
                c.behind,
                if b[(found.last()[1]->0).0 as int] == 0x22 {
                    '"'
                } else {
                    '\''
                },
            )
        }),
{
}

/// A text without quotes and semicolons.
pub open spec fn is_quiet(s: Seq<char>) -> bool {
    forall|i: int| 0 <= i < s.len() ==> #[trigger] s[i] != ';' && s[i] != '\'' && s[i] != '"'
}

proof fn lemma_scan_quiet(s: Seq<char>, a: int, n: int)
    requires
        0 <= a <= n <= s.len(),
        semicolon_scan(s, a).0 is None,
        forall|i: int| a <= i < n ==> #[trigger] s[i] != ';' && s[i] != '\'' && s[i] != '"',
    ensures
        semicolon_scan(s, n) == semicolon_scan(s, a),
    decreases n - a,
{
    if a < n {
        lemma_scan_quiet(s, a, n - 1);
        assert(s[n - 1] != ';');
    }
}

proof fn lemma_scan_string(s: Seq<char>, a: int, n: int, quote: char)
    requires
        0 <= a <= n <= s.len(),
        semicolon_scan(s, a).0 == Some(quote),
        forall|i: int| a <= i < n ==> #[trigger] s[i] != quote,
    ensures
        semicolon_scan(s, n) == semicolon_scan(s, a),
    decreases n - a,
{
    if a < n {
        lemma_scan_string(s, a, n - 1, quote);
        assert(s[n - 1] != quote);
    }
}

/// The declaration being written is what follows the last semicolon; a semicolon in a string does
/// not count.
pub proof fn law_active_declaration(
    before: Seq<char>,
    head: Seq<char>,
    quote: char,
    text: Seq<char>,
    tail: Seq<char>,
)
    requires
        is_quiet(before),
        is_quiet(head),
        is_quiet(tail),
        quote == '"' || quote == '\'',
        forall|i: int| 0 <= i < text.len() ==> #[trigger] text[i] != quote,
    ensures
        active_declaration(head) == head,
        active_declaration(before + seq![';'] + head) == head,
        active_declaration(before + seq![';'] + (head + seq![quote] + text + seq![quote] + tail))
            == head + seq![quote] + text + seq![quote] + tail,
{
    lemma_scan_quiet(head, 0, head.len() as int);
    let n = before.len() as int;
    let s = before + seq![';'] + head;
    assert forall|i: int| 0 <= i < n implies #[trigger] s[i] != ';' && s[i] != '\'' && s[i]
        != '"' by {
        assert(s[i] == before[i]);
    }
    lemma_scan_quiet(s, 0, n);
    assert(s[n] == ';');
    assert(semicolon_scan(s, n + 1) == (None::<char>, Some(n)));
    assert forall|i: int| n + 1 <= i < s.len() implies #[trigger] s[i] != ';' && s[i] != '\''
        && s[i] != '"' by {
        assert(s[i] == head[i - (n + 1)]);
    }
    lemma_scan_quiet(s, n + 1, s.len() as int);
    assert(s.skip(n + 1) =~= head);
    let active = head + seq![quote] + text + seq![quote] + tail;
    let t = before + seq![';'] + active;
    assert forall|i: int| 0 <= i < n implies #[trigger] t[i] != ';' && t[i] != '\'' && t[i]
        != '"' by {
        assert(t[i] == before[i]);
    }
    lemma_scan_quiet(t, 0, n);
    assert(t[n] == ';');
    assert(semicolon_scan(t, n + 1) == (None::<char>, Some(n)));
    let q = n + 1 + head.len();
    assert forall|i: int| n + 1 <= i < q implies #[trigger] t[i] != ';' && t[i] != '\'' && t[i]
        != '"' by {
        assert(t[i] == head[i - (n + 1)]);
    }
    lemma_scan_quiet(t, n + 1, q);
    assert(t[q] == quote);
    assert(semicolon_scan(t, q + 1) == (Some(quote), Some(n)));
    let r = q + 1 + text.len();
    assert forall|i: int| q + 1 <= i < r implies #[trigger] t[i] != quote by {
        assert(t[i] == text[i - (q + 1)]);
    }
    lemma_scan_string(t, q + 1, r, quote);
    assert(t[r] == quote);
    assert(semicolon_scan(t, r + 1) == (None::<char>, Some(n)));
    assert forall|i: int| r + 1 <= i < t.len() implies #[trigger] t[i] != ';' && t[i] != '\''
        && t[i] != '"' by {
        assert(t[i] == tail[i - (r + 1)]);
    }
    lemma_scan_quiet(t, r + 1, t.len() as int);
    assert(t.skip(n + 1) =~= active);
}

/// The context of a position in a `style` value is that of the declaration being written there, in
/// the last such value that opens before it.
pub proof fn law_style_contexts(text: Seq<char>, pos: Position)
    ensures
        cursor(text, pos) is None ==> style_context_at(text, pos) is Outside,
        cursor(text, pos) is Some ==> {
            let before = (cursor(text, pos)->0).before;
            let found = regex_captures(STYLE_ATTR_RE@, before);
            &&& found.len() == 0 ==> style_context_at(text, pos) is Outside
            &&& found.len() > 0 ==> style_context_at(text, pos) == declaration_context(
                active_declaration(
                    slice(
                        before,
                        (found.last()[0]->0).1 as int,
                        encode_utf8(before).len() as int,
                    ),
                ),
            )
        },
{
}

} // verus!
