//! What stands at a position of a document: the attribute around it, the word under it and the text
//! before it.

use crate::bytes::{
    boundary, lemma_boundary_ascii, lemma_boundary_ends, lemma_slice_bytes, slice, slice_text,
};
use crate::model::opt_text;
use crate::pattern::is_name_char;
use crate::protocol::Position;
use crate::text::{chars_of, lines, split_lines, string_of, texts};
use vstd::prelude::*;
use vstd::slice::slice_subrange;
use vstd::string::StringExecFns;
use vstd::utf8::{
    encode_scalar, encode_utf8, encode_utf8_valid_utf8,
    is_char_boundary_iff_not_is_continuation_byte, is_char_boundary_start_end_of_seq,
};

verus! {

/// How many UTF-16 code units a character takes.
pub open spec fn utf16_units(c: char) -> int {
    if c as u32 > 0xffff {
        2
    } else {
        1
    }
}

/// How many characters of a line stand before a column counted in UTF-16 code units.
pub open spec fn chars_before(line: Seq<char>, column: int) -> int
    decreases line.len(),
{
    if line.len() == 0 || column <= 0 {
        0
    } else {
        1 + chars_before(line.skip(1), column - utf16_units(line[0]))
    }
}

/// The byte offset of a column counted in UTF-16 code units.
pub open spec fn byte_column(line: Seq<char>, column: int) -> int {
    encode_utf8(line.take(chars_before(line, column))).len() as int
}

pub proof fn lemma_chars_before(line: Seq<char>, column: int)
    ensures
        0 <= chars_before(line, column) <= line.len(),
    decreases line.len(),
{
    if line.len() > 0 && column > 0 {
        lemma_chars_before(line.skip(1), column - utf16_units(line[0]));
    }
}

/// The encoding of two texts in a row is that of the first followed by that of the second.
pub proof fn lemma_encode_concat(a: Seq<char>, b: Seq<char>)
    ensures
        encode_utf8(a + b) == encode_utf8(a) + encode_utf8(b),
    decreases a.len(),
{
    if a.len() == 0 {
        assert(a + b =~= b);
        assert(encode_utf8(a) + encode_utf8(b) =~= encode_utf8(b));
    } else {
        assert((a + b).drop_first() =~= a.drop_first() + b);
        lemma_encode_concat(a.drop_first(), b);
        assert(encode_scalar(a[0] as u32) + (encode_utf8(a.drop_first()) + encode_utf8(b))
            =~= encode_utf8(a) + encode_utf8(b));
    }
}

/// The end of the first `k` characters of a line lies between characters.
pub proof fn lemma_prefix_boundary(line: Seq<char>, k: int)
    requires
        0 <= k <= line.len(),
    ensures
        boundary(line, encode_utf8(line.take(k)).len() as int),
        slice(line, 0, encode_utf8(line.take(k)).len() as int) == line.take(k),
        slice(line, encode_utf8(line.take(k)).len() as int, encode_utf8(line).len() as int)
            == line.skip(k),
{
    let head = line.take(k);
    let tail = line.skip(k);
    let all = encode_utf8(line);
    assert(head + tail =~= line);
    lemma_encode_concat(head, tail);
    let m = encode_utf8(head).len() as int;
    encode_utf8_valid_utf8(line);
    encode_utf8_valid_utf8(tail);
    is_char_boundary_start_end_of_seq(all);
    is_char_boundary_start_end_of_seq(encode_utf8(tail));
    if m < all.len() {
        is_char_boundary_iff_not_is_continuation_byte(encode_utf8(tail), 0);
        assert(encode_utf8(tail)[0] == all[m]);
        is_char_boundary_iff_not_is_continuation_byte(all, m);
    }
    assert(all.subrange(0, m) =~= encode_utf8(head));
    assert(all.subrange(m, all.len() as int) =~= encode_utf8(tail));
    vstd::utf8::encode_utf8_decode_utf8(head);
    vstd::utf8::encode_utf8_decode_utf8(tail);
}

/// How many bytes the encoding of a character has.
fn utf8_len(c: char) -> (r: usize)
    ensures
        r == encode_scalar(c as u32).len(),
        1 <= r <= 4,
{
    let u: u32 = c as u32;
    proof {
        vstd::utf8::char_is_scalar(c);
    }
    if u < 0x80 {
        1
    } else if u < 0x800 {
        2
    } else if u < 0x10000 {
        3
    } else {
        4
    }
}

/// Converts a column counted in UTF-16 code units to a byte offset into the line. The offset always
/// lies between characters.
pub fn utf16_offset_to_byte(line: &str, utf16_col: usize) -> (r: usize)
    ensures
        r == byte_column(line@, utf16_col as int),
        boundary(line@, r as int),
{
    let chars = chars_of(line);
    let total: usize = line.as_bytes().len();
    let n: usize = chars.len();
    let mut left: usize = utf16_col;
    let mut at: usize = 0;
    let mut i: usize = 0;
    proof {
        assert(line@.take(0).len() == 0);
        assert(line@.skip(0) =~= line@);
        lemma_chars_before(line@, utf16_col as int);
    }
    while i < n && left > 0
        invariant
            i <= n,
            n == chars@.len(),
            chars@ == line@,
            total == encode_utf8(line@).len(),
            at == encode_utf8(line@.take(i as int)).len(),
            chars_before(line@, utf16_col as int) == i + chars_before(
                line@.skip(i as int),
                left as int,
            ),
        decreases n - i,
    {
        let c = chars[i];
        proof {
            assert(line@.skip(i as int)[0] == c);
            assert(line@.skip(i as int).skip(1) =~= line@.skip(i + 1));
            assert(line@.take(i + 1) =~= line@.take(i as int) + seq![c]);
            lemma_encode_concat(line@.take(i as int), seq![c]);
            assert(seq![c].drop_first() =~= seq![]);
            assert(encode_utf8(seq![c]) =~= encode_scalar(c as u32) + encode_utf8(seq![]));
            assert(encode_utf8(seq![c]).len() == encode_scalar(c as u32).len());
            assert(line@.take(i + 1) + line@.skip(i + 1) =~= line@);
            lemma_encode_concat(line@.take(i + 1), line@.skip(i + 1));
            lemma_chars_before(line@.skip(i + 1), left - utf16_units(c));
            if left == 1 && utf16_units(c) == 2 {
                assert(chars_before(line@.skip(i + 1), -1) == 0);
                assert(chars_before(line@.skip(i + 1), 0) == 0);
            }
        }
        at = at + utf8_len(c);
        if c as u32 > 0xffff && left >= 2 {
            left = left - 2;
        } else {
            left = left - 1;
        }
        i = i + 1;
    }
    proof {
        lemma_prefix_boundary(line@, i as int);
    }
    at
}

/// A place in a document: the text before it, the text behind it, its line, and its byte offset
/// into the line.
pub struct Cursor {
    pub before: String,
    pub behind: String,
    pub line: String,
    pub col: usize,
}

/// What a `Cursor` says.
#[verifier::ext_equal]
pub ghost struct CursorView {
    pub before: Seq<char>,
    pub behind: Seq<char>,
    pub line: Seq<char>,
    pub col: int,
}

impl DeepView for Cursor {
    type V = CursorView;

    open spec fn deep_view(&self) -> CursorView {
        CursorView {
            before: self.before@,
            behind: self.behind@,
            line: self.line@,
            col: self.col as int,
        }
    }
}

/// The first `k` lines, each followed by a line feed.
pub open spec fn lines_joined(lines: Seq<Seq<char>>, k: int) -> Seq<char>
    decreases k,
{
    if k <= 0 {
        seq![]
    } else {
        (lines_joined(lines, k - 1) + lines[k - 1]).push('\n')
    }
}

/// The lines from number `k` on, each after a line feed.
pub open spec fn lines_behind(lines: Seq<Seq<char>>, k: int) -> Seq<char>
    decreases lines.len() - k,
{
    if k >= lines.len() {
        seq![]
    } else {
        seq!['\n'] + lines[k] + lines_behind(lines, k + 1)
    }
}

/// The place that a position denotes; none if the document has no such line. A column behind the
/// end of its line stands for the end.
pub open spec fn cursor(text: Seq<char>, pos: Position) -> Option<CursorView> {
    let all = lines(text);
    if pos.line < all.len() {
        let line = all[pos.line as int];
        Some(
            CursorView {
                before: lines_joined(all, pos.line as int) + line.take(
                    chars_before(line, pos.character as int),
                ),
                behind: line.skip(chars_before(line, pos.character as int)) + lines_behind(
                    all,
                    pos.line + 1,
                ),
                line,
                col: byte_column(line, pos.character as int),
            },
        )
    } else {
        None
    }
}

/// The place that a position denotes.
pub fn cursor_context(text: &str, pos: Position) -> (r: Option<Cursor>)
    ensures
        r is Some == (cursor(text@, pos) is Some),
        r is Some ==> (r->0).deep_view() == cursor(text@, pos)->0 && boundary(
            (r->0).line@,
            (r->0).col as int,
        ),
{
    let all = split_lines(text);
    let at: usize = pos.line as usize;
    if at >= all.len() {
        return None;
    }
    let mut before = String::new();
    let mut i: usize = 0;
    while i < at
        invariant
            i <= at,
            at < all@.len(),
            before@ == lines_joined(texts(all@), i as int),
        decreases at - i,
    {
        before.append(all[i].as_str());
        before.push('\n');
        i = i + 1;
    }
    let line = all[at].clone();
    let col: usize = utf16_offset_to_byte(line.as_str(), pos.character as usize);
    proof {
        lemma_chars_before(line@, pos.character as int);
        lemma_prefix_boundary(line@, chars_before(line@, pos.character as int));
        lemma_boundary_ends(line@);
    }
    let head = slice_text(line.as_str(), 0, col);
    before.append(head.as_str());
    let end: usize = line.as_str().as_bytes().len();
    let mut behind = slice_text(line.as_str(), col, end);
    let n: usize = all.len();
    let mut j: usize = at + 1;
    let ghost whole = behind@ + lines_behind(texts(all@), at + 1);
    while j < n
        invariant
            at < j <= n,
            n == all@.len(),
            behind@ + lines_behind(texts(all@), j as int) == whole,
        decreases n - j,
    {
        let ghost done = behind@;
        behind.push('\n');
        behind.append(all[j].as_str());
        proof {
            let rest = lines_behind(texts(all@), j + 1);
            assert(behind@ + rest =~= done + (seq!['\n'] + all@[j as int]@ + rest));
        }
        j = j + 1;
    }
    proof {
        assert(behind@ + Seq::<char>::empty() =~= behind@);
    }
    Some(Cursor { before, behind, line, col })
}

/// Whether a byte is that of a name character.
pub open spec fn ident_byte(b: u8) -> bool {
    (0x30 <= b <= 0x39) || (0x41 <= b <= 0x5a) || (0x61 <= b <= 0x7a) || b == 0x2d || b == 0x5f
}

/// Whether a byte is that of a name character.
pub fn is_ident_byte(b: u8) -> (r: bool)
    ensures
        r == ident_byte(b),
{
    (0x30 <= b && b <= 0x39) || (0x41 <= b && b <= 0x5a) || (0x61 <= b && b <= 0x7a) || b == 0x2d
        || b == 0x5f
}

/// Where the run of name bytes begins that ends before `i`.
pub open spec fn name_start(b: Seq<u8>, i: int) -> int
    decreases i,
{
    if i <= 0 {
        0
    } else if ident_byte(b[i - 1]) {
        name_start(b, i - 1)
    } else {
        i
    }
}

/// Where the run of name bytes ends that begins at `i`.
pub open spec fn name_end(b: Seq<u8>, i: int) -> int
    decreases b.len() - i,
{
    if i >= b.len() {
        b.len() as int
    } else if ident_byte(b[i]) {
        name_end(b, i + 1)
    } else {
        i
    }
}

/// The longest run of name characters around a byte offset; none if no name character stands there.
pub open spec fn word_around(line: Seq<char>, col: int) -> Option<Seq<char>> {
    let b = encode_utf8(line);
    if 0 <= col < b.len() && ident_byte(b[col]) {
        Some(slice(line, name_start(b, col), name_end(b, col)))
    } else {
        None
    }
}

/// The run around a name byte holds name bytes only and cannot be made longer.
pub proof fn law_word_is_longest(line: Seq<char>, col: int)
    requires
        0 <= col < encode_utf8(line).len(),
        ident_byte(encode_utf8(line)[col]),
    ensures
        ({
            let b = encode_utf8(line);
            let s = name_start(b, col);
            let e = name_end(b, col);
            &&& 0 <= s <= col < e <= b.len()
            &&& forall|j: int| s <= j < e ==> ident_byte(#[trigger] b[j])
            &&& s == 0 || !ident_byte(b[s - 1])
            &&& e == b.len() || !ident_byte(b[e])
            &&& encode_utf8(word_around(line, col)->0) == b.subrange(s, e)
        }),
{
    let b = encode_utf8(line);
    lemma_name_start(b, col);
    lemma_name_end(b, col);
    let s = name_start(b, col);
    let e = name_end(b, col);
    lemma_word_boundaries(line, col);
    lemma_slice_bytes(line, s, e);
}

proof fn lemma_word_boundaries(line: Seq<char>, col: int)
    requires
        0 <= col < encode_utf8(line).len(),
        ident_byte(encode_utf8(line)[col]),
    ensures
        boundary(line, name_start(encode_utf8(line), col)),
        boundary(line, name_end(encode_utf8(line), col)),
        name_start(encode_utf8(line), col) <= name_end(encode_utf8(line), col),
{
    let b = encode_utf8(line);
    lemma_name_start(b, col);
    lemma_name_end(b, col);
    let s = name_start(b, col);
    let e = name_end(b, col);
    assert(ident_byte(b[s]));
    assert(ident_byte(b[e - 1]));
    lemma_boundary_ascii(line, s);
    lemma_boundary_ascii(line, e - 1);
}

proof fn lemma_name_start(b: Seq<u8>, i: int)
    requires
        0 <= i <= b.len(),
    ensures
        0 <= name_start(b, i) <= i,
        forall|j: int| name_start(b, i) <= j < i ==> ident_byte(#[trigger] b[j]),
        name_start(b, i) == 0 || !ident_byte(b[name_start(b, i) - 1]),
    decreases i,
{
    if i > 0 && ident_byte(b[i - 1]) {
        lemma_name_start(b, i - 1);
    }
}

proof fn lemma_name_end(b: Seq<u8>, i: int)
    requires
        0 <= i <= b.len(),
    ensures
        i <= name_end(b, i) <= b.len(),
        i < b.len() && ident_byte(b[i]) ==> i < name_end(b, i),
        forall|j: int| i <= j < name_end(b, i) ==> ident_byte(#[trigger] b[j]),
        name_end(b, i) == b.len() || !ident_byte(b[name_end(b, i)]),
    decreases b.len() - i,
{
    if i < b.len() && ident_byte(b[i]) {
        lemma_name_end(b, i + 1);
    }
}

/// The word around a byte offset of a line.
pub fn word_at_ctx(line: &str, col: usize) -> (r: Option<String>)
    ensures
        opt_text(r) == word_around(line@, col as int),
{
    let b = line.as_bytes();
    let n: usize = b.len();
    if col >= n || !is_ident_byte(b[col]) {
        return None;
    }
    let mut start: usize = col;
    while start > 0 && is_ident_byte(b[start - 1])
        invariant
            start <= col < b@.len(),
            name_start(b@, col as int) == name_start(b@, start as int),
        decreases start,
    {
        start = start - 1;
    }
    let mut end: usize = col;
    while end < n && is_ident_byte(b[end])
        invariant
            col <= end <= n,
            n == b@.len(),
            name_end(b@, col as int) == name_end(b@, end as int),
        decreases n - end,
    {
        end = end + 1;
    }
    proof {
        lemma_word_boundaries(line@, col as int);
    }
    Some(slice_text(line, start, end))
}

/// The word at a position of a document.
pub open spec fn word_at_position(text: Seq<char>, pos: Position) -> Option<Seq<char>> {
    match cursor(text, pos) {
        Some(c) => word_around(c.line, c.col),
        None => None,
    }
}

/// The word at a position of a document.
pub fn word_at(text: &str, pos: Position) -> (r: Option<String>)
    ensures
        opt_text(r) == word_at_position(text@, pos),
{
    match cursor_context(text, pos) {
        Some(c) => word_at_ctx(c.line.as_str(), c.col),
        None => None,
    }
}

/// A safe CSS identifier: name characters only, the first of them no digit.
pub open spec fn valid_css_ident(s: Seq<char>) -> bool {
    &&& s.len() > 0
    &&& !('0' <= s[0] <= '9')
    &&& forall|i: int| 0 <= i < s.len() ==> is_name_char(#[trigger] s[i])
}

/// Whether a character can stand in a name.
pub fn name_char(c: char) -> (r: bool)
    ensures
        r == is_name_char(c),
{
    ('a' <= c && c <= 'z') || ('A' <= c && c <= 'Z') || ('0' <= c && c <= '9') || c == '-' || c
        == '_'
}

/// Whether a text is a safe CSS identifier. Names that are written into a file are held to this.
pub fn is_valid_css_ident(s: &str) -> (r: bool)
    ensures
        r == valid_css_ident(s@),
{
    let chars = chars_of(s);
    let n: usize = chars.len();
    if n == 0 || ('0' <= chars[0] && chars[0] <= '9') {
        return false;
    }
    let mut i: usize = 0;
    while i < n
        invariant
            i <= n,
            n == chars@.len(),
            chars@ == s@,
            forall|j: int| 0 <= j < i ==> is_name_char(#[trigger] s@[j]),
        decreases n - i,
    {
        if !name_char(chars[i]) {
            return false;
        }
        i = i + 1;
    }
    true
}

/// The name characters that a text ends with.
pub open spec fn name_tail(s: Seq<char>) -> Seq<char>
    decreases s.len(),
{
    if s.len() > 0 && is_name_char(s.last()) {
        name_tail(s.drop_last()).push(s.last())
    } else {
        seq![]
    }
}

/// The name characters that a text ends with.
pub fn extract_prefix(s: &str) -> (r: String)
    ensures
        r@ == name_tail(s@),
{
    let chars = chars_of(s);
    let n: usize = chars.len();
    let mut i: usize = n;
    proof {
        assert(s@.take(n as int) =~= s@);
        assert(name_tail(s@) + s@.skip(n as int) =~= name_tail(s@));
    }
    while i > 0 && name_char(chars[i - 1])
        invariant
            i <= n,
            n == chars@.len(),
            chars@ == s@,
            name_tail(s@) == name_tail(s@.take(i as int)) + s@.skip(i as int),
        decreases i,
    {
        proof {
            let head = s@.take(i as int);
            assert(head.drop_last() =~= s@.take(i - 1));
            assert(name_tail(head.drop_last()).push(head.last()) + s@.skip(i as int) =~= name_tail(
                s@.take(i - 1),
            ) + s@.skip(i - 1));
        }
        i = i - 1;
    }
    let r = string_of(slice_subrange(chars.as_slice(), i, n));
    proof {
        assert(name_tail(s@.take(i as int)) =~= seq![]);
        assert(r@ =~= s@.skip(i as int));
        assert(seq![] + s@.skip(i as int) =~= s@.skip(i as int));
    }
    r
}

/// The text to insert for a name at a byte offset of a line: a space keeps it apart from name
/// characters on either side.
pub open spec fn insert_text(name: Seq<char>, line: Seq<char>, col: int) -> Seq<char> {
    let b = encode_utf8(line);
    let left = if 0 < col <= b.len() && ident_byte(b[col - 1]) {
        " "@
    } else {
        seq![]
    };
    let right = if 0 <= col < b.len() && ident_byte(b[col]) {
        " "@
    } else {
        seq![]
    };
    left + name + right
}

/// The text to insert for a name at a byte offset of a line.
pub fn build_insert_text(name: &str, line: &str, col: usize) -> (r: String)
    ensures
        r@ == insert_text(name@, line@, col as int),
{
    let b = line.as_bytes();
    let n: usize = b.len();
    let mut r = String::new();
    if 0 < col && col <= n && is_ident_byte(b[col - 1]) {
        r.append(" ");
        proof {
            assert(Seq::<char>::empty() + " "@ =~= " "@);
        }
    }
    r.append(name);
    if col < n && is_ident_byte(b[col]) {
        r.append(" ");
    }
    proof {
        assert(r@ =~= insert_text(name@, line@, col as int));
    }
    r
}

/// Inserted names do not run into name characters: a space stands on either side where one is next
/// to the position, and nowhere else.
pub proof fn law_inserted_names_stay_apart(name: Seq<char>, line: Seq<char>, col: int)
    requires
        0 <= col <= encode_utf8(line).len(),
    ensures
        ({
            let b = encode_utf8(line);
            let left = col > 0 && ident_byte(b[col - 1]);
            let right = col < b.len() && ident_byte(b[col]);
            &&& left && right ==> insert_text(name, line, col) == " "@ + name + " "@
            &&& left && !right ==> insert_text(name, line, col) == " "@ + name
            &&& !left && right ==> insert_text(name, line, col) == name + " "@
            &&& !left && !right ==> insert_text(name, line, col) == name
        }),
{
    let all = insert_text(name, line, col);
    assert(Seq::<char>::empty() + name =~= name);
    assert(name + Seq::<char>::empty() =~= name);
    assert(" "@ + name + Seq::<char>::empty() =~= " "@ + name);
}

} // verus!
