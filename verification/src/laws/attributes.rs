//! Classes that an attribute lists more than once.

use crate::bytes::slice;
use crate::duplicates::{
    check_continuation, check_line, check_lines, check_matches, check_tokens, duplicate_classes,
    law_repetitions_are_flagged, token_names,
};
use crate::html::{
    continuation_end, is_separator, is_token, lemma_token_end, lemma_tokens, names_end, token_end,
    tokens, value_stop, Groups,
};
use crate::laws::documents::{
    first_end, is_name_in, lemma_first_end, lemma_name_is_token, nothing_ends_it,
};
use crate::laws::navigation::lemma_concat_contains;
use crate::laws::remarks::ours;
use crate::pattern::{regex_captures, whole, CLASS_ATTR_RE};
use crate::protocol::{DiagnosticView, Position, Range, Severity};
use crate::text::lines;
use vstd::prelude::*;
use vstd::utf8::encode_utf8;

verus! {

/// The warning that the name between two columns of a line is listed already.
pub open spec fn listed_already(line: Seq<char>, num: u32, a: int, e: int) -> DiagnosticView {
    ours(
        Range {
            start: Position { line: num, character: a as u32 },
            end: Position { line: num, character: e as u32 },
        },
        Severity::Warning,
        "class '"@ + slice(line, a, e) + "' is already listed in this attribute"@,
    )
}

proof fn lemma_tokens_ascend(b: Seq<u8>, from: int, end: int, i: int, j: int)
    requires
        0 <= from <= end <= b.len(),
        0 <= i < j < tokens(b, from, end).len(),
    ensures
        tokens(b, from, end)[i].0 < tokens(b, from, end)[j].0,
    decreases end - from,
{
    let all = tokens(b, from, end);
    if from < end {
        if is_separator(b[from]) {
            lemma_tokens_ascend(b, from + 1, end, i, j);
        } else {
            lemma_token_end(b, from, end);
            let e = token_end(b, from, end);
            let rest = tokens(b, e, end);
            lemma_tokens(b, e, end);
            assert(all[j] == rest[j - 1]);
            if i == 0 {
                assert(all[0] == (from, e));
                assert(is_token(b, e, end, rest[j - 1]));
            } else {
                assert(all[i] == rest[i - 1]);
                lemma_tokens_ascend(b, e, end, i - 1, j - 1);
            }
        }
    }
}

proof fn lemma_check_keeps(
    line: Seq<char>,
    num: u32,
    toks: Seq<(int, int)>,
    seen: Seq<Seq<char>>,
    j: int,
    d: DiagnosticView,
)
    requires
        0 <= j <= toks.len(),
        check_tokens(line, num, toks.take(j), seen).1.contains(d),
    ensures
        check_tokens(line, num, toks, seen).1.contains(d),
    decreases toks.len() - j,
{
    if j == toks.len() {
        assert(toks.take(j) =~= toks);
    } else {
        let before = check_tokens(line, num, toks.take(j), seen).1;
        assert(toks.take(j + 1).drop_last() =~= toks.take(j));
        let after = check_tokens(line, num, toks.take(j + 1), seen).1;
        let i = choose|i: int| 0 <= i < before.len() && before[i] == d;
        assert(after[i] == d);
        lemma_check_keeps(line, num, toks, seen, j + 1, d);
    }
}

/// A token whose name was seen before is flagged.
proof fn lemma_flagged(
    line: Seq<char>,
    num: u32,
    toks: Seq<(int, int)>,
    seen: Seq<Seq<char>>,
    j: int,
)
    requires
        0 <= j < toks.len(),
        seen.contains(slice(line, toks[j].0, toks[j].1)) || exists|i: int|
            0 <= i < j && slice(line, (#[trigger] toks[i]).0, toks[i].1) == slice(
                line,
                toks[j].0,
                toks[j].1,
            ),
    ensures
        check_tokens(line, num, toks, seen).1.contains(
            listed_already(line, num, toks[j].0, toks[j].1),
        ),
{
    let head = toks.take(j);
    let name = slice(line, toks[j].0, toks[j].1);
    law_repetitions_are_flagged(line, num, head, seen);
    let before = check_tokens(line, num, head, seen);
    let names = token_names(line, head);
    if !seen.contains(name) {
        let i = choose|i: int|
            0 <= i < j && slice(line, (#[trigger] toks[i]).0, toks[i].1) == name;
        assert(head[i] == toks[i]);
        assert(names[i] == name);
        assert(names.contains(name));
    }
    assert(before.0.contains(name));
    assert(toks.take(j + 1).drop_last() =~= head);
    assert(toks.take(j + 1).last() == toks[j]);
    let after = check_tokens(line, num, toks.take(j + 1), seen);
    let d = listed_already(line, num, toks[j].0, toks[j].1);
    assert(after.1.last() == d);
    assert(after.1[after.1.len() - 1] == d);
    lemma_check_keeps(line, num, toks, seen, j + 1, d);
}

/// In a value a name that stands a second time is flagged, and so is one that an earlier line of
/// the value lists.
proof fn lemma_value_flags(
    line: Seq<char>,
    num: u32,
    from: int,
    end: int,
    seen: Seq<Seq<char>>,
    a1: int,
    e1: int,
    a2: int,
    e2: int,
)
    requires
        0 <= from <= end <= encode_utf8(line).len(),
        is_name_in(encode_utf8(line), from, end, a2, e2),
        seen.contains(slice(line, a2, e2)) || (is_name_in(encode_utf8(line), from, end, a1, e1)
            && a1 < a2 && slice(line, a1, e1) == slice(line, a2, e2)),
    ensures
        check_tokens(line, num, tokens(encode_utf8(line), from, end), seen).1.contains(
            listed_already(line, num, a2, e2),
        ),
{
    let b = encode_utf8(line);
    let toks = tokens(b, from, end);
    lemma_name_is_token(b, from, end, a2, e2);
    let j = choose|j: int| 0 <= j < toks.len() && toks[j] == (a2, e2);
    if !seen.contains(slice(line, a2, e2)) {
        lemma_name_is_token(b, from, end, a1, e1);
        let i = choose|i: int| 0 <= i < toks.len() && toks[i] == (a1, e1);
        if j < i {
            lemma_tokens_ascend(b, from, end, j, i);
        }
        assert(slice(line, toks[i].0, toks[i].1) == slice(line, toks[j].0, toks[j].1));
    }
    lemma_flagged(line, num, toks, seen, j);
}

/// In each `class` value that opens on a line, wherever on the line, a name that stands a second
/// time is flagged there.
pub proof fn law_repetitions_in_a_value(
    line: Seq<char>,
    num: u32,
    from: int,
    matches: Seq<Groups>,
    m: int,
    a1: int,
    e1: int,
    a2: int,
    e2: int,
)
    requires
        0 <= m < matches.len(),
        ({
            let b = encode_utf8(line);
            let start = from + whole(matches[m]).1;
            let quote = b[start - 1];
            let end = names_end(b, start, value_stop(b, start, quote), quote);
            &&& 0 <= start <= end <= b.len()
            &&& is_name_in(b, start, end, a1, e1)
            &&& is_name_in(b, start, end, a2, e2)
            &&& a1 < a2
            &&& slice(line, a1, e1) == slice(line, a2, e2)
        }),
    ensures
        check_matches(line, num, from, matches).1.contains(listed_already(line, num, a2, e2)),
    decreases matches.len(),
{
    let head = check_matches(line, num, from, matches.drop_last()).1;
    let b = encode_utf8(line);
    let start = from + whole(matches.last()).1;
    let quote = b[start - 1];
    let end = names_end(b, start, value_stop(b, start, quote), quote);
    let here = check_tokens(line, num, tokens(b, start, end), seq![]).1;
    lemma_concat_contains(head, here, listed_already(line, num, a2, e2));
    if m == matches.len() - 1 {
        lemma_value_flags(line, num, start, end, seq![], a1, e1, a2, e2);
    } else {
        assert(matches.drop_last()[m] == matches[m]);
        law_repetitions_in_a_value(line, num, from, matches.drop_last(), m, a1, e1, a2, e2);
    }
}

/// A value that goes on below its first line is one attribute: on the next line a name is flagged
/// that an earlier line of the value lists, or that stands a second time.
pub proof fn law_repetitions_below(
    line: Seq<char>,
    num: u32,
    quote: u8,
    seen: Seq<Seq<char>>,
    a1: int,
    e1: int,
    a2: int,
    e2: int,
)
    requires
        0 <= continuation_end(line, quote) <= encode_utf8(line).len(),
        is_name_in(encode_utf8(line), 0, continuation_end(line, quote), a2, e2),
        seen.contains(slice(line, a2, e2)) || (is_name_in(
            encode_utf8(line),
            0,
            continuation_end(line, quote),
            a1,
            e1,
        ) && a1 < a2 && slice(line, a1, e1) == slice(line, a2, e2)),
    ensures
        check_line(line, num, Some((quote, seen))).1.contains(listed_already(line, num, a2, e2)),
{
    let n = encode_utf8(line).len() as int;
    let d = listed_already(line, num, a2, e2);
    lemma_value_flags(line, num, 0, continuation_end(line, quote), seen, a1, e1, a2, e2);
    let head = check_continuation(line, num, quote, seen);
    let rest = check_matches(
        line,
        num,
        head.2,
        regex_captures(CLASS_ATTR_RE@, slice(line, head.2, n)),
    );
    lemma_concat_contains(head.1, rest.1, d);
}

/// What is carried to the next line: where nothing ends the value that opens last, its quote and
/// all the names that it lists.
pub proof fn law_names_are_carried_on(
    line: Seq<char>,
    num: u32,
    from: int,
    matches: Seq<Groups>,
    a: int,
    e: int,
)
    requires
        matches.len() > 0,
        0 <= from + whole(matches.last()).1 <= encode_utf8(line).len(),
        nothing_ends_it(
            encode_utf8(line),
            from + whole(matches.last()).1,
            encode_utf8(line)[from + whole(matches.last()).1 - 1],
        ),
        is_name_in(
            encode_utf8(line),
            from + whole(matches.last()).1,
            encode_utf8(line).len() as int,
            a,
            e,
        ),
    ensures
        check_matches(line, num, from, matches).0 is Some,
        (check_matches(line, num, from, matches).0->0).0 == encode_utf8(line)[from + whole(
            matches.last(),
        ).1 - 1],
        (check_matches(line, num, from, matches).0->0).1.contains(slice(line, a, e)),
{
    let b = encode_utf8(line);
    let start = from + whole(matches.last()).1;
    let quote = b[start - 1];
    let n = b.len() as int;
    assert(first_end(b, start, quote, n));
    lemma_first_end(b, start, quote, n);
    assert(names_end(b, start, n, quote) == n);
    let toks = tokens(b, start, n);
    lemma_name_is_token(b, start, n, a, e);
    law_repetitions_are_flagged(line, num, toks, seq![]);
    let j = choose|j: int| 0 <= j < toks.len() && toks[j] == (a, e);
    let names = token_names(line, toks);
    assert(names[j] == slice(line, a, e));
    assert(names.contains(slice(line, a, e)));
    assert(check_tokens(line, num, toks, seq![]).0.contains(slice(line, a, e)));
}

/// A value that nothing ends on a line stays open, with the names of the line added to those seen;
/// where its quote ends it, what follows on the line is checked as values of its own.
pub proof fn law_values_stay_open_below(
    line: Seq<char>,
    num: u32,
    quote: u8,
    seen: Seq<Seq<char>>,
    end: int,
    name: Seq<char>,
)
    requires
        first_end(encode_utf8(line), 0, quote, end),
    ensures
        end == encode_utf8(line).len() ==> {
            let open = check_line(line, num, Some((quote, seen))).0;
            &&& open is Some
            &&& (open->0).0 == quote
            &&& seen.contains(name) ==> (open->0).1.contains(name)
        },
        end < encode_utf8(line).len() && encode_utf8(line)[end] == quote ==> check_line(
            line,
            num,
            Some((quote, seen)),
        ).0 == check_matches(
            line,
            num,
            end + 1,
            regex_captures(
                CLASS_ATTR_RE@,
                slice(line, end + 1, encode_utf8(line).len() as int),
            ),
        ).0,
{
    let b = encode_utf8(line);
    lemma_first_end(b, 0, quote, end);
    let toks = tokens(b, 0, continuation_end(line, quote));
    law_repetitions_are_flagged(line, num, toks, seen);
    if seen.contains(name) {
        assert(check_tokens(line, num, toks, seen).0.contains(name));
    }
}

/// The warnings of a document are those of its lines, each with what the lines above leave open; at
/// its start nothing is open.
pub proof fn law_all_lines_are_checked(text: Seq<char>, k: int)
    requires
        0 <= k < lines(text).len(),
    ensures
        check_lines(lines(text), 0) == (None::<(u8, Seq<Seq<char>>)>, Seq::<DiagnosticView>::empty()),
        check_lines(lines(text), k + 1).1 == check_lines(lines(text), k).1 + check_line(
            lines(text)[k],
            k as u32,
            check_lines(lines(text), k).0,
        ).1,
        check_lines(lines(text), k + 1).0 == check_line(
            lines(text)[k],
            k as u32,
            check_lines(lines(text), k).0,
        ).0,
        duplicate_classes(text) == check_lines(lines(text), lines(text).len() as int).1,
        check_line(lines(text)[k], k as u32, None) == check_matches(
            lines(text)[k],
            k as u32,
            0,
            regex_captures(
                CLASS_ATTR_RE@,
                slice(lines(text)[k], 0, encode_utf8(lines(text)[k]).len() as int),
            ),
        ),
{
}

/// Only repetitions are flagged: each warning about a list of tokens stands at one whose name was
/// seen before, on an earlier line or as an earlier token.
pub proof fn law_only_repetitions_are_flagged(
    line: Seq<char>,
    num: u32,
    toks: Seq<(int, int)>,
    seen: Seq<Seq<char>>,
    d: DiagnosticView,
)
    requires
        check_tokens(line, num, toks, seen).1.contains(d),
    ensures
        exists|j: int|
            0 <= j < toks.len() && d == listed_already(
                line,
                num,
                (#[trigger] toks[j]).0,
                toks[j].1,
            ) && (seen.contains(slice(line, toks[j].0, toks[j].1)) || token_names(
                line,
                toks.take(j),
            ).contains(slice(line, toks[j].0, toks[j].1))),
    decreases toks.len(),
{
    if toks.len() > 0 {
        let head = toks.drop_last();
        let before = check_tokens(line, num, head, seen);
        let n = toks.len() - 1;
        assert(toks.take(n) =~= head);
        if before.1.contains(d) {
            law_only_repetitions_are_flagged(line, num, head, seen, d);
            let j = choose|j: int|
                0 <= j < head.len() && d == listed_already(
                    line,
                    num,
                    (#[trigger] head[j]).0,
                    head[j].1,
                ) && (seen.contains(slice(line, head[j].0, head[j].1)) || token_names(
                    line,
                    head.take(j),
                ).contains(slice(line, head[j].0, head[j].1)));
            assert(toks[j] == head[j]);
            assert(toks.take(j) =~= head.take(j));
        } else {
            let after = check_tokens(line, num, toks, seen);
            let i = choose|i: int| 0 <= i < after.1.len() && after.1[i] == d;
            if i < before.1.len() {
                assert(before.1[i] == d);
            }
            law_repetitions_are_flagged(line, num, head, seen);
            assert(before.0.contains(slice(line, toks[n].0, toks[n].1)));
            assert(d == listed_already(line, num, toks[n].0, toks[n].1));
        }
    }
}

} // verus!
