//! Warnings about classes that an attribute lists twice.

use crate::bytes::{
    boundary, lemma_boundary_ascii, lemma_boundary_behind, lemma_boundary_ends, slice, slice_text,
};
use crate::html::{
    attr_matches_ok, continuation_end, find_names_end, find_tokens, find_value_stop,
    lemma_names_end, lemma_value_stop, names_end, spans, tokens, value_stop, Groups, Matches,
};
use crate::pattern::{
    ends_with_quote, group_lists, is_groups, regex_captures, whole, Patterns, CLASS_ATTR_RE,
};
use crate::protocol::{
    make_remark, range_on_line, remark, span_on_line, Diagnostic, DiagnosticView, Severity,
};
use crate::text::{concat3, contains_text, lines, split_lines, texts};
use vstd::prelude::*;
use vstd::utf8::encode_utf8;

verus! {

/// The warning about a class that the attribute lists already.
pub open spec fn repeated(line: Seq<char>, line_num: u32, token: (int, int)) -> DiagnosticView {
    remark(
        span_on_line(line_num, token.0 as u32, token.1 as u32),
        Severity::Warning,
        "class '"@ + slice(line, token.0, token.1) + "' is already listed in this attribute"@,
    )
}

/// The names seen after some tokens of an attribute, and the warnings about those seen before.
pub open spec fn check_tokens(
    line: Seq<char>,
    line_num: u32,
    toks: Seq<(int, int)>,
    seen: Seq<Seq<char>>,
) -> (Seq<Seq<char>>, Seq<DiagnosticView>)
    decreases toks.len(),
{
    if toks.len() == 0 {
        (seen, seq![])
    } else {
        let before = check_tokens(line, line_num, toks.drop_last(), seen);
        let name = slice(line, toks.last().0, toks.last().1);
        if before.0.contains(name) {
            (before.0, before.1.push(repeated(line, line_num, toks.last())))
        } else {
            (before.0.push(name), before.1)
        }
    }
}

/// Adds a warning for each token between two byte offsets whose name was seen before.
pub fn check_dup_tokens(
    line: &str,
    line_num: u32,
    from: usize,
    to: usize,
    seen: &mut Vec<String>,
    diags: &mut Vec<Diagnostic>,
)
    requires
        from <= to,
        boundary(line@, from as int),
        boundary(line@, to as int),
    ensures
        texts(final(seen)@) == check_tokens(
            line@,
            line_num,
            tokens(encode_utf8(line@), from as int, to as int),
            texts(old(seen)@),
        ).0,
        final(diags).deep_view() == old(diags).deep_view() + check_tokens(
            line@,
            line_num,
            tokens(encode_utf8(line@), from as int, to as int),
            texts(old(seen)@),
        ).1,
{
    let found = find_tokens(line, from, to);
    let n: usize = found.len();
    let ghost all = spans(found@);
    let ghost seen0 = texts(seen@);
    let ghost diags0 = diags.deep_view();
    let mut k: usize = 0;
    proof {
        assert(all.take(0) =~= seq![]);
        assert(diags0 + Seq::<DiagnosticView>::empty() =~= diags0);
    }
    while k < n
        invariant
            k <= n,
            n == found@.len(),
            all == spans(found@),
            forall|i: int|
                0 <= i < found@.len() ==> (#[trigger] found@[i]).0 < found@[i].1 && boundary(
                    line@,
                    found@[i].0 as int,
                ) && boundary(line@, found@[i].1 as int),
            texts(seen@) == check_tokens(line@, line_num, all.take(k as int), seen0).0,
            diags.deep_view() == diags0 + check_tokens(
                line@,
                line_num,
                all.take(k as int),
                seen0,
            ).1,
        decreases n - k,
    {
        let (a, b) = found[k];
        let name = slice_text(line, a, b);
        let ghost seen1 = texts(seen@);
        let ghost diags1 = diags.deep_view();
        proof {
            assert(all.take(k + 1).drop_last() =~= all.take(k as int));
            assert(all.take(k + 1).last() == (a as int, b as int));
        }
        if contains_text(seen, name.as_str()) {
            let message = concat3(
                "class '",
                name.as_str(),
                "' is already listed in this attribute",
            );
            let d = make_remark(
                range_on_line(line_num, a as u32, b as u32),
                Severity::Warning,
                message,
            );
            diags.push(d);
            proof {
                assert(diags.deep_view() =~= diags1.push(d.deep_view()));
                assert(diags.deep_view() =~= diags0 + check_tokens(
                    line@,
                    line_num,
                    all.take(k as int),
                    seen0,
                ).1.push(d.deep_view()));
            }
        } else {
            seen.push(name);
            proof {
                assert(texts(seen@) =~= seen1.push(name@));
            }
        }
        k = k + 1;
    }
    proof {
        assert(all.take(n as int) =~= all);
    }
}

/// A `class` value that is still open at the end of a line: its quote and the names seen in it.
pub type OpenList = Option<(u8, Seq<Seq<char>>)>;

/// What the `class` values contribute that a list of matches opens: the value left open, and the
/// warnings. The matches were found behind the byte offset `from`.
pub open spec fn check_matches(
    line: Seq<char>,
    line_num: u32,
    from: int,
    matches: Seq<Groups>,
) -> (OpenList, Seq<DiagnosticView>)
    decreases matches.len(),
{
    if matches.len() == 0 {
        (None, seq![])
    } else {
        let before = check_matches(line, line_num, from, matches.drop_last());
        let b = encode_utf8(line);
        let start = from + whole(matches.last()).1;
        let quote = b[start - 1];
        let stop = value_stop(b, start, quote);
        let end = names_end(b, start, stop, quote);
        let here = check_tokens(line, line_num, tokens(b, start, end), seq![]);
        (
            if stop == b.len() {
                Some((quote, here.0))
            } else {
                before.0
            },
            before.1 + here.1,
        )
    }
}

/// The part of a line that belongs to a value opened on an earlier line: the value if it is still
/// open, the warnings, and the byte offset behind the part.
pub open spec fn check_continuation(
    line: Seq<char>,
    line_num: u32,
    quote: u8,
    seen: Seq<Seq<char>>,
) -> (OpenList, Seq<DiagnosticView>, int) {
    let b = encode_utf8(line);
    let stop = value_stop(b, 0, quote);
    let here = check_tokens(line, line_num, tokens(b, 0, continuation_end(line, quote)), seen);
    if stop == b.len() {
        (Some((quote, here.0)), here.1, stop)
    } else if b[stop] == quote {
        (None, here.1, stop + 1)
    } else {
        (None, here.1, stop)
    }
}

/// What one line contributes.
pub open spec fn check_line(
    line: Seq<char>,
    line_num: u32,
    open: OpenList,
) -> (OpenList, Seq<DiagnosticView>) {
    let n = encode_utf8(line).len() as int;
    match open {
        None => check_matches(
            line,
            line_num,
            0,
            regex_captures(CLASS_ATTR_RE@, slice(line, 0, n)),
        ),
        Some((quote, seen)) => {
            let head = check_continuation(line, line_num, quote, seen);
            if head.0 is Some {
                (head.0, head.1)
            } else {
                let rest = check_matches(
                    line,
                    line_num,
                    head.2,
                    regex_captures(CLASS_ATTR_RE@, slice(line, head.2, n)),
                );
                (rest.0, head.1 + rest.1)
            }
        },
    }
}

/// What the first `k` lines contribute.
pub open spec fn check_lines(lines: Seq<Seq<char>>, k: int) -> (OpenList, Seq<DiagnosticView>)
    decreases k,
{
    if k <= 0 {
        (None, seq![])
    } else {
        let before = check_lines(lines, k - 1);
        let here = check_line(lines[k - 1], (k - 1) as u32, before.0);
        (here.0, before.1 + here.1)
    }
}

/// The warnings about classes that an attribute of a document lists twice.
pub open spec fn duplicate_classes(text: Seq<char>) -> Seq<DiagnosticView> {
    check_lines(lines(text), lines(text).len() as int).1
}

/// A `class` value that is still open.
pub struct OpenValue {
    pub quote: u8,
    pub seen: Vec<String>,
}

/// What an `OpenValue` says.
pub open spec fn open_list(v: Option<OpenValue>) -> OpenList {
    match v {
        Some(o) => Some((o.quote, texts(o.seen@))),
        None => None,
    }
}

/// Checks the `class` values that a list of matches opens. The matches were found in the part of
/// the line behind the byte offset `from`.
pub fn check_opened_values(
    line: &str,
    line_num: u32,
    from: usize,
    matches: &Matches,
    diags: &mut Vec<Diagnostic>,
) -> (r: Option<OpenValue>)
    requires
        boundary(line@, from as int),
        attr_matches_ok(
            slice(line@, from as int, encode_utf8(line@).len() as int),
            group_lists(matches@),
        ),
    ensures
        open_list(r) == check_matches(line@, line_num, from as int, group_lists(matches@)).0,
        final(diags).deep_view() == old(diags).deep_view() + check_matches(
            line@,
            line_num,
            from as int,
            group_lists(matches@),
        ).1,
        r is Some ==> (r->0).quote < 0x80,
{
    let b = line.as_bytes();
    let total: usize = b.len();
    let n: usize = matches.len();
    let ghost all = group_lists(matches@);
    let ghost tail = slice(line@, from as int, encode_utf8(line@).len() as int);
    let ghost diags0 = diags.deep_view();
    let mut open: Option<OpenValue> = None;
    let mut k: usize = 0;
    proof {
        assert(all.take(0) =~= seq![]);
        assert(diags0 + Seq::<DiagnosticView>::empty() =~= diags0);
    }
    while k < n
        invariant
            k <= n,
            n == matches@.len(),
            b@ == encode_utf8(line@),
            total == b@.len(),
            all == group_lists(matches@),
            tail == slice(line@, from as int, encode_utf8(line@).len() as int),
            boundary(line@, from as int),
            attr_matches_ok(tail, all),
            open_list(open) == check_matches(line@, line_num, from as int, all.take(k as int)).0,
            diags.deep_view() == diags0 + check_matches(
                line@,
                line_num,
                from as int,
                all.take(k as int),
            ).1,
            open is Some ==> (open->0).quote < 0x80,
        decreases n - k,
    {
        proof {
            assert(all[k as int] == matches@[k as int]@);
            assert(is_groups(tail, all[k as int]) && ends_with_quote(tail, all[k as int]));
            assert(all[k as int][0] is Some);
            assert(all.take(k + 1).drop_last() =~= all.take(k as int));
            assert(all.take(k + 1).last() == all[k as int]);
        }
        let end: usize = match matches[k][0] {
            Some(span) => span.1,
            None => 0,
        };
        proof {
            lemma_boundary_behind(line@, from as int, end as int);
            assert(encode_utf8(tail)[end - 1] == b@[from + end - 1]);
        }
        let start: usize = from + end;
        let quote: u8 = b[start - 1];
        let stop: usize = find_value_stop(b, start, quote);
        proof {
            lemma_value_stop(b@, start as int, quote);
            lemma_boundary_ends(line@);
            if stop < b@.len() {
                lemma_boundary_ascii(line@, stop as int);
            }
        }
        let mut seen: Vec<String> = Vec::new();
        proof {
            assert(texts(seen@) =~= seq![]);
        }
        let ghost diags1 = diags.deep_view();
        proof {
            lemma_names_end(line@, start as int, stop as int, quote);
        }
        let end: usize = find_names_end(b, start, stop, quote);
        check_dup_tokens(line, line_num, start, end, &mut seen, diags);
        proof {
            let here = check_tokens(
                line@,
                line_num,
                tokens(b@, start as int, end as int),
                seq![],
            );
            assert(diags.deep_view() =~= diags0 + (check_matches(
                line@,
                line_num,
                from as int,
                all.take(k as int),
            ).1 + here.1));
        }
        if stop == total {
            open = Some(OpenValue { quote, seen });
        }
        k = k + 1;
    }
    proof {
        assert(all.take(n as int) =~= all);
    }
    open
}

/// Checks the part of a line that belongs to a value opened on an earlier line. Gives the value if
/// it is still open, and the byte offset behind the part.
pub fn check_open_value(
    line: &str,
    line_num: u32,
    value: OpenValue,
    diags: &mut Vec<Diagnostic>,
) -> (r: (Option<OpenValue>, usize))
    requires
        value.quote < 0x80,
    ensures
        open_list(r.0) == check_continuation(line@, line_num, value.quote, texts(value.seen@)).0,
        final(diags).deep_view() == old(diags).deep_view() + check_continuation(
            line@,
            line_num,
            value.quote,
            texts(value.seen@),
        ).1,
        r.1 == check_continuation(line@, line_num, value.quote, texts(value.seen@)).2,
        boundary(line@, r.1 as int),
        r.0 is Some ==> (r.0->0).quote < 0x80,
{
    let b = line.as_bytes();
    let quote: u8 = value.quote;
    let mut seen = value.seen;
    let stop: usize = find_value_stop(b, 0, quote);
    proof {
        lemma_value_stop(b@, 0, quote);
        lemma_boundary_ends(line@);
        if stop < b@.len() {
            lemma_boundary_ascii(line@, stop as int);
        }
    }
    proof {
        lemma_names_end(line@, 0, stop as int, quote);
    }
    let end: usize = find_names_end(b, 0, stop, quote);
    check_dup_tokens(line, line_num, 0, end, &mut seen, diags);
    if stop == b.len() {
        (Some(OpenValue { quote, seen }), stop)
    } else if b[stop] == quote {
        (None, stop + 1)
    } else {
        (None, stop)
    }
}

/// Warns about each class that an attribute of a document lists twice.
pub fn diagnostics_for_duplicate_classes(patterns: &Patterns, text: &str) -> (r: Vec<Diagnostic>)
    ensures
        r.deep_view() == duplicate_classes(text@),
{
    let all = split_lines(text);
    let n: usize = all.len();
    let mut diags: Vec<Diagnostic> = Vec::new();
    let mut open: Option<OpenValue> = None;
    let mut k: usize = 0;
    proof {
        assert(diags.deep_view() =~= seq![]);
    }
    while k < n
        invariant
            k <= n,
            n == all@.len(),
            open is Some ==> (open->0).quote < 0x80,
            (open_list(open), diags.deep_view()) == check_lines(texts(all@), k as int),
        decreases n - k,
    {
        let line = all[k].as_str();
        let line_num: u32 = k as u32;
        let ghost diags0 = diags.deep_view();
        let ghost open0 = open_list(open);
        let mut from: usize = 0;
        let mut still_open = false;
        proof {
            lemma_boundary_ends(line@);
            assert(diags0 + Seq::<DiagnosticView>::empty() =~= diags0);
        }
        if let Some(value) = open {
            let (rest, behind) = check_open_value(line, line_num, value, &mut diags);
            from = behind;
            still_open = rest.is_some();
            open = rest;
        } else {
            open = None;
        }
        if !still_open {
            let bytes: usize = line.as_bytes().len();
            let shifted = slice_text(line, from, bytes);
            let matches = patterns.class_attr_re().captures_all(shifted.as_str());
            proof {
                let found = group_lists(matches@);
                assert forall|i: int| 0 <= i < found.len() implies is_groups(
                    shifted@,
                    #[trigger] found[i],
                ) && ends_with_quote(shifted@, found[i]) by {
                    assert(found[i] == matches@[i]@);
                }
            }
            let ghost diags1 = diags.deep_view();
            open = check_opened_values(line, line_num, from, &matches, &mut diags);
            proof {
                let fresh = check_matches(
                    line@,
                    line_num,
                    from as int,
                    regex_captures(CLASS_ATTR_RE@, shifted@),
                ).1;
                assert(diags.deep_view() =~= diags0 + check_line(line@, line_num, open0).1);
            }
        }
        k = k + 1;
    }
    diags
}

/// The names of tokens.
pub open spec fn token_names(line: Seq<char>, toks: Seq<(int, int)>) -> Seq<Seq<char>> {
    toks.map_values(|t: (int, int)| slice(line, t.0, t.1))
}

/// Exactly the repetitions are flagged: a name is seen if it was seen before or one of the tokens
/// has it, no name is seen twice, and every token either adds a name or gets a warning.
pub proof fn law_repetitions_are_flagged(
    line: Seq<char>,
    line_num: u32,
    toks: Seq<(int, int)>,
    seen: Seq<Seq<char>>,
)
    ensures
        ({
            let after = check_tokens(line, line_num, toks, seen);
            &&& forall|name: Seq<char>|
                #[trigger] after.0.contains(name) == (seen.contains(name) || token_names(
                    line,
                    toks,
                ).contains(name))
            &&& after.0.len() + after.1.len() == seen.len() + toks.len()
            &&& seen.no_duplicates() ==> after.0.no_duplicates()
        }),
    decreases toks.len(),
{
    let names = token_names(line, toks);
    let after = check_tokens(line, line_num, toks, seen);
    if toks.len() == 0 {
        assert forall|name: Seq<char>| #[trigger] after.0.contains(name) == (seen.contains(name)
            || names.contains(name)) by {}
    } else {
        let head = toks.drop_last();
        law_repetitions_are_flagged(line, line_num, head, seen);
        let before = check_tokens(line, line_num, head, seen);
        let names0 = token_names(line, head);
        let last = slice(line, toks.last().0, toks.last().1);
        assert(names =~= names0.push(last));
        assert forall|name: Seq<char>| #[trigger] after.0.contains(name) == (seen.contains(name)
            || names.contains(name)) by {
            assert(before.0.contains(name) == (seen.contains(name) || names0.contains(name)));
            lemma_push_contains(names0, last, name);
            lemma_push_contains(before.0, last, name);
        }
    }
}

proof fn lemma_push_contains(s: Seq<Seq<char>>, x: Seq<char>, y: Seq<char>)
    ensures
        s.push(x).contains(y) == (s.contains(y) || x == y),
{
    if s.contains(y) {
        let i = choose|i: int| 0 <= i < s.len() && s[i] == y;
        assert(s.push(x)[i] == y);
    }
    assert(s.push(x)[s.len() as int] == x);
    if s.push(x).contains(y) {
        let i = choose|i: int| 0 <= i < s.push(x).len() && s.push(x)[i] == y;
        if i < s.len() {
            assert(s[i] == y);
        }
    }
}

} // verus!
