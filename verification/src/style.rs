//! Style sheets inside HTML documents.

use crate::bytes::{lemma_boundary_ends, lemma_slice_all, lemma_slice_concat, slice, slice_text};
use crate::css::{
    blocks_closed, css_definitions, css_rule_infos, css_rules, lemma_css_rules_base, only_names,
    parse_css_content,
};
use crate::html::{Groups, Matches};
use crate::model::{add_definitions, ClassInfoView, ClassMap, ClassRows};
use crate::pattern::{
    all_groups, group_lists, has_groups, is_groups, is_match_list, regex_captures, Patterns,
    STYLE_BLOCK_RE,
};
use crate::text::{chars_of, count_newlines, lemma_newlines_concat, line_number, newlines, to_line};
use vstd::prelude::*;
use vstd::utf8::encode_utf8;

verus! {

/// The line on which a `<style>` block's content begins, and the content.
pub open spec fn style_block(text: Seq<char>, groups: Groups) -> (u32, Seq<char>) {
    let span = groups[1]->0;
    (
        line_number(newlines(slice(text, 0, span.0 as int)) as int),
        slice(text, span.0 as int, span.1 as int),
    )
}

/// The `<style>` blocks of a document, given the matches of the block pattern.
pub open spec fn matched_blocks(text: Seq<char>, matches: Seq<Groups>) -> Seq<(u32, Seq<char>)> {
    matches.map_values(|g: Groups| style_block(text, g))
}

/// The `<style>` blocks of a document.
pub open spec fn style_blocks(text: Seq<char>) -> Seq<(u32, Seq<char>)> {
    matched_blocks(text, regex_captures(STYLE_BLOCK_RE@, text))
}

/// What a list of blocks says.
pub open spec fn block_views(v: Seq<(u32, String)>) -> Seq<(u32, Seq<char>)> {
    v.map_values(|b: (u32, String)| (b.0, b.1@))
}

/// Lines inside a `<style>` block are lines of the document: what stands at a place of the content
/// stands in the document, with as many line feeds before it as there are before the content and in
/// the content before the place.
pub proof fn law_block_lines_are_document_lines(text: Seq<char>, groups: Groups, p: int)
    requires
        is_groups(text, groups),
        all_groups(groups, 1),
        0 <= p <= style_block(text, groups).1.len(),
    ensures
        ({
            let content = style_block(text, groups).1;
            let head = slice(text, 0, (groups[1]->0).0 as int);
            let q = head.len() + p;
            &&& q <= text.len()
            &&& content.skip(p).is_prefix_of(text.skip(q))
            &&& newlines(text.take(q)) == newlines(head) + newlines(content.take(p))
        }),
{
    let span = groups[1]->0;
    assert(groups[1] is Some);
    let n = encode_utf8(text).len() as int;
    let head = slice(text, 0, span.0 as int);
    let content = slice(text, span.0 as int, span.1 as int);
    let tail = slice(text, span.1 as int, n);
    lemma_boundary_ends(text);
    lemma_slice_concat(text, 0, span.0 as int, span.1 as int);
    lemma_slice_concat(text, 0, span.1 as int, n);
    lemma_slice_all(text);
    assert(text =~= head + content + tail);
    let q = head.len() + p;
    assert(text.take(q) =~= head + content.take(p));
    lemma_newlines_concat(head, content.take(p));
    assert(text.skip(q).subrange(0, content.len() - p) =~= content.skip(p));
}

/// The `<style>` blocks of a document, given the matches of the block pattern.
pub fn blocks_at(text: &str, matches: &Matches) -> (r: Vec<(u32, String)>)
    requires
        is_match_list(text@, group_lists(matches@)),
        forall|i: int| 0 <= i < matches@.len() ==> all_groups((#[trigger] matches@[i])@, 1),
    ensures
        block_views(r@) == matched_blocks(text@, group_lists(matches@)),
{
    let n: usize = matches.len();
    let ghost all = matched_blocks(text@, group_lists(matches@));
    let mut r: Vec<(u32, String)> = Vec::new();
    let mut k: usize = 0;
    proof {
        assert(block_views(r@) =~= all.take(0));
    }
    while k < n
        invariant
            k <= n,
            n == matches@.len(),
            all == matched_blocks(text@, group_lists(matches@)),
            is_match_list(text@, group_lists(matches@)),
            forall|i: int| 0 <= i < matches@.len() ==> all_groups((#[trigger] matches@[i])@, 1),
            block_views(r@) == all.take(k as int),
        decreases n - k,
    {
        let ghost groups = matches@[k as int]@;
        proof {
            assert(group_lists(matches@)[k as int] == groups);
            assert(is_groups(text@, groups));
            assert(groups[1] is Some);
            lemma_boundary_ends(text@);
        }
        let (from, to): (usize, usize) = match matches[k][1] {
            Some(span) => span,
            None => (0, 0),
        };
        let head = slice_text(text, 0, from);
        let head_chars = chars_of(head.as_str());
        let line: u32 = to_line(count_newlines(head_chars.as_slice()) as u128);
        let content = slice_text(text, from, to);
        let ghost before = block_views(r@);
        r.push((line, content));
        proof {
            assert(block_views(r@) =~= before.push((line, content@)));
            assert((line, content@) == style_block(text@, groups));
            assert(block_views(r@) =~= all.take(k + 1));
        }
        k = k + 1;
    }
    proof {
        assert(all.take(n as int) =~= all);
    }
    r
}

/// The `<style>` blocks of a document: for each, the line on which its content begins, and the
/// content.
pub fn extract_style_blocks(patterns: &Patterns, text: &str) -> (r: Vec<(u32, String)>)
    ensures
        block_views(r@) == style_blocks(text@),
{
    let matches = patterns.style_block_re().captures_all(text);
    proof {
        assert(has_groups(STYLE_BLOCK_RE@, 1));
        assert forall|i: int| 0 <= i < matches@.len() implies all_groups(
            (#[trigger] matches@[i])@,
            1,
        ) by {
        }
    }
    blocks_at(text, &matches)
}

/// Whether all blocks can be read.
pub open spec fn blocks_readable(blocks: Seq<(u32, Seq<char>)>) -> bool {
    forall|i: int|
        0 <= i < blocks.len() ==> css_rules((#[trigger] blocks[i]).1, blocks[i].0 as int) is Some
}

/// Whether all blocks can be read.
pub fn all_blocks_closed(blocks: &Vec<(u32, String)>) -> (r: bool)
    ensures
        r == blocks_readable(block_views(blocks@)),
{
    let n: usize = blocks.len();
    let ghost all = block_views(blocks@);
    let mut k: usize = 0;
    while k < n
        invariant
            k <= n,
            n == blocks@.len(),
            all == block_views(blocks@),
            forall|i: int| 0 <= i < k ==> css_rules((#[trigger] all[i]).1, all[i].0 as int) is Some,
        decreases n - k,
    {
        proof {
            lemma_css_rules_base(all[k as int].1, 0, all[k as int].0 as int);
        }
        if !blocks_closed(blocks[k].1.as_str()) {
            proof {
                assert(css_rules(all[k as int].1, all[k as int].0 as int) is None);
            }
            return false;
        }
        k = k + 1;
    }
    true
}

/// The map with the definitions of the first `k` blocks added.
pub open spec fn with_blocks(
    rows: ClassRows,
    blocks: Seq<(u32, Seq<char>)>,
    source_file: Seq<char>,
    source_path: Seq<char>,
    k: int,
) -> ClassRows
    decreases k,
{
    if k <= 0 {
        rows
    } else {
        add_definitions(
            with_blocks(rows, blocks, source_file, source_path, k - 1),
            css_definitions(blocks[k - 1].1, blocks[k - 1].0 as int, source_file, source_path),
        )
    }
}

/// The rules with those of the first `k` blocks added.
pub open spec fn with_block_rules(
    rules: Seq<ClassInfoView>,
    blocks: Seq<(u32, Seq<char>)>,
    source_file: Seq<char>,
    source_path: Seq<char>,
    k: int,
) -> Seq<ClassInfoView>
    decreases k,
{
    if k <= 0 {
        rules
    } else {
        with_block_rules(rules, blocks, source_file, source_path, k - 1) + css_rule_infos(
            blocks[k - 1].1,
            blocks[k - 1].0 as int,
            source_file,
            source_path,
        )
    }
}

/// Files the rules of `<style>` blocks.
pub fn parse_style_blocks(
    patterns: &Patterns,
    blocks: &Vec<(u32, String)>,
    source_file: &str,
    source_path: &str,
    class_map: &mut ClassMap,
)
    requires
        blocks_readable(block_views(blocks@)),
    ensures
        only_names(old(class_map)@) ==> only_names(final(class_map)@),
        final(class_map)@ == with_blocks(
            old(class_map)@,
            block_views(blocks@),
            source_file@,
            source_path@,
            blocks@.len() as int,
        ),
        final(class_map).rules() == with_block_rules(
            old(class_map).rules(),
            block_views(blocks@),
            source_file@,
            source_path@,
            blocks@.len() as int,
        ),
{
    let n: usize = blocks.len();
    let ghost all = block_views(blocks@);
    let mut k: usize = 0;
    while k < n
        invariant
            k <= n,
            n == blocks@.len(),
            all == block_views(blocks@),
            blocks_readable(all),
            class_map.rules() == with_block_rules(
                old(class_map).rules(),
                all,
                source_file@,
                source_path@,
                k as int,
            ),
            only_names(old(class_map)@) ==> only_names(class_map@),
            class_map@ == with_blocks(
                old(class_map)@,
                all,
                source_file@,
                source_path@,
                k as int,
            ),
        decreases n - k,
    {
        proof {
            assert(css_rules(all[k as int].1, all[k as int].0 as int) is Some);
        }
        parse_css_content(
            patterns,
            blocks[k].1.as_str(),
            blocks[k].0,
            source_file,
            source_path,
            class_map,
        );
        k = k + 1;
    }
}

} // verus!
