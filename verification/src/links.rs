//! Style sheets that a document links to or a style sheet imports.

use crate::collect::{collect, lemma_collect_step};
use crate::js::{captured_texts, group_texts};
use crate::model::opt_text;
use crate::paths::{is_absolute, path_is_absolute};
use crate::pattern::{
    regex_captures, regex_find, Patterns, HREF_VAL_RE, IMPORT_RE, LINK_TAG_RE, REL_STYLESHEET_RE,
};
use crate::text::{chars_of, find_from, index_from, lemma_index_from, starts_with, string_of, texts};
use vstd::prelude::*;
use vstd::slice::slice_subrange;
use vstd::string::StringExecFns;

verus! {

/// Whether an address leads to another machine.
pub open spec fn is_remote(s: Seq<char>) -> bool {
    "http://"@.is_prefix_of(s) || "https://"@.is_prefix_of(s) || "//"@.is_prefix_of(s)
}

/// Whether an address leads to another machine.
fn remote(s: &str) -> (r: bool)
    ensures
        r == is_remote(s@),
{
    starts_with(s, "http://") || starts_with(s, "https://") || starts_with(s, "//")
}

/// The file that an import stands for: none for another machine's or an absolute path, so that
/// nothing outside the project is read. A name without a dot gets the extension of a style sheet.
pub open spec fn import_file(path: Seq<char>, absolute: bool) -> Option<Seq<char>> {
    if is_remote(path) || absolute {
        None
    } else if path.contains('.') {
        Some(path)
    } else {
        Some(path + ".css"@)
    }
}

/// The file that an import stands for.
pub fn import_target(path: String, absolute: bool) -> (r: Option<String>)
    ensures
        opt_text(r) == import_file(path@, absolute),
{
    if remote(path.as_str()) || absolute {
        return None;
    }
    let chars = chars_of(path.as_str());
    let dot: usize = find_from(chars.as_slice(), '.', 0);
    if dot < chars.len() {
        proof {
            assert(path@[dot as int] == '.');
        }
        Some(path)
    } else {
        let mut path = path;
        path.append(".css");
        Some(path)
    }
}

/// The file that an import stands for.
pub open spec fn import_of() -> spec_fn(Seq<char>) -> Option<Seq<char>> {
    |path: Seq<char>| import_file(path, path_is_absolute(path))
}

/// The files that a style sheet imports.
pub open spec fn imports(content: Seq<char>) -> Seq<Seq<char>> {
    collect(group_texts(content, regex_captures(IMPORT_RE@, content)), import_of())
}

/// The files that a style sheet imports, in order.
pub fn extract_imports(patterns: &Patterns, content: &str) -> (r: Vec<String>)
    ensures
        texts(r@) == imports(content@),
{
    let paths = captured_texts(patterns.import_re(), content);
    let n: usize = paths.len();
    let ghost all = texts(paths@);
    let ghost f = import_of();
    let mut r: Vec<String> = Vec::new();
    let mut i: usize = 0;
    proof {
        assert(all.take(0) =~= seq![]);
        assert(texts(r@) =~= seq![]);
    }
    while i < n
        invariant
            i <= n,
            n == paths@.len(),
            all == texts(paths@),
            f == import_of(),
            texts(r@) == collect(all.take(i as int), f),
        decreases n - i,
    {
        let ghost before = texts(r@);
        proof {
            lemma_collect_step(all, i as int, f);
            assert(all[i as int] == paths@[i as int]@);
        }
        let absolute = is_absolute(paths[i].as_str());
        if let Some(file) = import_target(paths[i].clone(), absolute) {
            r.push(file);
            proof {
                assert(texts(r@) =~= before.push(file@));
            }
        }
        i = i + 1;
    }
    proof {
        assert(all.take(n as int) =~= all);
    }
    r
}

/// The file that a link stands for: none for another machine's or a path from the server's root.
/// A query and a fragment are left out.
pub open spec fn link_file(href: Seq<char>) -> Option<Seq<char>> {
    if is_remote(href) || "/"@.is_prefix_of(href) {
        None
    } else {
        let plain = href.take(index_from(href, '?', 0));
        let file = plain.take(index_from(plain, '#', 0));
        if file.len() > 0 {
            Some(file)
        } else {
            None
        }
    }
}

/// The file that a link stands for.
pub fn link_target(href: &str) -> (r: Option<String>)
    ensures
        opt_text(r) == link_file(href@),
{
    if remote(href) || starts_with(href, "/") {
        return None;
    }
    let chars = chars_of(href);
    let query: usize = find_from(chars.as_slice(), '?', 0);
    let plain = slice_subrange(chars.as_slice(), 0, query);
    let fragment: usize = find_from(plain, '#', 0);
    let file = slice_subrange(plain, 0, fragment);
    proof {
        assert(plain@ =~= href@.take(query as int));
        assert(file@ =~= plain@.take(fragment as int));
    }
    if file.len() == 0 {
        return None;
    }
    Some(string_of(file))
}

/// The address in a link tag, given the texts that its `href` values hold.
pub open spec fn first_text(hrefs: Seq<Seq<char>>) -> Option<Seq<char>> {
    if hrefs.len() > 0 {
        Some(hrefs[0])
    } else {
        None
    }
}

/// The file that a link tag stands for, if it links to a style sheet.
pub open spec fn linked_file() -> spec_fn(Seq<char>) -> Option<Seq<char>> {
    |tag: Seq<char>|
        if regex_find(REL_STYLESHEET_RE@, tag).len() > 0 {
            match first_text(group_texts(tag, regex_captures(HREF_VAL_RE@, tag))) {
                Some(href) => link_file(href),
                None => None,
            }
        } else {
            None
        }
}

/// The style sheets that a document links to.
pub open spec fn linked_css(html: Seq<char>) -> Seq<Seq<char>> {
    collect(regex_find(LINK_TAG_RE@, html), linked_file())
}

/// The style sheets that a document links to, in order.
pub fn extract_linked_css(patterns: &Patterns, html_text: &str) -> (r: Vec<String>)
    ensures
        texts(r@) == linked_css(html_text@),
{
    let tags = patterns.link_tag_re().find_all(html_text);
    let n: usize = tags.len();
    let ghost all = texts(tags@);
    let ghost f = linked_file();
    let mut links: Vec<String> = Vec::new();
    let mut i: usize = 0;
    proof {
        assert(all.take(0) =~= seq![]);
        assert(texts(links@) =~= seq![]);
    }
    while i < n
        invariant
            i <= n,
            n == tags@.len(),
            all == texts(tags@),
            f == linked_file(),
            texts(links@) == collect(all.take(i as int), f),
        decreases n - i,
    {
        let tag = tags[i].as_str();
        let ghost before = texts(links@);
        proof {
            lemma_collect_step(all, i as int, f);
            assert(all[i as int] == tag@);
        }
        let rel = patterns.rel_stylesheet_re().find_all(tag);
        proof {
            assert(texts(rel@).len() == rel@.len());
        }
        if rel.len() > 0 {
            let hrefs = captured_texts(patterns.href_val_re(), tag);
            proof {
                assert(texts(hrefs@).len() == hrefs@.len());
            }
            if hrefs.len() > 0 {
                proof {
                    assert(texts(hrefs@)[0] == hrefs@[0]@);
                }
                if let Some(file) = link_target(hrefs[0].as_str()) {
                    links.push(file);
                    proof {
                        assert(texts(links@) =~= before.push(file@));
                    }
                }
            }
        }
        i = i + 1;
    }
    proof {
        assert(all.take(n as int) =~= all);
    }
    links
}

/// Neither imports nor links lead to another machine, an import is never an absolute path, and a
/// link never begins at the server's root.
pub proof fn law_files_stay_local(path: Seq<char>, absolute: bool, href: Seq<char>)
    ensures
        import_file(path, absolute) is Some ==> !is_remote(path) && !absolute,
        link_file(href) is Some ==> !is_remote(href) && !"/"@.is_prefix_of(href) && {
            let file = link_file(href)->0;
            file.is_prefix_of(href) && !file.contains('?') && !file.contains('#') && file.len() > 0
        },
{
    if link_file(href) is Some {
        lemma_index_from(href, '?', 0);
        let plain = href.take(index_from(href, '?', 0));
        lemma_index_from(plain, '#', 0);
        let file = link_file(href)->0;
        assert(file =~= href.subrange(0, file.len() as int));
        assert forall|i: int| 0 <= i < file.len() implies file[i] != '?' && file[i] != '#' by {
            assert(file[i] == plain[i]);
            assert(file[i] == href[i]);
        }
    }
}

} // verus!
