//! File paths and the addresses of documents.
//!
//! Paths follow the rules of the platform that the library is built for.

use crate::model::opt_text;
use crate::text::{ends_with, same_text, starts_with};
use vstd::prelude::*;

verus! {

/// The path part of an address; none if the text is no address.
pub uninterp spec fn uri_path(uri: Seq<char>) -> Option<Seq<char>>;

/// The file that an address stands for; none if it stands for none.
pub uninterp spec fn uri_to_file(uri: Seq<char>) -> Option<Seq<char>>;

/// The address of a file; none if the path is not absolute.
pub uninterp spec fn file_to_uri(path: Seq<char>) -> Option<Seq<char>>;

/// The last component of a path.
pub uninterp spec fn path_file_name(path: Seq<char>) -> Option<Seq<char>>;

/// The part of the last component of a path behind its last dot.
pub uninterp spec fn path_extension(path: Seq<char>) -> Option<Seq<char>>;

/// A path without its last component.
pub uninterp spec fn path_parent(path: Seq<char>) -> Option<Seq<char>>;

/// Whether a path begins at the root.
pub uninterp spec fn path_is_absolute(path: Seq<char>) -> bool;

/// Whether two paths have the same components.
pub uninterp spec fn paths_equal(a: Seq<char>, b: Seq<char>) -> bool;

/// A path below another one.
pub uninterp spec fn path_join(base: Seq<char>, path: Seq<char>) -> Seq<char>;

/// `lsp_types::Url::path` of the address that the text parses to.
#[verifier::external_body]
pub(crate) fn path_of_uri(uri: &str) -> (r: Option<String>)
    ensures
        opt_text(r) == uri_path(uri@),
{
    lsp_types::Url::parse(uri).ok().map(|u| u.path().to_string())
}

/// `lsp_types::Url::to_file_path` of the address that the text parses to, the path as text.
#[verifier::external_body]
pub(crate) fn file_of_uri(uri: &str) -> (r: Option<String>)
    ensures
        opt_text(r) == uri_to_file(uri@),
{
    let url = lsp_types::Url::parse(uri).ok()?;
    url.to_file_path().ok().map(|p| p.to_string_lossy().into_owned())
}

/// `lsp_types::Url::from_file_path`, the address as text.
#[verifier::external_body]
pub(crate) fn uri_of_file(path: &str) -> (r: Option<String>)
    ensures
        opt_text(r) == file_to_uri(path@),
{
    lsp_types::Url::from_file_path(path).ok().map(|u| u.as_str().to_string())
}

/// `std::path::Path::file_name`, as text.
#[verifier::external_body]
pub(crate) fn file_name_of(path: &str) -> (r: Option<String>)
    ensures
        opt_text(r) == path_file_name(path@),
{
    std::path::Path::new(path).file_name().and_then(|n| n.to_str()).map(|n| n.to_string())
}

/// `std::path::Path::extension`, as text.
#[verifier::external_body]
pub(crate) fn extension_of(path: &str) -> (r: Option<String>)
    ensures
        opt_text(r) == path_extension(path@),
{
    std::path::Path::new(path).extension().and_then(|n| n.to_str()).map(|n| n.to_string())
}

/// `std::path::Path::parent`, as text.
#[verifier::external_body]
pub(crate) fn parent_of(path: &str) -> (r: Option<String>)
    ensures
        opt_text(r) == path_parent(path@),
{
    std::path::Path::new(path).parent().and_then(|p| p.to_str()).map(|p| p.to_string())
}

/// `std::path::Path::is_absolute`.
#[verifier::external_body]
pub(crate) fn is_absolute(path: &str) -> (r: bool)
    ensures
        r == path_is_absolute(path@),
{
    std::path::Path::new(path).is_absolute()
}

/// `std::path::Path::eq`, which compares paths component by component.
#[verifier::external_body]
pub(crate) fn same_path(a: &str, b: &str) -> (r: bool)
    ensures
        r == paths_equal(a@, b@),
{
    std::path::Path::new(a) == std::path::Path::new(b)
}

/// `std::path::Path::join`, as text.
#[verifier::external_body]
pub(crate) fn join(base: &str, path: &str) -> (r: String)
    ensures
        r@ == path_join(base@, path@),
{
    std::path::Path::new(base).join(path).to_string_lossy().into_owned()
}

/// Whether a path is that of an HTML document.
pub open spec fn is_html_name(path: Seq<char>) -> bool {
    ".html"@.is_suffix_of(path) || ".htm"@.is_suffix_of(path)
}

/// Whether the path part of an address is that of an HTML document.
pub open spec fn is_html(path: Option<Seq<char>>) -> bool {
    path is Some && is_html_name(path->0)
}

/// Whether a path is that of an HTML document.
pub fn is_html_path(path: &str) -> (r: bool)
    ensures
        r == is_html_name(path@),
{
    ends_with(path, ".html") || ends_with(path, ".htm")
}

/// Whether an address is that of an HTML document.
pub fn is_html_uri(uri: &str) -> (r: bool)
    ensures
        r == is_html(uri_path(uri@)),
{
    match path_of_uri(uri) {
        Some(path) => is_html_path(path.as_str()),
        None => false,
    }
}

/// Whether an extension is that of a style sheet.
pub open spec fn is_css_extension(extension: Option<Seq<char>>) -> bool {
    extension == Some("css"@)
}

/// Whether a path is that of a style sheet.
pub fn is_css_path(path: &str) -> (r: bool)
    ensures
        r == is_css_extension(path_extension(path@)),
{
    match extension_of(path) {
        Some(e) => same_text(e.as_str(), "css"),
        None => false,
    }
}

/// Whether an extension is that of an HTML document.
pub open spec fn is_html_extension(extension: Option<Seq<char>>) -> bool {
    extension == Some("html"@) || extension == Some("htm"@)
}

/// Whether a file in the workspace is an HTML document.
pub fn is_html_file(path: &str) -> (r: bool)
    ensures
        r == is_html_extension(path_extension(path@)),
{
    match extension_of(path) {
        Some(e) => same_text(e.as_str(), "html") || same_text(
            e.as_str(),
            "htm",
        ),
        None => false,
    }
}

/// The address of a file in the workspace, if the file is an HTML document.
pub fn html_address(path: &str) -> (r: Option<String>)
    ensures
        opt_text(r) == (if is_html_extension(path_extension(path@)) {
            file_to_uri(path@)
        } else {
            None
        }),
{
    if is_html_file(path) {
        uri_of_file(path)
    } else {
        None
    }
}

/// The file of an HTML document, given its address; none if the address is that of no file or of
/// another kind of document.
pub fn html_file_at(uri: &str) -> (r: Option<String>)
    ensures
        opt_text(r) == (if is_html(uri_path(uri@)) {
            uri_to_file(uri@)
        } else {
            None
        }),
{
    if is_html_uri(uri) {
        file_of_uri(uri)
    } else {
        None
    }
}

/// Whether a file in the workspace is a script.
pub fn is_script(path: &str) -> (r: bool)
    ensures
        r == (path_extension(path@) == Some("js"@)),
{
    match extension_of(path) {
        Some(e) => same_text(e.as_str(), "js"),
        None => false,
    }
}

/// Whether a directory entry is looked into: it is neither hidden nor `node_modules`.
pub fn keep_entry(name: &str) -> (r: bool)
    ensures
        r == (name@ != "node_modules"@ && !"."@.is_prefix_of(name@)),
{
    !same_text(name, "node_modules") && !starts_with(name, ".")
}

} // verus!
