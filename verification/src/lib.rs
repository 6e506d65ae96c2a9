//! The analysis behind a CSS language server for HTML documents.
//!
//! Style sheets are read into a class map (`css`, `heads`, `offset`, `scope`, `updates`, `model`),
//! HTML documents into the classes and identifiers they use (`html`, `style`), and requests at a
//! position of a document are answered from both (`cursor`, `context`, `completion`, `hover`,
//! `references`, `rename`, `actions`, `naming`, `symbols`). `diagnostics` and `duplicates` make
//! remarks on documents, `session` holds what the server knows. `mapper` is a smaller server of its
//! own, and `install` decides how an editor gets hold of the server. `laws` states what all this is
//! for.

pub mod actions;
pub mod bytes;
pub mod collect;
pub mod completion;
pub mod context;
pub mod css;
pub mod cursor;
pub mod diagnostics;
pub mod dictionary;
pub mod duplicates;
pub mod extent;
pub mod heads;
pub mod hover;
pub mod html;
pub mod install;
pub mod js;
pub mod laws;
pub mod links;
pub mod mapper;
pub mod model;
pub mod naming;
pub mod offset;
pub mod order;
pub mod paths;
pub mod pattern;
pub mod protocol;
pub mod references;
pub mod rename;
pub mod scope;
pub mod session;
pub mod style;
pub mod symbols;
pub mod table;
pub mod text;
pub mod updates;
pub mod vars;
