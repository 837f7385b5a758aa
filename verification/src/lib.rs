//! Rendering of source files, diffs and commits as annotated HTML pages.

pub mod blame;
pub mod code;
pub mod code_laws;
pub mod commit;
pub mod commit_laws;
pub mod diff;
pub mod diff_laws;
pub mod file;
pub mod json;
pub mod page;
pub mod page_laws;
pub mod path_laws;
pub mod paths;
pub mod revision;
pub mod revision_laws;
pub mod source;
pub mod split;
pub mod symbol_laws;
pub mod symbols;
pub mod text;
pub mod text_laws;
pub mod time;
pub mod word_laws;
