//! Template-instantiation engine for a command-line quickstart scaffold.
//!
//! Given a raw project name, the library derives the four naming forms the
//! scaffold needs (snake, pascal, title, kebab), rewrites the fixed set of
//! scaffold files by literal token substitution, fills named `{{field}}`
//! placeholders from collected metadata, and plans the optional destructive
//! cleanup steps (deleting the customization tooling, reinitializing version
//! control). All file, prompt and process I/O lives outside the library; the
//! library works on plain bytes and values.

pub mod ascii;
pub mod driver;
pub mod logger;
pub mod names;
pub mod render;
pub mod subst;
