//! Composition of embedded WGSL fragments: scanning token trees for
//! references to exported fragments, pasting each referenced fragment once,
//! rendering the resolved tree as WGSL text with a byte-offset map, and
//! mapping validator errors back to the tokens they came from.
pub mod token;
pub mod scan;
pub mod render;
pub mod paste;
pub mod registry;
pub mod compose;
pub mod diagnostics;
pub mod validate;
pub mod export;
pub mod laws;

pub use compose::{compose, expand, resolve_fragments, wgsl_macro, Diagnostic, Expansion};
pub use diagnostics::translate;
pub use export::{wgsl_export2, ExportError};
pub use paste::paste_fragment;
pub use registry::{DuplicateName, Registry};
pub use render::{consume_post, is_well_formed, serialize, to_wgsl_string};
pub use scan::{sanitize, sanitize_remaining, Config};
pub use token::{close, open, Delim, Group, Ident, Literal, Loc, Punct, Token, SIGIL};
pub use validate::GrammarFault;
