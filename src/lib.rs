pub mod binders;
pub mod dup;
pub mod fresh;
pub mod laws;
pub mod names;
pub mod rule;
pub mod sanitize;
pub mod table;
pub mod term;

pub use binders::create_fresh;
pub use rule::{sanitize_rule, SanitizedRule};
pub use dup::duplicator;
pub use fresh::NewStringGenerator;
pub use sanitize::{sanitize_term, term_size, CtxSanitizeTerm, SanitizeError};
pub use table::{NameTable, UsesMap};
pub use term::{Oper, Rule, Term};
