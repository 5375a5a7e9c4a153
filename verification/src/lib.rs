//! A CSS-dialect compiler with a verified core.
//!
//! Raw CSS-like text (flat declarations, nested selectors with the
//! current-selector token `&`, and a closed set of at-rules) is parsed into a
//! scope-aware syntax tree, and the tree is rendered back into standard CSS
//! scoped to a caller-supplied class name.  A registry keeps one record per
//! generated class name with reference-counted mount/unmount bookkeeping, so
//! that every live handle to a style shares a single injected resource.

pub mod ast;
pub mod name;
pub mod parser;
pub mod style;
pub mod text;

pub use ast::{Block, Rule, RuleContent, Scope, ScopeContent, Scopes, StyleAttribute, ToCss};
pub use name::gen_unique_name;
pub use parser::{error_context, parse, ParseError};
pub use style::{ClassNameStrategy, MountAction, Style, StyleRegistry, UnmountAction};
