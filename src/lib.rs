//! Format-preserving normalization of requirement strings held in the
//! arrays of a TOML concrete syntax tree.
pub mod laws;
pub mod model;
pub mod quote;
pub mod splice;
pub mod syntax;

pub use quote::{contains_char, escape_quotes, rewrite_string, token_payload};
pub use splice::{normalize_array_entry, splice_array, splice_value, NormalizeError, Normalizer};
pub use syntax::{Kind, SyntaxElement, SyntaxNode, SyntaxToken};
