//! Java source outline extraction: symbols, imports and call sites, read from
//! the syntax tree that the tree-sitter Java grammar produces.
//!
//! The syntax tree is held as plain values (`syntax`); every extraction step
//! (`java`) is stated over it as a specification and proved against it.

mod calls;
mod declarations;
mod edge_cases;
mod imports;
mod java;
mod model;
mod nodes;
mod render;
mod symbols;
mod syntax;
mod text;

pub use edge_cases::{calls_local_render_text, commented_out_call, render_text};
pub use calls::find_enclosing_symbol;
pub use declarations::{build_qualified_name, extract_signature, extract_visibility, has_modifier};
pub use java::{fits_source, in_source_order, FileOutline, JavaParser, OutlineError};
pub use nodes::{extract_package_name, node_range, node_text};
pub use model::{Import, RefKind, Reference, SourceRange, Symbol, SymbolKind, Visibility};
pub use render::RenderCtx;
pub use syntax::{java_syntax, Node, SyntaxError, SyntaxNode, SyntaxTree};
pub use text::truncate_utf8;
