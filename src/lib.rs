//! Packs a resolved module graph into one self-contained script.
//!
//! The library works on plain values: module sources, a syntax model of each
//! module, and the graph's walk order. Parsing, resolving and transpiling
//! are the caller's: the parser fills the syntax model, the graph resolves
//! each import to a specifier, and `pack` takes the transpiler as a function.
//! Text is addressed by character offsets.
//!
//! - `text`: byte order marks, white space, JSON module text, decimals.
//! - `text_change`: applying non-overlapping replacements to a text.
//! - `registry`: module numbers, export records and the `export *` closure.
//! - `syntax`: the syntax model of a module.
//! - `aliases`, `exports`: what a module's imports bind and its exports record.
//! - `rewrite`: the text changes that erase module and type-only syntax.
//! - `analyze`: one module's analysis, tying the above together.
//! - `emit`, `pack`: assembling the packed script.
pub mod text;
pub mod text_change;
pub mod registry;
pub mod syntax;
pub mod aliases;
pub mod exports;
pub mod rewrite;
pub mod analyze;
pub mod emit;
pub mod pack;
