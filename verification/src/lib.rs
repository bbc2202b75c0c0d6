//! Typed expression trees for DynamoDB requests, compiled to expression text
//! and placeholder tables.
//!
//! A caller writes a condition, a selection or an update expression as a tree
//! of attribute paths. A compiler walks the tree and hands back an atom: the
//! expression text, the attribute name behind each name placeholder of the
//! text, and the value behind each value placeholder. One counter runs
//! through a whole pass, so that no two operands of a tree share a value
//! placeholder.
//!
//! - [`common`] holds the atom and its merge, the placeholders, and the
//!   compilers of conditions and selections.
//! - [`write`] holds the compiler of update expressions, and how the writing
//!   requests take the compiled expressions in.
//! - [`read`] holds how the reading requests take them in.
//! - [`text`] holds decimal numerals.
//!
//! Each compiler is stated as a function on mathematical trees, and the
//! executable compiler is proved to compute it. The trees hold values of any
//! type; an encoder turns them into the values that a request can carry, and
//! its first refusal ends a pass.

pub mod common;
pub mod read;
pub mod text;
pub mod write;
