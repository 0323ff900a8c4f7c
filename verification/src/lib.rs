//! A calculator for sets of IP addresses.
//!
//! Address sets of either family (IPv4 or IPv6) are held as compressed
//! binary tries; union and difference keep the tries in canonical form,
//! and enumeration walks a trie to recover the canonical list of
//! `prefix/length` blocks that covers the set.

pub mod bitstring;
pub mod data;
pub mod trie;
pub mod walker;
pub mod parser;
pub mod scope;
pub mod eval;
pub mod laws;

pub use trie::SetNode;
pub use data::{V4, V6};
pub use parser::{Stmt, Expr, Atomic, ParseError, parse, parse_single};
pub use eval::{Value, EvalError, eval, eval_stmt};
pub use scope::Scope;
