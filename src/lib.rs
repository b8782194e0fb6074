//! A garbage-collected heap with typed root tracking, and the lexer and
//! values of a small interpreter built on it.
//!
//! - [`block`]: aligned regions with bump allocation.
//! - [`heap`]: heaps, mutators, roots and the collector.
//! - [`lexer`]: splitting source code into tokens.
//! - [`value`]: interpreter values.

use vstd::prelude::*;

pub mod block;
pub mod heap;
pub mod lexer;
pub mod value;

verus! {

} // verus!
