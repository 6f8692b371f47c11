//! Morphological analysis: lattice construction and result nodes.

pub mod created;
pub mod inner;
pub mod lattice;
pub mod mlist;
pub mod mode;
pub mod morpheme;
pub mod node;
pub mod stateful_tokenizer;
pub mod stateless_tokenizer;

use vstd::prelude::*;

use crate::analysis::mlist::MorphemeList;
use crate::analysis::mode::Mode;
use crate::error::SudachiResult;

verus! {

/// Able to split Japanese text into morphemes.
pub trait Tokenize<'a> {
    /// Splits `input` into morphemes of unit `mode`.
    fn tokenize(&self, input: &str, mode: Mode, enable_debug: bool) -> SudachiResult<
        MorphemeList<'a>,
    >;
}

} // verus!
