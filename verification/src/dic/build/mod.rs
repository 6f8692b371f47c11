//! Primitives for compiling binary dictionaries.

pub mod conn;
pub mod error;
pub mod index;
pub mod lexicon;
pub mod parse;
pub mod primitives;
pub mod resolve;
pub mod util;
