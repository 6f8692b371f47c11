//! Providers of nodes for words that no dictionary knows.

pub mod oov;
