//! Binary dictionary: grammar, lexicon and their readers and builders.

pub mod binary_loader;
pub mod build;
pub mod category_type;
pub mod connect;
pub mod description;
pub mod dictionary;
pub mod dictionary_access;
pub mod grammar;
pub mod header;
pub mod lexicon;
pub mod lexicon_set;
pub mod read;
pub mod subset;
pub mod word_id;
