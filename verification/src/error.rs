use vstd::prelude::*;

use crate::dic::description::DescriptionError;
use crate::dic::lexicon_set::LexiconSetError;
use crate::dic::word_id::WordId;

verus! {

/// Errors raised by dictionary access and analysis.
#[derive(Debug)]
pub enum SudachiError {
    /// A range `begin..end` that does not fit the data it indexes.
    InvalidRange(usize, usize),
    /// The grammar part of a dictionary is malformed.
    InvalidDictionaryGrammar,
    /// A system dictionary carries no connection matrix.
    ConnectionMatrixMissing,
    /// No path connects the beginning and the end of the sentence.
    EosBosDisconnect,
    /// A word id that does not address any dictionary entry.
    InvalidWordId(WordId),
    /// A part of speech that is malformed or cannot be registered.
    InvalidPartOfSpeech(String),
    /// An error of a set of lexicons.
    LexiconSetError(LexiconSetError),
    /// An error of the description block of a binary dictionary.
    Description(DescriptionError),
    /// Binary data ended or was malformed at the given byte offset.
    InvalidDataFormat(usize),
    /// A UTF-16 or UTF-8 string in binary data could not be decoded.
    InvalidString,
    /// A character category name that is not known.
    InvalidCharacterCategoryType(String),
    /// The morpheme list is in use elsewhere.
    MorphemeListBorrowed,
    /// An error raised while compiling a dictionary.
    DictionaryCompilationError(crate::dic::build::error::DicBuildError),
    /// The dictionary is not of the expected kind.
    InvalidHeader(crate::dic::header::HeaderError),
    /// A configuration error.
    ConfigError(crate::config::ConfigError),
}

/// Result type of the library.
pub type SudachiResult<T> = Result<T, SudachiError>;

} // verus!
