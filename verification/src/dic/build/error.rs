use vstd::prelude::*;
use vstd::string::StringExecFns;

use crate::error::{SudachiError, SudachiResult};

verus! {

/// Specific reasons for a dictionary compilation failure.
#[derive(Debug)]
pub enum BuildFailure {
    /// A size larger than allowed.
    InvalidSize { actual: usize, expected: usize },
    /// A field whose size is larger than allowed.
    InvalidFieldSize { actual: usize, expected: usize, field: String },
    /// A field missing from a CSV row.
    NoRawField(String),
    /// A string that cannot be placed where a pointer can address it.
    InvalidStringPointer { length: usize, offset: usize, alignment: usize },
    /// An escaped character whose code is not a Unicode scalar value.
    InvalidCharLiteral(String),
    /// A literal that is not a valid `i16`.
    InvalidI16Literal(String),
    /// A literal that is not a valid `u32`.
    InvalidU32Literal(String),
    /// A malformed word id.
    InvalidWordId(String),
    /// A malformed split.
    InvalidSplit(String),
    /// A line that lacks a field.
    SplitFormatError { field: String, original: String },
    /// An empty surface.
    EmptySurface,
    /// Too many parts of speech.
    PosLimitExceeded(String),
    /// A split reference that could not be resolved.
    InvalidSplitWordReference(String),
    /// The lexicon still holds unresolved splits.
    UnresolvedSplits,
    /// A connection matrix dimension that is negative.
    InvalidConnSize(String, i16),
    /// An input line that is not valid text.
    InvalidText,
    /// The word id table has to be built before the trie.
    WordIdTableNotBuilt,
    /// The trie could not be built.
    TrieBuildFailure,
}

/// Dictionary compilation error with the file and line where it happened.
#[derive(Debug)]
pub struct DicBuildError {
    pub file: String,
    pub line: usize,
    pub cause: BuildFailure,
}

/// Result of a dictionary compilation step.
pub type DicWriteResult<T> = Result<T, BuildFailure>;

/// Where a dictionary compilation step is: the name of the source and the
/// line being read.
pub struct DicCompilationCtx {
    name: String,
    line: usize,
}

impl Default for DicCompilationCtx {
    fn default() -> (r: DicCompilationCtx)
        ensures
            r.spec_name() == Seq::<char>::empty(),
            r.spec_line() == 0,
    {
        DicCompilationCtx { name: String::new(), line: 0 }
    }
}

impl DicCompilationCtx {
    /// Name of the source.
    pub closed spec fn spec_name(&self) -> Seq<char> {
        self.name@
    }

    /// Line being read.
    pub closed spec fn spec_line(&self) -> usize {
        self.line
    }

    /// Context of a source held in memory, at line 0.
    pub fn memory() -> (r: DicCompilationCtx)
        ensures
            r.spec_name() == "<memory>"@,
            r.spec_line() == 0,
    {
        DicCompilationCtx { name: String::from_str("<memory>"), line: 0 }
    }

    /// The compilation error of `reason` at the current source and line.
    pub fn to_sudachi_err(&self, reason: BuildFailure) -> (r: SudachiError)
        ensures
            r matches SudachiError::DictionaryCompilationError(e) && e.file@ == self.spec_name()
                && e.line == self.spec_line() && e.cause == reason,
    {
        SudachiError::DictionaryCompilationError(
            DicBuildError { file: self.name.clone(), line: self.line, cause: reason },
        )
    }

    /// Fails with the compilation error of `reason` at the current source
    /// and line.
    pub fn err<T>(&self, reason: BuildFailure) -> (r: SudachiResult<T>)
        ensures
            r matches Err(SudachiError::DictionaryCompilationError(e)) && e.file@ == self.spec_name()
                && e.line == self.spec_line() && e.cause == reason,
    {
        Err(self.to_sudachi_err(reason))
    }

    /// The result, with an error turned into a compilation error at the
    /// current source and line.
    pub fn transform<T>(&self, result: DicWriteResult<T>) -> (r: SudachiResult<T>)
        ensures
            match result {
                Ok(v) => r == Ok::<T, SudachiError>(v),
                Err(cause) => r matches Err(SudachiError::DictionaryCompilationError(e)) && e.file@
                    == self.spec_name() && e.line == self.spec_line() && e.cause == cause,
            },
    {
        match result {
            Ok(v) => Ok(v),
            Err(cause) => Err(
                SudachiError::DictionaryCompilationError(
                    DicBuildError { file: self.name.clone(), line: self.line, cause },
                ),
            ),
        }
    }

    /// Sets the name of the source; returns the previous one.
    pub fn set_filename(&mut self, new_name: String) -> (r: String)
        ensures
            r@ == old(self).spec_name(),
            final(self).spec_name() == new_name@,
            final(self).spec_line() == old(self).spec_line(),
    {
        let mut name = new_name;
        std::mem::swap(&mut self.name, &mut name);
        name
    }

    /// Moves `offset` lines further.
    pub fn add_line(&mut self, offset: usize)
        requires
            old(self).spec_line() + offset <= usize::MAX,
        ensures
            final(self).spec_line() == old(self).spec_line() + offset,
            final(self).spec_name() == old(self).spec_name(),
    {
        self.line = self.line + offset;
    }

    /// Sets the line; returns the previous one.
    pub fn set_line(&mut self, line: usize) -> (r: usize)
        ensures
            r == old(self).spec_line(),
            final(self).spec_line() == line,
            final(self).spec_name() == old(self).spec_name(),
    {
        let prev = self.line;
        self.line = line;
        prev
    }
}

} // verus!
