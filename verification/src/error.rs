//! The ways in which an operation of this library can fail.

use vstd::prelude::*;

verus! {

/// Why an operation failed.
#[derive(Debug, Clone, Copy, PartialEq, Eq, Structural)]
pub enum KfstError {
    /// A text does not denote a symbol of the wanted kind.
    Symbol,
    /// A text names no kind of flag diacritic.
    FlagType,
    /// A line of AT&T text is malformed; lines are counted from zero.
    AttLine { line: usize },
    /// Binary data does not begin with the magic bytes and a version.
    Header,
    /// Binary data is of a version other than zero.
    Version,
    /// Binary data ends before the counts and the flag of the header.
    Metadata,
    /// The table of symbols ends early or holds an empty entry.
    SymbolTable,
    /// An entry of the table of symbols is not UTF-8.
    Encoding,
    /// The compressed part of binary data cannot be decompressed.
    Compression,
    /// The table of transitions ends early.
    Transitions,
    /// The table of final states ends early.
    FinalStates,
    /// Bytes follow the table of final states.
    Trailing,
    /// A transition names a symbol that the table of symbols lacks.
    SymbolIndex,
    /// A transducer has too many symbols, transitions or final states, or a
    /// state number too large, for the binary format.
    Range,
    /// A symbol of a rule is missing from the alphabet.
    Alphabet,
    /// A text cannot be split into symbols of the alphabet.
    Tokenization,
}

} // verus!
