//! Finite-state transducers in the style of HFST: symbols, flag diacritics,
//! weighted non-deterministic lookup, and the AT&T and KFST file formats.
//!
//! A transducer is read with [`FST::from_att_code`] or
//! [`FST::from_kfst_bytes`], or built with [`FST::from_rules`]; a text is
//! looked up with [`FST::lookup`], which splits it into symbols of the
//! alphabet, runs the transducer over them and orders the outputs by weight.
//!
//! Every function states what it returns over a mathematical model of its
//! arguments: a symbol is its [`symbol::SymbolView`], a flag register a map,
//! the state of a path its [`state::PathView`] and a transducer its
//! [`transducer::FstView`]. The laws that relate several functions are proof
//! functions: that the results of a search are exactly what the runs of the
//! transducer over the input record ([`runs`]), with the weights and the
//! outputs of walks along its transitions ([`paths`]); that a transducer
//! holds the rules it was built of and is rebuilt from its own parts
//! ([`members`], [`rebuild`]); and that what either file format has written
//! reads back as the same transducer ([`reread`], [`roundtrip`]).
//!
//! A weight is the bit pattern of an IEEE 754 binary64 number
//! ([`weight::Weight`]). Sums and decimal numerals of weights are left to a
//! software implementation of that arithmetic; the numerals of the weights in
//! AT&T text are made by the caller, and so is the decompression of KFST
//! data.
//!
//! Four outside libraries are used, each behind a few functions whose
//! contracts are taken on trust: persistent hash maps for flag registers
//! ([`flags`]), insertion-ordered sets for finding a state in a table
//! ([`nodes`], [`lookup`]), XZ compression ([`kfst`]) and binary64 arithmetic
//! ([`weight`]).

pub mod alphabet;
pub mod att;
pub mod bytes;
pub mod error;
pub mod explore;
pub mod flags;
pub mod kfst;
pub mod lookup;
pub mod members;
pub mod nodes;
pub mod paths;
pub mod rebuild;
pub mod reread;
pub mod roundtrip;
pub mod runs;
pub mod state;
pub mod symbol;
pub mod text;
pub mod tokenize;
pub mod transducer;
pub mod weight;

pub use crate::error::KfstError;
pub use crate::flags::FlagMap;
pub use crate::state::FSTState;
pub use crate::symbol::{
    from_symbol_string, FlagDiacriticSymbol, FlagDiacriticType, RawSymbol, SpecialSymbol,
    StringSymbol, Symbol,
};
pub use crate::transducer::FST;
pub use crate::weight::Weight;
