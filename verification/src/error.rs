//! Typed errors of the engine.
//!
//! Every engine-layer failure is returned to the caller as a typed result;
//! the engine never retries internally and never leaves partial state
//! visible.

use vstd::prelude::*;

verus! {

/// Why a query string or an address string was rejected.
#[derive(Debug, Clone, Copy, PartialEq, Eq, Structural)]
pub enum ParseReason {
    /// The query text holds no clause at all.
    EmptyQuery,
    /// A quote was opened and never closed.
    UnterminatedQuote,
    /// A `field:` prefix names a field absent from the schema.
    UnknownField,
    /// An address string lacks the `:` separator.
    MissingSeparator,
    /// An address component is empty, non-numeric, or too large.
    InvalidNumber,
    /// A clause has a field prefix but no term after the colon.
    EmptyTerm,
}

/// The engine's error taxonomy.
#[derive(Debug, Clone, Copy, PartialEq, Eq, Structural)]
pub enum Error {
    /// Caller-side configuration could not be read or decoded.
    ConfigError,
    /// A document carries a field name absent from the schema.
    SchemaMismatch,
    /// `add_document` was called after `finish`.
    BuilderClosed,
    /// A write or flush of the index image failed.
    IOError,
    /// The target path already holds an index.
    AlreadyExists,
    /// The target path holds no index.
    NotFound,
    /// The index image footer or framing failed validation.
    CorruptIndex,
    /// A query or address string was rejected; holds the reason and the
    /// character position at which the problem was found.
    ParseError(ParseReason, usize),
    /// A query references a field absent from the schema.
    FieldNotFound,
    /// A segment's postings failed structural validation during read.
    IndexCorrupt,
    /// A document address is out of range for this index.
    InvalidAddress,
}

} // verus!
