//! The errors of decoding and encoding.
use vstd::prelude::*;

verus! {

/// What the decoder looked for where it found another byte.
#[derive(Clone, Copy, Debug, PartialEq, Eq, Structural)]
pub enum Expected {
    /// This exact byte.
    Byte(u8),
    /// An ASCII digit.
    Digit,
    /// The first byte of a value: `i`, a digit, `l` or `d`.
    ValueStart,
}

/// The four kinds of value of the format.
#[derive(Clone, Copy, Debug, PartialEq, Eq, Structural)]
pub enum Kind {
    ByteString,
    Integer,
    List,
    Dictionary,
}

/// Native types that have no counterpart in the format.
#[derive(Clone, Copy, Debug, PartialEq, Eq, Structural)]
pub enum Unsupported {
    Bool,
    F32,
    F64,
    Char,
    Unit,
    Absent,
    Enum,
}

/// Why a decode or an encode failed.
#[derive(Clone, Copy, Debug, PartialEq, Eq, Structural)]
pub enum Error {
    /// The input ended inside a value.
    UnexpectedEndOfInput,
    /// A complete value was followed by more bytes.
    TrailingBytesAfterValue,
    /// A byte that the grammar does not allow at `offset`.
    UnexpectedToken { expected: Expected, found: u8, offset: usize },
    /// A number does not fit the integer type it is read into.
    IntegerOverflow,
    /// The integer `i-0e`.
    NegativeZero,
    /// An integer other than zero that starts with the digit zero.
    LeadingZero,
    /// A dictionary key that is not strictly greater than the key before it.
    UnsortedDictionaryKeys,
    /// A dictionary key that is not a byte string.
    DictionaryKeyMustBeByteString,
    /// A value of one kind where another was asked for.
    TypeMismatch { expected_class: Kind, found_byte: u8 },
    /// A native type that the format cannot hold.
    UnsupportedTarget { kind: Unsupported },
    /// A byte string read as text is not UTF-8.
    InvalidTextEncoding,
    /// Lists and dictionaries are nested deeper than the decoder allows.
    RecursionLimitExceeded,
}

} // verus!
